//! The AST node model: a closed set of node variants, each carrying a
//! decoded value (where applicable) and a location range, together with the
//! mathematical model the parser's contracts are stated over.
use vstd::prelude::*;

use crate::location::LocationRange;
use crate::tokens::Token;

verus! {

/// A node carrying one decoded value and its span.
#[derive(Debug, PartialEq)]
pub struct ValueNode<T> {
    pub value: T,
    pub loc: LocationRange,
}

/// The `null` literal: no value, only a span.
#[derive(Debug, Clone, Copy, PartialEq, Eq, Structural)]
pub struct NullNode {
    pub loc: LocationRange,
}

/// An object: its member nodes in source order; the span runs from `{` to
/// `}` inclusive.
#[derive(Debug, PartialEq)]
pub struct ObjectNode {
    pub members: Vec<Node>,
    pub loc: LocationRange,
}

/// An array: its element nodes in source order; the span runs from `[` to
/// `]` inclusive.
#[derive(Debug, PartialEq)]
pub struct ArrayNode {
    pub elements: Vec<Node>,
    pub loc: LocationRange,
}

/// One `name: value` pair of an object; the span runs from the name's start
/// to the value's end.
#[derive(Debug, PartialEq)]
pub struct MemberNode {
    pub name: Node,
    pub value: Node,
    pub loc: LocationRange,
}

/// A wrapper around one array item, used for uniform array-item typing; its
/// span equals the wrapped value's own.
#[derive(Debug, PartialEq)]
pub struct ElementNode {
    pub value: Node,
    pub loc: LocationRange,
}

/// The root node: the parsed body, every token consumed (comments included),
/// and a span covering the entire input.
#[derive(Debug, PartialEq)]
pub struct DocumentNode {
    pub body: Node,
    pub loc: LocationRange,
    pub tokens: Vec<Token>,
}

/// The closed set of node variants. A `Number` carries the raw lexeme
/// exactly as validated by the lexer; turning it into a machine float is the
/// caller's affair.
#[derive(Debug, PartialEq)]
pub enum Node {
    Document(Box<DocumentNode>),
    String(Box<ValueNode<String>>),
    Number(Box<ValueNode<String>>),
    Boolean(Box<ValueNode<bool>>),
    Null(Box<NullNode>),
    Array(Box<ArrayNode>),
    Object(Box<ObjectNode>),
    Member(Box<MemberNode>),
    Element(Box<ValueNode<Node>>),
}

/// The mathematical model of a value node: what the parser's contracts say
/// a parse returns.
pub ghost enum SpecNode {
    String { value: Seq<char>, loc: LocationRange },
    Number { lexeme: Seq<char>, loc: LocationRange },
    Boolean { value: bool, loc: LocationRange },
    Null { loc: LocationRange },
    Array { elements: Seq<SpecNode>, loc: LocationRange },
    Object { members: Seq<SpecMember>, loc: LocationRange },
}

/// The model of one object member: the decoded name string with its span,
/// the value, and the member's overall span.
pub ghost struct SpecMember {
    pub name_value: Seq<char>,
    pub name_loc: LocationRange,
    pub value: SpecNode,
    pub loc: LocationRange,
}

impl SpecNode {
    /// The span of a modelled node.
    pub open spec fn loc(self) -> LocationRange {
        match self {
            SpecNode::String { loc, .. } => loc,
            SpecNode::Number { loc, .. } => loc,
            SpecNode::Boolean { loc, .. } => loc,
            SpecNode::Null { loc } => loc,
            SpecNode::Array { loc, .. } => loc,
            SpecNode::Object { loc, .. } => loc,
        }
    }
}

impl Node {
    /// The span any node carries.
    pub open spec fn spec_loc(self) -> LocationRange {
        match self {
            Node::Document(d) => d.loc,
            Node::String(v) => v.loc,
            Node::Number(v) => v.loc,
            Node::Boolean(v) => v.loc,
            Node::Null(v) => v.loc,
            Node::Array(a) => a.loc,
            Node::Object(o) => o.loc,
            Node::Member(m) => m.loc,
            Node::Element(v) => v.loc,
        }
    }

    /// The decoded text of a string node; empty for any other variant.
    pub open spec fn spec_string_value(self) -> Seq<char> {
        match self {
            Node::String(v) => v.value@,
            _ => Seq::empty(),
        }
    }

    /// The model of a node. `Element` and `Member` wrappers are transparent
    /// (an element's span equals its value's, see `value_wrapped`), and a
    /// `Document` is modelled by its body.
    pub open spec fn model(self) -> SpecNode
        decreases self, 0int,
    {
        match self {
            Node::Document(d) => d.body.model(),
            Node::String(v) => SpecNode::String { value: v.value@, loc: v.loc },
            Node::Number(v) => SpecNode::Number { lexeme: v.value@, loc: v.loc },
            Node::Boolean(v) => SpecNode::Boolean { value: v.value, loc: v.loc },
            Node::Null(v) => SpecNode::Null { loc: v.loc },
            Node::Array(a) => SpecNode::Array { elements: models_of(a.elements@), loc: a.loc },
            Node::Object(o) => SpecNode::Object {
                members: member_models_of(o.members@),
                loc: o.loc,
            },
            Node::Member(m) => m.value.model(),
            Node::Element(v) => v.value.model(),
        }
    }

    /// The model of a node standing as an object member.
    pub open spec fn member_model(self) -> SpecMember
        decreases self, 1int,
    {
        match self {
            Node::Member(m) => SpecMember {
                name_value: m.name.spec_string_value(),
                name_loc: m.name.spec_loc(),
                value: m.value.model(),
                loc: m.loc,
            },
            _ => SpecMember {
                name_value: Seq::empty(),
                name_loc: self.spec_loc(),
                value: self.model(),
                loc: self.spec_loc(),
            },
        }
    }

    /// A well-shaped value node: scalars stand bare, every array item is an
    /// `Element` wrapper whose span equals its value's, every object entry
    /// is a `Member` whose name is a string node and whose span runs from
    /// the name's start to the value's end.
    pub open spec fn value_wrapped(self) -> bool
        decreases self,
    {
        match self {
            Node::String(_) => true,
            Node::Number(_) => true,
            Node::Boolean(_) => true,
            Node::Null(_) => true,
            Node::Array(a) => elements_wrapped(a.elements@),
            Node::Object(o) => members_wrapped(o.members@),
            _ => false,
        }
    }

    /// A well-shaped array item.
    pub open spec fn element_wrapped(self) -> bool
        decreases self,
    {
        match self {
            Node::Element(v) => v.loc == v.value.spec_loc() && v.value.value_wrapped(),
            _ => false,
        }
    }

    /// A well-shaped object entry.
    pub open spec fn entry_wrapped(self) -> bool
        decreases self,
    {
        match self {
            Node::Member(m) => {
                &&& m.name matches Node::String(_)
                &&& m.loc == (LocationRange {
                    start: m.name.spec_loc().start,
                    end: m.value.spec_loc().end,
                })
                &&& m.value.value_wrapped()
            },
            _ => false,
        }
    }
}

/// The models of a sequence of array items.
pub open spec fn models_of(s: Seq<Node>) -> Seq<SpecNode>
    decreases s, 1int,
{
    if s.len() == 0 {
        Seq::empty()
    } else {
        models_of(s.drop_last()).push(s.last().model())
    }
}

/// The models of a sequence of object entries.
pub open spec fn member_models_of(s: Seq<Node>) -> Seq<SpecMember>
    decreases s, 2int,
{
    if s.len() == 0 {
        Seq::empty()
    } else {
        member_models_of(s.drop_last()).push(s.last().member_model())
    }
}

pub open spec fn elements_wrapped(s: Seq<Node>) -> bool
    decreases s,
{
    if s.len() == 0 {
        true
    } else {
        elements_wrapped(s.drop_last()) && s.last().element_wrapped()
    }
}

pub open spec fn members_wrapped(s: Seq<Node>) -> bool
    decreases s,
{
    if s.len() == 0 {
        true
    } else {
        members_wrapped(s.drop_last()) && s.last().entry_wrapped()
    }
}

/// `models_of` maps the sequence elementwise.
pub proof fn lemma_models_of(s: Seq<Node>)
    ensures
        models_of(s).len() == s.len(),
        forall|i: int| 0 <= i < s.len() ==> models_of(s)[i] == #[trigger] s[i].model(),
    decreases s,
{
    if s.len() > 0 {
        lemma_models_of(s.drop_last());
        assert forall|i: int| 0 <= i < s.len() implies models_of(s)[i] == #[trigger] s[i].model() by {
            if i < s.len() - 1 {
                assert(s.drop_last()[i] == s[i]);
                assert(models_of(s)[i] == models_of(s.drop_last())[i]);
            } else {
                assert(s[i] == s.last());
            }
        }
    }
}

/// `member_models_of` maps the sequence elementwise.
pub proof fn lemma_member_models_of(s: Seq<Node>)
    ensures
        member_models_of(s).len() == s.len(),
        forall|i: int|
            0 <= i < s.len() ==> member_models_of(s)[i] == #[trigger] s[i].member_model(),
    decreases s,
{
    if s.len() > 0 {
        lemma_member_models_of(s.drop_last());
        assert forall|i: int|
            0 <= i < s.len() implies member_models_of(s)[i] == #[trigger] s[i].member_model() by {
            if i < s.len() - 1 {
                assert(s.drop_last()[i] == s[i]);
                assert(member_models_of(s)[i] == member_models_of(s.drop_last())[i]);
            } else {
                assert(s[i] == s.last());
            }
        }
    }
}

} // verus!
