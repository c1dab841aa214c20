//! Structured documents, as far as this library reads and writes them:
//! strings, integers, arrays and mappings. Scripts and executables are
//! stored as such documents.

use vstd::prelude::*;

verus! {

/// A value of a document.
#[derive(Debug, PartialEq, Eq)]
pub enum Node {
    String(String),
    Integer(i64),
    Array(Vec<Node>),
    /// A mapping: its pairs of key and value, in the order in which they
    /// were written.
    Hash(Vec<(Node, Node)>),
    /// A value of any other kind.
    Other,
}

/// What a [`Node`] stands for in contracts.
pub enum NodeView {
    String(Seq<char>),
    Integer(int),
    Array(Seq<NodeView>),
    Hash(Seq<(NodeView, NodeView)>),
    Other,
}

impl View for Node {
    type V = NodeView;

    open spec fn view(&self) -> NodeView
        decreases self,
    {
        match self {
            Node::String(text) => NodeView::String(text@),
            Node::Integer(number) => NodeView::Integer(*number as int),
            Node::Array(items) => NodeView::Array(nodes_view(items@)),
            Node::Hash(pairs) => NodeView::Hash(pairs_view(pairs@)),
            Node::Other => NodeView::Other,
        }
    }
}

/// The views of a sequence of values, in order.
pub open spec fn nodes_view(nodes: Seq<Node>) -> Seq<NodeView>
    decreases nodes,
{
    Seq::new(
        nodes.len(),
        |i: int|
            if 0 <= i < nodes.len() {
                nodes[i].view()
            } else {
                NodeView::Other
            },
    )
}

/// The views of the pairs of a mapping, in order.
pub open spec fn pairs_view(pairs: Seq<(Node, Node)>) -> Seq<(NodeView, NodeView)>
    decreases pairs,
{
    Seq::new(
        pairs.len(),
        |i: int|
            if 0 <= i < pairs.len() {
                (pairs[i].0.view(), pairs[i].1.view())
            } else {
                (NodeView::Other, NodeView::Other)
            },
    )
}

/// Why a document is no script or no executable.
#[derive(Debug, Clone, Copy, PartialEq, Eq, Structural)]
pub enum FormatError {
    /// A block of the document is missing or is not of the kind asked for:
    /// a mapping for a script or an entry table, an array for code.
    WrongRootShape,
    /// A mapping that has to hold exactly one key holds none or several.
    WrongKeyArity,
    /// An address is negative.
    NegativeAddress,
    /// An address is greater than the machine can hold.
    AddressTooLarge,
    /// A tag is none of those that the format knows.
    UnknownTag,
    /// A value is not of the kind that the format asks for in its place.
    Malformed,
}

/// Whether the character is white space: one of the characters to which
/// Unicode gives the property `White_Space`.
pub open spec fn is_space(c: char) -> bool {
    ||| '\u{9}' <= c <= '\u{D}'
    ||| c == ' '
    ||| c == '\u{85}'
    ||| c == '\u{A0}'
    ||| c == '\u{1680}'
    ||| '\u{2000}' <= c <= '\u{200A}'
    ||| c == '\u{2028}'
    ||| c == '\u{2029}'
    ||| c == '\u{202F}'
    ||| c == '\u{205F}'
    ||| c == '\u{3000}'
}

/// The text without the white space at its start and at its end.
pub open spec fn trimmed(text: Seq<char>) -> Seq<char>
    decreases text.len(),
{
    if text.len() > 0 && is_space(text.first()) {
        trimmed(text.drop_first())
    } else if text.len() > 0 && is_space(text.last()) {
        trimmed(text.drop_last())
    } else {
        text
    }
}

/// `str::trim`: the text between the leading and the trailing white space,
/// where white space is what Unicode's property `White_Space` says.
#[verifier::external_body]
pub(crate) fn trim(text: &str) -> (inner: &str)
    ensures
        inner@ == trimmed(text@),
{
    text.trim()
}

/// Whether the text, without the white space around it, is the tag.
pub(crate) fn is_tag(text: &str, tag: &str) -> (same: bool)
    ensures
        same == (trimmed(text@) == tag@),
{
    trim(text).to_owned() == tag.to_owned()
}

} // verus!
