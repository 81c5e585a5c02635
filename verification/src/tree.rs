use crate::text::is_field;
use vstd::prelude::*;

verus! {

/// The mathematical value of a parsed item: what the tree says, apart from
/// where its text is stored.
pub enum Node {
    /// A leaf holding a line's or a field's text.
    Text(Seq<char>),
    /// A key with the one value it names.
    Pair(Seq<char>, Box<Node>),
    /// An ordered sequence of items, in document order.
    List(Seq<Node>),
}

impl Node {
    /// Whether this is a value that a document can have: a string holds no
    /// tab and no newline; a key is not empty and holds neither; and a key's
    /// value is a string or a list, never another pair.
    pub open spec fn well_formed(self) -> bool
        decreases self,
    {
        match self {
            Node::Text(text) => !text.contains('\t') && !text.contains('\n'),
            Node::Pair(key, value) => is_field(key) && !(*value is Pair) && value.well_formed(),
            Node::List(items) => forall|i: int|
                0 <= i < items.len() ==> (#[trigger] items[i]).well_formed(),
        }
    }
}

/// Whether every one of `items` is well formed.
pub open spec fn all_well_formed(items: Seq<Node>) -> bool {
    forall|i: int| 0 <= i < items.len() ==> (#[trigger] items[i]).well_formed()
}

/// One parsed value; its text borrows from the document.
#[derive(PartialEq, Debug)]
pub enum TItem<'a> {
    KeyValuePair(TKeyValuePair<'a>),
    String(&'a str),
    Array(TArray<'a>),
}

/// A key and the value it names.
#[derive(PartialEq, Debug)]
pub struct TKeyValuePair<'a> {
    pub key: &'a str,
    pub value: Box<TItem<'a>>,
}

/// An ordered sequence of items.
#[derive(PartialEq, Debug)]
pub struct TArray<'a>(pub Vec<TItem<'a>>);

impl<'a> TItem<'a> {
    /// The value of this item.
    pub open spec fn node(self) -> Node
        decreases self,
    {
        match self {
            TItem::String(text) => Node::Text(text@),
            TItem::KeyValuePair(pair) => Node::Pair(pair.key@, Box::new((*pair.value).node())),
            // The test on `i` is what shows that the items are smaller than `self`.
            TItem::Array(array) => Node::List(
                Seq::new(
                    array.0.len() as nat,
                    |i: int|
                        if 0 <= i < array.0.len() {
                            array.0[i].node()
                        } else {
                            Node::List(Seq::empty())
                        },
                ),
            ),
        }
    }
}

impl<'a> View for TItem<'a> {
    type V = Node;

    open spec fn view(&self) -> Node {
        self.node()
    }
}

impl<'a> View for TKeyValuePair<'a> {
    type V = Node;

    open spec fn view(&self) -> Node {
        Node::Pair(self.key@, Box::new(self.value.node()))
    }
}

impl<'a> View for TArray<'a> {
    type V = Seq<Node>;

    open spec fn view(&self) -> Seq<Node> {
        nodes(self.0@)
    }
}

/// The values of a sequence of items, in order.
pub open spec fn nodes<'a>(items: Seq<TItem<'a>>) -> Seq<Node> {
    items.map_values(|item: TItem<'a>| item.node())
}

/// An array item's value is the list of its items' values.
pub proof fn lemma_array_node<'a>(array: TArray<'a>)
    ensures
        TItem::Array(array).node() == Node::List(array@),
{
    let item = TItem::Array(array);
    assert(item.node()->List_0 =~= array@);
}

} // verus!
