//! The items that are scored and ranked, and the errors of the library.
use crate::score::NAN_BITS;
use vstd::prelude::*;

verus! {

/// Why a call was refused.
#[derive(Debug, Clone, Copy, PartialEq, Eq, Structural)]
pub enum InputError {
    /// Two vectors that a metric was to compare differ in length.
    LengthMismatch,
    /// A limit below zero was asked for.
    InvalidArgument,
}

impl InputError {
    /// What went wrong, in words.
    pub fn message(&self) -> (text: &'static str)
        ensures
            text == (match self {
                InputError::LengthMismatch => "the vectors differ in length",
                InputError::InvalidArgument => "the limit is below zero",
            }),
    {
        match self {
            InputError::LengthMismatch => "the vectors differ in length",
            InputError::InvalidArgument => "the limit is below zero",
        }
    }
}

/// An item to score: an identifier, a feature vector and the score it was
/// given. Components and score are single-precision bit patterns.
#[derive(Debug)]
pub struct Item {
    /// Identifier; two items are equal when their identifiers are.
    pub id: u32,
    /// The feature vector.
    pub values: Vec<u32>,
    /// The score; a NaN until one is computed.
    pub result: u32,
}

/// What an item holds, as mathematical values.
pub struct ItemView {
    pub id: u32,
    pub values: Seq<u32>,
    pub result: u32,
}

impl View for Item {
    type V = ItemView;

    open spec fn view(&self) -> ItemView {
        ItemView { id: self.id, values: self.values@, result: self.result }
    }
}

/// The views of a sequence of items, in order.
pub open spec fn views(items: Seq<Item>) -> Seq<ItemView> {
    Seq::new(items.len(), |i: int| items[i]@)
}

impl Item {
    /// An item with the given score, or unscored when none is given.
    pub fn new(id: u32, values: Vec<u32>, result: Option<u32>) -> (item: Self)
        ensures
            item.id == id,
            item.values == values,
            item.result == (match result {
                Some(score) => score,
                None => NAN_BITS,
            }),
    {
        let score: u32 = match result {
            Some(score) => score,
            None => NAN_BITS,
        };
        Item { id, values, result: score }
    }

    /// The same item carrying the score `r`.
    pub fn result(self, r: u32) -> (item: Self)
        ensures
            item.id == self.id,
            item.values == self.values,
            item.result == r,
    {
        Item { id: self.id, values: self.values, result: r }
    }
}

impl Default for Item {
    /// The item 0 with the single component `+0` and no score.
    fn default() -> (item: Self)
        ensures
            item@ == (ItemView { id: 0, values: seq![0u32], result: NAN_BITS }),
    {
        let mut values: Vec<u32> = Vec::new();
        values.push(0);
        let item = Item { id: 0, values, result: NAN_BITS };
        proof {
            assert(item.values@ =~= seq![0u32]);
        }
        item
    }
}

impl Clone for Item {
    fn clone(&self) -> (copy: Self)
        ensures
            copy@ == self@,
    {
        let values = self.values.clone();
        proof {
            assert(values@ =~= self.values@);
        }
        Item { id: self.id, values, result: self.result }
    }
}

impl PartialEq for Item {
    fn eq(&self, other: &Self) -> (equal: bool) {
        self.id == other.id
    }
}

impl vstd::std_specs::cmp::PartialEqSpecImpl for Item {
    open spec fn obeys_eq_spec() -> bool {
        true
    }

    open spec fn eq_spec(&self, other: &Self) -> bool {
        self.id == other.id
    }
}

/// One row for each label, which marks the places where that label stands:
/// entry `j` of row `i` tells whether the labels `i` and `j` are the same.
pub fn one_hot_rows(labels: &Vec<String>) -> (rows: Vec<Vec<bool>>)
    ensures
        rows@.len() == labels@.len(),
        forall|i: int| 0 <= i < rows@.len() ==> (#[trigger] rows@[i])@.len() == labels@.len(),
        forall|i: int, j: int|
            0 <= i < labels@.len() && 0 <= j < labels@.len() ==> rows@[i]@[j] == (labels@[j]@
                == labels@[i]@),
{
    let n: usize = labels.len();
    let mut rows: Vec<Vec<bool>> = Vec::new();
    let mut i: usize = 0;
    while i < n
        invariant
            i <= n,
            n == labels@.len(),
            rows@.len() == i,
            forall|r: int| 0 <= r < i ==> (#[trigger] rows@[r])@.len() == n,
            forall|r: int, j: int|
                0 <= r < i && 0 <= j < n ==> rows@[r]@[j] == (labels@[j]@ == labels@[r]@),
        decreases n - i,
    {
        let mut row: Vec<bool> = Vec::new();
        let mut j: usize = 0;
        while j < n
            invariant
                j <= n,
                i < n,
                n == labels@.len(),
                row@.len() == j,
                forall|c: int| 0 <= c < j ==> row@[c] == (labels@[c]@ == labels@[i as int]@),
            decreases n - j,
        {
            row.push(labels[j] == labels[i]);
            j = j + 1;
        }
        rows.push(row);
        i = i + 1;
    }
    rows
}

impl<'a> PartialEq<&'a Item> for Item {
    fn eq(&self, other: &&'a Item) -> (equal: bool) {
        self.id == other.id
    }
}

impl<'a> vstd::std_specs::cmp::PartialEqSpecImpl<&'a Item> for Item {
    open spec fn obeys_eq_spec() -> bool {
        true
    }

    open spec fn eq_spec(&self, other: &&'a Item) -> bool {
        self.id == other.id
    }
}

impl<'a> PartialEq<Item> for &'a Item {
    fn eq(&self, other: &Item) -> (equal: bool) {
        self.id == other.id
    }
}

impl<'a> vstd::std_specs::cmp::PartialEqSpecImpl<Item> for &'a Item {
    open spec fn obeys_eq_spec() -> bool {
        true
    }

    open spec fn eq_spec(&self, other: &Item) -> bool {
        self.id == other.id
    }
}

} // verus!
