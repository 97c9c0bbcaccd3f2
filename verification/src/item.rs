//! The data model: catalog records and their per-query scoring state.
//!
//! A record is an immutable identity (`id`), the text subjected to matching
//! (`data.key`), and an opaque `selected` flag that the engine carries
//! through unchanged. The `score` and `match_indices` fields are derived
//! anew on every query evaluation; a freshly built record holds `None` in
//! both.
use vstd::prelude::*;

verus! {

/// The text a record is matched on.
#[derive(Debug, Clone, PartialEq, Eq)]
pub struct ItemData {
    pub key: String,
}

/// One catalog record, together with its per-query scoring state.
#[derive(Debug, Clone, PartialEq, Eq)]
pub struct Item {
    pub id: usize,
    pub data: ItemData,
    pub selected: bool,
    pub score: Option<u32>,
    pub match_indices: Option<Vec<usize>>,
}

/// The mathematical value of an [`Item`]: the key as a character sequence,
/// the match positions as a sequence of offsets.
pub struct ItemView {
    pub id: usize,
    pub key: Seq<char>,
    pub selected: bool,
    pub score: Option<u32>,
    pub match_indices: Option<Seq<usize>>,
}

impl View for Item {
    type V = ItemView;

    open spec fn view(&self) -> ItemView {
        ItemView {
            id: self.id,
            key: self.data.key@,
            selected: self.selected,
            score: self.score,
            match_indices: match self.match_indices {
                Some(v) => Some(v@),
                None => None,
            },
        }
    }
}

/// The value of a record fresh from catalog load: no score, no positions,
/// not selected.
pub open spec fn fresh_view(id: usize, key: Seq<char>) -> ItemView {
    ItemView { id, key, selected: false, score: None, match_indices: None }
}

impl Item {
    /// Builds a record with the given identity and key, unscored and
    /// unselected.
    pub fn new(id: usize, data: ItemData) -> (r: Item)
        ensures
            r@ == fresh_view(id, data.key@),
    {
        Item { id, data, score: None, match_indices: None, selected: false }
    }
}

/// The mathematical values of a sequence of records.
pub open spec fn item_views(s: Seq<Item>) -> Seq<ItemView> {
    s.map_values(|x: Item| x@)
}

/// Builds the catalog from its keys, in order: the record at position `i`
/// gets identity `i`, the `i`-th key, and no scoring state.
pub fn catalog_from_keys(keys: Vec<String>) -> (r: Vec<Item>)
    ensures
        r@.len() == keys@.len(),
        forall|i: int| 0 <= i < r@.len() ==> r@[i]@ == fresh_view(i as usize, keys@[i]@),
{
    let mut catalog: Vec<Item> = Vec::new();
    let n: usize = keys.len();
    let mut i: usize = 0;
    while i < n
        invariant
            n == keys@.len(),
            0 <= i <= n,
            catalog@.len() == i,
            forall|j: int| 0 <= j < i ==> catalog@[j]@ == fresh_view(j as usize, keys@[j]@),
        decreases n - i,
    {
        let key: String = keys[i].clone();
        catalog.push(Item::new(i, ItemData { key }));
        i += 1;
    }
    catalog
}

} // verus!
