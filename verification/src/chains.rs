//! An index of the places of a list by key, and the keys of texts and
//! identifiers.
//!
//! The scorer and the scoring pass look words and documents up among those
//! that they have seen. They give each a key, a number computed from its
//! characters or bytes, and keep for every place the place before it that has
//! the same key. Equal things have equal keys, so a search for something need
//! only walk the places that have its key.

use std::collections::HashMap;
use vstd::prelude::*;

verus! {

broadcast use vstd::std_specs::hash::group_hash_axioms;

/// The key with `item` mixed in.
pub open spec fn mixed(key: u64, item: u64) -> u64 {
    ((key * 1099511628211 + item) % 0x1_0000_0000_0000_0000) as u64
}

/// The key of a text.
pub open spec fn text_key(text: Seq<char>) -> u64
    decreases text.len(),
{
    if text.len() == 0 {
        14695981039346656037
    } else {
        mixed(text_key(text.drop_last()), text.last() as u32 as u64)
    }
}

/// The key of a list of bytes.
pub open spec fn bytes_key(bytes: Seq<u8>) -> u64
    decreases bytes.len(),
{
    if bytes.len() == 0 {
        14695981039346656037
    } else {
        mixed(bytes_key(bytes.drop_last()), bytes.last() as u64)
    }
}

/// The key with `item` mixed in.
pub fn mix(key: u64, item: u64) -> (mixed_key: u64)
    ensures
        mixed_key == mixed(key, item),
{
    let wide: u128 = key as u128 * 1099511628211 + item as u128;
    (wide % 0x1_0000_0000_0000_0000) as u64
}

/// The key of the text `text`.
pub fn key_of_text(text: &Vec<char>) -> (key: u64)
    ensures
        key == text_key(text@),
{
    let mut key: u64 = 14695981039346656037;
    let mut i: usize = 0;
    while i < text.len()
        invariant
            i <= text.len(),
            key == text_key(text@.take(i as int)),
        decreases text.len() - i,
    {
        assert(text@.take(i + 1).drop_last() == text@.take(i as int));
        let item: u32 = text[i] as u32;
        key = mix(key, item as u64);
        i += 1;
    }
    assert(text@.take(text.len() as int) == text@);
    key
}

/// The key of the twelve bytes `bytes`.
pub fn key_of_bytes(bytes: &[u8; 12]) -> (key: u64)
    ensures
        key == bytes_key(bytes@),
{
    let mut key: u64 = 14695981039346656037;
    let mut i: usize = 0;
    while i < 12
        invariant
            i <= 12,
            key == bytes_key(bytes@.take(i as int)),
        decreases 12 - i,
    {
        assert(bytes@.take(i + 1).drop_last() == bytes@.take(i as int));
        key = mix(key, bytes[i] as u64);
        i += 1;
    }
    assert(bytes@.take(12) == bytes@);
    key
}

/// Whether `link` is the last place before `i` that has the key of place `i`;
/// `None` stands for there being none.
pub open spec fn is_link(keys: Seq<u64>, i: int, link: Option<usize>) -> bool {
    match link {
        Some(j) => j < i && keys[j as int] == keys[i] && forall|k: int|
            j < k < i ==> keys[k] != keys[i],
        None => forall|k: int| 0 <= k < i ==> keys[k] != keys[i],
    }
}

/// Whether `head` is the last place that has the key `key`; `None` stands for
/// there being none.
pub open spec fn is_head(keys: Seq<u64>, key: u64, head: Option<usize>) -> bool {
    match head {
        Some(j) => j < keys.len() && keys[j as int] == key && forall|k: int|
            j < k < keys.len() ==> keys[k] != key,
        None => forall|k: int| 0 <= k < keys.len() ==> keys[k] != key,
    }
}

/// The places of a list of keys, chained by key: from the last place of a key
/// the links lead through all the places that have it, down to the first.
pub struct Chains {
    pub keys: Ghost<Seq<u64>>,
    pub heads: HashMap<u64, usize>,
    pub links: Vec<Option<usize>>,
}

impl Chains {
    /// Whether the links and the heads are those of the keys.
    pub open spec fn wf(&self) -> bool {
        &&& self.links.len() == self.keys@.len()
        &&& forall|i: int|
            0 <= i < self.links.len() ==> is_link(self.keys@, i, #[trigger] self.links[i])
        &&& forall|key: u64| #[trigger]
            self.heads@.contains_key(key) ==> is_head(self.keys@, key, Some(self.heads@[key]))
        &&& forall|i: int|
            0 <= i < self.keys@.len() ==> self.heads@.contains_key(#[trigger] self.keys@[i])
    }

    /// The chains of the empty list.
    pub fn new() -> (chains: Chains)
        ensures
            chains.wf(),
            chains.keys@.len() == 0,
    {
        Chains { keys: Ghost(Seq::empty()), heads: HashMap::new(), links: Vec::new() }
    }

    /// The last place that has the key `key`.
    pub fn head(&self, key: u64) -> (head: Option<usize>)
        requires
            self.wf(),
        ensures
            is_head(self.keys@, key, head),
    {
        match self.heads.get(&key) {
            Some(place) => Some(*place),
            None => None,
        }
    }

    /// The last place before `i` that has the key of place `i`.
    pub fn link(&self, i: usize) -> (link: Option<usize>)
        requires
            self.wf(),
            i < self.keys@.len(),
        ensures
            is_link(self.keys@, i as int, link),
    {
        self.links[i]
    }

    /// Adds a place with the key `key` at the end of the list.
    pub fn push(&mut self, key: u64)
        requires
            old(self).wf(),
        ensures
            final(self).wf(),
            final(self).keys@ == old(self).keys@.push(key),
    {
        let place = self.links.len();
        let link = self.head(key);
        self.links.push(link);
        self.heads.insert(key, place);
        self.keys = Ghost(self.keys@.push(key));
    }
}

} // verus!
