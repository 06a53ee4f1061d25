//! The records that the indexer keeps: documents, their words, and the
//! projection of a document that the scoring pass reads.

use std::collections::HashMap;
use vstd::prelude::*;

verus! {

/// A record identifier: twelve bytes, unique among the identifiers that one
/// store holds.
#[derive(Clone, Copy, Debug)]
pub struct ObjectId {
    pub bytes: [u8; 12],
}

/// Calls `mongodb::bson::oid::ObjectId::new`, which makes an identifier from
/// the clock, a random number and a counter, and hands back its bytes. Nothing
/// is claimed of them. The outside function panics where the system clock
/// stands before 1970 or after 2106.
#[verifier::external_body]
fn fresh_id_bytes() -> (bytes: [u8; 12]) {
    mongodb::bson::oid::ObjectId::new().bytes()
}

impl View for ObjectId {
    type V = Seq<u8>;

    open spec fn view(&self) -> Seq<u8> {
        self.bytes@
    }
}

impl ObjectId {
    /// A fresh identifier.
    pub fn new() -> (id: ObjectId) {
        ObjectId::from_bytes(fresh_id_bytes())
    }

    /// The identifier with the given bytes.
    pub fn from_bytes(bytes: [u8; 12]) -> (id: ObjectId)
        ensures
            id.bytes == bytes,
    {
        ObjectId { bytes }
    }

    /// Whether two identifiers are the same.
    pub fn same(&self, other: &ObjectId) -> (same: bool)
        ensures
            same == (self@ == other@),
    {
        let mut i: usize = 0;
        while i < 12
            invariant
                i <= 12,
                forall|k: int| 0 <= k < i ==> self.bytes[k] == other.bytes[k],
            decreases 12 - i,
        {
            if self.bytes[i] != other.bytes[i] {
                return false;
            }
            i += 1;
        }
        assert(self@ =~= other@);
        true
    }
}

/// One indexed page.
#[derive(Debug)]
pub struct Document {
    pub _id: ObjectId,
    pub url: String,
    pub title: String,
    pub description: String,
    pub canonical_url: String,
    pub summary_text: String,
    pub full_text: Vec<String>,
}

impl Document {
    /// A document with a fresh identifier.
    pub fn new(
        url: String,
        title: String,
        description: String,
        canonical_url: String,
        summary_text: String,
        full_text: Vec<String>,
    ) -> (document: Document)
        ensures
            document.url == url,
            document.title == title,
            document.description == description,
            document.canonical_url == canonical_url,
            document.summary_text == summary_text,
            document.full_text == full_text,
    {
        Document {
            _id: ObjectId::new(),
            url,
            title,
            description,
            canonical_url,
            summary_text,
            full_text,
        }
    }

    /// The tokens of the body.
    pub fn get_full_text(&self) -> (full_text: &Vec<String>)
        ensures
            *full_text == self.full_text,
    {
        &self.full_text
    }

    /// The title.
    pub fn get_title(&self) -> (title: String)
        ensures
            title == self.title,
    {
        self.title.clone()
    }

    /// The description.
    pub fn get_description(&self) -> (description: String)
        ensures
            description == self.description,
    {
        self.description.clone()
    }

    /// The identifier.
    pub fn get_id(&self) -> (id: ObjectId)
        ensures
            id == self._id,
    {
        self._id
    }
}

impl Default for Document {
    /// A document for trials, under a fresh identifier.
    fn default() -> (document: Document)
        ensures
            document.url@ == "Testing Test ting 124"@,
            document.title@ == "Testing Title"@,
            document.description@ == "Testing Description"@,
            document.canonical_url@ == "https://example.com/testing"@,
            document.summary_text@ == "Testing Summary"@,
            document.full_text@.len() == 1,
            document.full_text[0]@ == "Testing full text"@,
    {
        let mut full_text: Vec<String> = Vec::new();
        full_text.push(String::from_str("Testing full text"));
        Document {
            _id: ObjectId::new(),
            url: String::from_str("Testing Test ting 124"),
            title: String::from_str("Testing Title"),
            description: String::from_str("Testing Description"),
            canonical_url: String::from_str("https://example.com/testing"),
            summary_text: String::from_str("Testing Summary"),
            full_text,
        }
    }
}

/// One fact of word frequency: how often `word` counts in `document`.
#[derive(Debug)]
pub struct Words {
    pub _id: ObjectId,
    pub document: ObjectId,
    pub word: String,
    pub count: i32,
}

impl Words {
    /// A word record with a fresh identifier.
    pub fn new(document: ObjectId, word: String, count: i32) -> (words: Words)
        ensures
            words.document == document,
            words.word == word,
            words.count == count,
    {
        Words { _id: ObjectId::new(), document, word, count }
    }
}

impl Default for Words {
    /// A word record for trials, under fresh identifiers.
    fn default() -> (words: Words)
        ensures
            words.word@ == "default"@,
            words.count == 0,
    {
        Words {
            _id: ObjectId::new(),
            document: ObjectId::new(),
            word: String::from_str("default"),
            count: 0,
        }
    }
}

/// What the scoring pass reads of a document.
#[derive(Debug)]
pub struct DocumentMetadata {
    pub _id: ObjectId,
    pub url: String,
    pub title: String,
    pub description: String,
}

impl DocumentMetadata {
    /// The projection with the given fields.
    pub fn new(_id: ObjectId, url: String, title: String, description: String) -> (metadata:
        DocumentMetadata)
        ensures
            metadata._id == _id,
            metadata.url == url,
            metadata.title == title,
            metadata.description == description,
    {
        DocumentMetadata { _id, url, title, description }
    }
}

/// The term counts of one page, by word.
pub struct Store {
    url: String,
    pub tf_score: HashMap<String, i32>,
}

impl Store {
    /// The address of the page.
    pub closed spec fn url(&self) -> String {
        self.url
    }

    /// The counts, by word.
    pub closed spec fn scores(&self) -> HashMap<String, i32> {
        self.tf_score
    }

    /// The address of the page.
    pub fn get_url(&self) -> (url: &String)
        ensures
            *url == self.url(),
    {
        &self.url
    }

    /// The counts, by word.
    pub fn get_tf_score(&self) -> (scores: &HashMap<String, i32>)
        ensures
            *scores == self.scores(),
    {
        &self.tf_score
    }

    /// The counts of the page at `url`.
    pub fn new(url: String, tf_score: HashMap<String, i32>) -> (store: Store)
        ensures
            store.url() == url,
            store.scores() == tf_score,
    {
        Store { url, tf_score }
    }
}

/// How the indexing of one address ended.
#[derive(Debug, Clone, Copy, PartialEq, Eq, Structural)]
pub enum StateEvents {
    TransactionError,
    TransactionSuccess,
    InvalidExtension,
    UrlExists,
    UrlError,
}

} // verus!
