//! The scoring pass over the whole store: for each word of each known
//! document the numbers that its relevance is computed from.
//!
//! The pass works in integers. The term frequency of a statistic is `count`
//! over `total`; its inverse document frequency is the natural logarithm of
//! `total_documents` over `document_frequency`, plus one.

use crate::chains::{bytes_key, key_of_bytes, key_of_text, mix, mixed, text_key, Chains};
use crate::chars::chars_of;
use crate::models::{DocumentMetadata, ObjectId, Words};
use crate::normalize::same_chars;
use vstd::prelude::*;

verus! {

/// A word record as plain values.
pub ghost struct WordFact {
    pub document: Seq<u8>,
    pub word: Seq<char>,
    pub count: int,
}

/// The numbers of one word of one document.
#[derive(Debug)]
pub struct TermStatistic {
    pub word: String,
    pub document_id: ObjectId,
    pub url: String,
    /// The count of the word in the document.
    pub count: i32,
    /// The sum of the counts of the document's words.
    pub total: i128,
    /// The number of word records that hold the word.
    pub document_frequency: usize,
    /// The number of documents.
    pub total_documents: usize,
}

/// A `TermStatistic` as plain values.
pub ghost struct TermView {
    pub word: Seq<char>,
    pub document: Seq<u8>,
    pub url: Seq<char>,
    pub count: int,
    pub total: int,
    pub document_frequency: int,
    pub total_documents: int,
}

impl View for TermStatistic {
    type V = TermView;

    open spec fn view(&self) -> TermView {
        TermView {
            word: self.word@,
            document: self.document_id@,
            url: self.url@,
            count: self.count as int,
            total: self.total as int,
            document_frequency: self.document_frequency as int,
            total_documents: self.total_documents as int,
        }
    }
}

/// The views of a list of statistics.
pub open spec fn term_views(list: Seq<TermStatistic>) -> Seq<TermView> {
    list.map_values(|t: TermStatistic| t@)
}

/// The word records as plain values.
pub open spec fn fact_views(words: Seq<Words>) -> Seq<WordFact> {
    words.map_values(
        |w: Words| WordFact { document: w.document@, word: w.word@, count: w.count as int },
    )
}

/// The identifier and the address of each document.
pub open spec fn address_views(documents: Seq<DocumentMetadata>) -> Seq<(Seq<u8>, Seq<char>)> {
    documents.map_values(|d: DocumentMetadata| (d._id@, d.url@))
}

/// Whether two records speak of the same word of the same document.
pub open spec fn same_pair(a: WordFact, b: WordFact) -> bool {
    a.document == b.document && a.word == b.word
}

/// Whether record `i` is the first of its word and document.
pub open spec fn is_first(facts: Seq<WordFact>, i: int) -> bool {
    forall|j: int| 0 <= j < i ==> !same_pair(#[trigger] facts[j], facts[i])
}

/// Whether record `i` is the last of its word and document.
pub open spec fn is_last(facts: Seq<WordFact>, i: int) -> bool {
    forall|j: int| i < j < facts.len() ==> !same_pair(#[trigger] facts[j], facts[i])
}

/// The place of the last record before `n` that speaks of the word and the
/// document of record `i`; `i` itself where none stands behind it.
pub open spec fn last_before(facts: Seq<WordFact>, i: int, n: int) -> int
    decreases n - i,
{
    if n <= i + 1 {
        i
    } else if same_pair(facts[n - 1], facts[i]) {
        n - 1
    } else {
        last_before(facts, i, n - 1)
    }
}

/// The count that holds for the word and the document of record `i`: that of
/// the last record that speaks of them.
pub open spec fn settled_count(facts: Seq<WordFact>, i: int) -> int {
    facts[last_before(facts, i, facts.len() as int)].count
}

/// The sum of the counts of the words of `document` among the first `n`
/// records, each word with the count that holds for it.
pub open spec fn total_upto(facts: Seq<WordFact>, document: Seq<u8>, n: int) -> int
    decreases n,
{
    if n <= 0 {
        0
    } else {
        total_upto(facts, document, n - 1) + if facts[n - 1].document == document && is_last(
            facts,
            n - 1,
        ) {
            facts[n - 1].count
        } else {
            0
        }
    }
}

/// The number of records among the first `n` that hold `word`.
pub open spec fn frequency_upto(facts: Seq<WordFact>, word: Seq<char>, n: int) -> int
    decreases n,
{
    if n <= 0 {
        0
    } else {
        frequency_upto(facts, word, n - 1) + if facts[n - 1].word == word {
            1int
        } else {
            0int
        }
    }
}

/// The document frequency of `word`: the number of records that hold it.
pub open spec fn frequency(facts: Seq<WordFact>, word: Seq<char>) -> int {
    frequency_upto(facts, word, facts.len() as int)
}

/// The address of `document`: that of the last entry with its identifier.
pub open spec fn address_of(addresses: Seq<(Seq<u8>, Seq<char>)>, document: Seq<u8>) -> Option<
    Seq<char>,
>
    decreases addresses.len(),
{
    if addresses.len() == 0 {
        None
    } else if addresses.last().0 == document {
        Some(addresses.last().1)
    } else {
        address_of(addresses.drop_last(), document)
    }
}

/// The statistic that record `i` gives rise to: one for the first record of
/// each word of each document that has an address.
pub open spec fn statistic_at(
    addresses: Seq<(Seq<u8>, Seq<char>)>,
    facts: Seq<WordFact>,
    i: int,
) -> Option<TermView> {
    match address_of(addresses, facts[i].document) {
        Some(url) => if is_first(facts, i) {
            Some(
                TermView {
                    word: facts[i].word,
                    document: facts[i].document,
                    url,
                    count: settled_count(facts, i),
                    total: total_upto(facts, facts[i].document, facts.len() as int),
                    document_frequency: frequency(facts, facts[i].word),
                    total_documents: addresses.len() as int,
                },
            )
        } else {
            None
        },
        None => None,
    }
}

/// The statistics that the first `n` records give rise to, in their order.
pub open spec fn statistics_upto(
    addresses: Seq<(Seq<u8>, Seq<char>)>,
    facts: Seq<WordFact>,
    n: int,
) -> Seq<TermView>
    decreases n,
{
    if n <= 0 {
        Seq::empty()
    } else {
        match statistic_at(addresses, facts, n - 1) {
            Some(term) => statistics_upto(addresses, facts, n - 1).push(term),
            None => statistics_upto(addresses, facts, n - 1),
        }
    }
}

/// The statistics of a store: none where it holds no document or no word
/// record; else one for each word of each document that has an address, in
/// the order in which the words first stand among the records. A word record
/// of a document without an address gives none, but counts in the document
/// frequency of its word.
pub open spec fn statistics(addresses: Seq<(Seq<u8>, Seq<char>)>, facts: Seq<WordFact>) -> Seq<
    TermView,
> {
    if addresses.len() == 0 || facts.len() == 0 {
        Seq::empty()
    } else {
        statistics_upto(addresses, facts, facts.len() as int)
    }
}

/// The documents that a record among the first `n` names together with
/// `word`.
pub open spec fn holders(facts: Seq<WordFact>, word: Seq<char>, n: int) -> Set<Seq<u8>> {
    Set::new(
        |d: Seq<u8>|
            exists|k: int| 0 <= k < n && (#[trigger] facts[k]).word == word && facts[k].document == d,
    )
}

/// No document has a word twice among the records.
pub open spec fn pairs_distinct(facts: Seq<WordFact>) -> bool {
    forall|i: int, j: int|
        0 <= i < j < facts.len() ==> !same_pair(#[trigger] facts[i], #[trigger] facts[j])
}

/// The identifiers of the documents.
pub open spec fn identifiers(addresses: Seq<(Seq<u8>, Seq<char>)>) -> Seq<Seq<u8>> {
    addresses.map_values(|a: (Seq<u8>, Seq<char>)| a.0)
}

proof fn lemma_frequency_counts_holders(facts: Seq<WordFact>, word: Seq<char>, n: int)
    requires
        0 <= n <= facts.len(),
        pairs_distinct(facts),
    ensures
        holders(facts, word, n).finite(),
        holders(facts, word, n).len() == frequency_upto(facts, word, n),
    decreases n,
{
    if n == 0 {
        assert(holders(facts, word, n) =~= Set::empty());
    } else {
        lemma_frequency_counts_holders(facts, word, n - 1);
        let before = holders(facts, word, n - 1);
        let now = holders(facts, word, n);
        let last = facts[n - 1];
        if last.word == word {
            assert(now =~= before.insert(last.document));
        } else {
            assert(now =~= before);
        }
    }
}

proof fn lemma_address_known(addresses: Seq<(Seq<u8>, Seq<char>)>, document: Seq<u8>)
    requires
        address_of(addresses, document) is Some,
    ensures
        identifiers(addresses).contains(document),
    decreases addresses.len(),
{
    let n = addresses.len() as int;
    if addresses.last().0 == document {
        assert(identifiers(addresses)[n - 1] == document);
    } else {
        lemma_address_known(addresses.drop_last(), document);
        let k = choose|k: int|
            0 <= k < identifiers(addresses.drop_last()).len() && identifiers(
                addresses.drop_last(),
            )[k] == document;
        assert(identifiers(addresses)[k] == document);
    }
}

/// A word is counted in no more documents than there are, where every word
/// record names a document that has an address and no document has a word
/// twice. The logarithm in the inverse document frequency is then not
/// negative.
pub proof fn law_frequency_bounded(
    addresses: Seq<(Seq<u8>, Seq<char>)>,
    facts: Seq<WordFact>,
    word: Seq<char>,
)
    requires
        pairs_distinct(facts),
        forall|i: int|
            0 <= i < facts.len() ==> address_of(addresses, (#[trigger] facts[i]).document) is Some,
    ensures
        frequency(facts, word) <= addresses.len(),
{
    let n = facts.len() as int;
    let named = holders(facts, word, n);
    let known = identifiers(addresses).to_set();
    lemma_frequency_counts_holders(facts, word, n);
    assert forall|d: Seq<u8>| named.contains(d) implies known.contains(d) by {
        let k = choose|k: int|
            0 <= k < n && (#[trigger] facts[k]).word == word && facts[k].document == d;
        lemma_address_known(addresses, facts[k].document);
    }
    vstd::seq_lib::seq_to_set_is_finite(identifiers(addresses));
    vstd::set_lib::lemma_len_subset(named, known);
    identifiers(addresses).lemma_cardinality_of_set();
}

/// The word of a record is counted at least once: no statistic divides by a
/// document frequency of nothing.
pub proof fn law_frequency_positive(facts: Seq<WordFact>, i: int)
    requires
        0 <= i < facts.len(),
    ensures
        frequency(facts, facts[i].word) >= 1,
{
    lemma_frequency_grows(facts, facts[i].word, i + 1, facts.len() as int);
    lemma_frequency_grows(facts, facts[i].word, 0, i);
}

proof fn lemma_frequency_grows(facts: Seq<WordFact>, word: Seq<char>, m: int, n: int)
    requires
        0 <= m <= n,
    ensures
        0 <= frequency_upto(facts, word, m) <= frequency_upto(facts, word, n),
    decreases n,
{
    if m < n {
        lemma_frequency_grows(facts, word, m, n - 1);
    } else if m > 0 {
        lemma_frequency_grows(facts, word, m - 1, m - 1);
    }
}

proof fn lemma_last_before(facts: Seq<WordFact>, i: int, n: int)
    requires
        0 <= i < n <= facts.len(),
    ensures
        i <= last_before(facts, i, n) < n,
        same_pair(facts[last_before(facts, i, n)], facts[i]),
        forall|j: int|
            last_before(facts, i, n) < j < n ==> !same_pair(#[trigger] facts[j], facts[i]),
    decreases n - i,
{
    if n > i + 1 && !same_pair(facts[n - 1], facts[i]) {
        lemma_last_before(facts, i, n - 1);
    }
}

proof fn lemma_total_holds(facts: Seq<WordFact>, document: Seq<u8>, k: int, n: int)
    requires
        0 <= k < n <= facts.len(),
        forall|j: int| 0 <= j < facts.len() ==> (#[trigger] facts[j]).count >= 0,
        facts[k].document == document,
        is_last(facts, k),
    ensures
        facts[k].count <= total_upto(facts, document, n),
        0 <= total_upto(facts, document, k),
    decreases n,
{
    if n > k + 1 {
        lemma_total_holds(facts, document, k, n - 1);
    } else {
        lemma_total_positive(facts, document, k);
    }
}

proof fn lemma_total_positive(facts: Seq<WordFact>, document: Seq<u8>, n: int)
    requires
        0 <= n <= facts.len(),
        forall|j: int| 0 <= j < facts.len() ==> (#[trigger] facts[j]).count >= 0,
    ensures
        0 <= total_upto(facts, document, n),
    decreases n,
{
    if n > 0 {
        lemma_total_positive(facts, document, n - 1);
    }
}

/// The count of a statistic is a share of its total: where no count is
/// negative, it lies between nothing and the total of its document.
pub proof fn law_count_within_total(facts: Seq<WordFact>, i: int)
    requires
        0 <= i < facts.len(),
        forall|j: int| 0 <= j < facts.len() ==> (#[trigger] facts[j]).count >= 0,
    ensures
        0 <= settled_count(facts, i) <= total_upto(
            facts,
            facts[i].document,
            facts.len() as int,
        ),
{
    let n = facts.len() as int;
    let last = last_before(facts, i, n);
    lemma_last_before(facts, i, n);
    assert(is_last(facts, last));
    lemma_total_holds(facts, facts[i].document, last, n);
}

/// The key of a record: that of its document with that of its word mixed in.
pub open spec fn pair_key(fact: WordFact) -> u64 {
    mixed(bytes_key(fact.document), text_key(fact.word))
}

/// The words of the records as characters, and the places of the records
/// chained by record, by word and by document.
struct RecordIndex {
    chars: Vec<Vec<char>>,
    pairs: Chains,
    words: Chains,
    documents: Chains,
}

impl RecordIndex {
    /// Whether the index is that of the records `facts`.
    spec fn of(&self, facts: Seq<WordFact>) -> bool {
        &&& self.chars.len() == facts.len()
        &&& self.pairs.wf()
        &&& self.words.wf()
        &&& self.documents.wf()
        &&& self.pairs.keys@.len() == facts.len()
        &&& self.words.keys@.len() == facts.len()
        &&& self.documents.keys@.len() == facts.len()
        &&& forall|k: int| 0 <= k < facts.len() ==> (#[trigger] self.chars[k])@ == facts[k].word
        &&& forall|k: int|
            0 <= k < facts.len() ==> #[trigger] self.pairs.keys@[k] == pair_key(facts[k])
        &&& forall|k: int|
            0 <= k < facts.len() ==> #[trigger] self.words.keys@[k] == text_key(facts[k].word)
        &&& forall|k: int|
            0 <= k < facts.len() ==> #[trigger] self.documents.keys@[k] == bytes_key(
                facts[k].document,
            )
    }
}

/// The place above which a walk along a chain has seen every place: the place
/// at which it stands, or one before the first where it has come to the end.
spec fn reached(place: Option<usize>) -> int {
    match place {
        Some(j) => j as int,
        None => -1,
    }
}

/// The index of the records.
fn index_records(words: &Vec<Words>) -> (index: RecordIndex)
    ensures
        index.of(fact_views(words@)),
{
    let ghost facts = fact_views(words@);
    let mut index = RecordIndex {
        chars: Vec::new(),
        pairs: Chains::new(),
        words: Chains::new(),
        documents: Chains::new(),
    };
    let mut i: usize = 0;
    while i < words.len()
        invariant
            i <= words.len(),
            facts == fact_views(words@),
            index.of(facts.take(i as int)),
        decreases words.len() - i,
    {
        let word = chars_of(words[i].word.as_str());
        let word_key = key_of_text(&word);
        let document_key = key_of_bytes(&words[i].document.bytes);
        index.pairs.push(mix(document_key, word_key));
        index.words.push(word_key);
        index.documents.push(document_key);
        index.chars.push(word);
        i += 1;
    }
    index
}

/// The chains of the documents by identifier.
fn index_documents(documents: &Vec<DocumentMetadata>) -> (index: Chains)
    ensures
        index.wf(),
        index.keys@.len() == documents.len(),
        forall|k: int|
            0 <= k < documents.len() ==> #[trigger] index.keys@[k] == bytes_key(documents[k]._id@),
{
    let mut index = Chains::new();
    let mut i: usize = 0;
    while i < documents.len()
        invariant
            i <= documents.len(),
            index.wf(),
            index.keys@.len() == i,
            forall|k: int| 0 <= k < i ==> #[trigger] index.keys@[k] == bytes_key(documents[k]._id@),
        decreases documents.len() - i,
    {
        index.push(key_of_bytes(&documents[i]._id.bytes));
        i += 1;
    }
    index
}

/// Whether two vectors hold the same characters.
fn same_word(a: &Vec<char>, b: &Vec<char>) -> (same: bool)
    ensures
        same == (a@ == b@),
{
    assert(b@.subrange(0, b.len() as int) == b@);
    same_chars(a, b, 0, b.len())
}

/// Whether records `a` and `b` speak of the same word of the same document.
fn same_pair_at(words: &Vec<Words>, index: &RecordIndex, a: usize, b: usize) -> (same: bool)
    requires
        a < words.len(),
        b < words.len(),
        index.of(fact_views(words@)),
    ensures
        same == same_pair(fact_views(words@)[a as int], fact_views(words@)[b as int]),
{
    words[a].document.same(&words[b].document) && same_word(&index.chars[a], &index.chars[b])
}

/// Whether record `i` is the first of its word and document.
fn first_of_pair(words: &Vec<Words>, index: &RecordIndex, i: usize) -> (first: bool)
    requires
        i < words.len(),
        index.of(fact_views(words@)),
    ensures
        first == is_first(fact_views(words@), i as int),
{
    let ghost facts = fact_views(words@);
    let ghost keys = index.pairs.keys@;
    let mut place = index.pairs.link(i);
    assert forall|k: int| reached(place) < k < i implies !same_pair(
        #[trigger] facts[k],
        facts[i as int],
    ) by {
        assert(keys[k] != keys[i as int]);
    }
    loop
        invariant
            i < words.len(),
            index.of(facts),
            facts == fact_views(words@),
            keys == index.pairs.keys@,
            place matches Some(j) ==> j < i && keys[j as int] == keys[i as int],
            forall|k: int| reached(place) < k < i ==> !same_pair(#[trigger] facts[k], facts[i as int]),
        decreases reached(place) + 1,
    {
        match place {
            Some(j) => {
                if same_pair_at(words, index, j, i) {
                    return false;
                }
                let next = index.pairs.link(j);
                assert forall|k: int| reached(next) < k < i implies !same_pair(
                    #[trigger] facts[k],
                    facts[i as int],
                ) by {
                    if k < j {
                        assert(keys[k] != keys[j as int]);
                    }
                }
                place = next;
            },
            None => {
                return true;
            },
        }
    }
}

/// The last record that speaks of a word and a document is the one behind
/// which none does.
proof fn lemma_last_is(facts: Seq<WordFact>, i: int, last: int, n: int)
    requires
        0 <= i <= last < n <= facts.len(),
        last == i || same_pair(facts[last], facts[i]),
        forall|k: int| last < k < facts.len() ==> !same_pair(#[trigger] facts[k], facts[i]),
    ensures
        last_before(facts, i, n) == last,
    decreases n - last,
{
    if n > last + 1 {
        lemma_last_is(facts, i, last, n - 1);
    }
}

/// The place of the last record that speaks of the word and the document of
/// record `i`.
fn last_of_pair(words: &Vec<Words>, index: &RecordIndex, i: usize) -> (last: usize)
    requires
        i < words.len(),
        index.of(fact_views(words@)),
    ensures
        last == last_before(fact_views(words@), i as int, words.len() as int),
        i <= last < words.len(),
        last == i <==> is_last(fact_views(words@), i as int),
{
    let ghost facts = fact_views(words@);
    let ghost keys = index.pairs.keys@;
    let key = mix(
        key_of_bytes(&words[i].document.bytes),
        key_of_text(&index.chars[i]),
    );
    let mut place = index.pairs.head(key);
    assert forall|k: int| reached(place) < k < words.len() implies !same_pair(
        #[trigger] facts[k],
        facts[i as int],
    ) by {
        assert(keys[k] != key);
    }
    loop
        invariant
            i < words.len(),
            index.of(facts),
            facts == fact_views(words@),
            keys == index.pairs.keys@,
            key == keys[i as int],
            place matches Some(j) ==> i <= j < words.len() && keys[j as int] == key,
            place is Some,
            forall|k: int|
                reached(place) < k < words.len() ==> !same_pair(#[trigger] facts[k], facts[i as int]),
        decreases reached(place) + 1,
    {
        match place {
            Some(j) => {
                if j == i || same_pair_at(words, index, j, i) {
                    proof {
                        lemma_last_is(facts, i as int, j as int, words.len() as int);
                    }
                    return j;
                }
                let next = index.pairs.link(j);
                assert forall|k: int| reached(next) < k < words.len() implies !same_pair(
                    #[trigger] facts[k],
                    facts[i as int],
                ) by {
                    if k < j {
                        assert(keys[k] != keys[j as int]);
                    }
                }
                place = next;
            },
            None => {
                return i;
            },
        }
    }
}

/// The address of the last of the entries is the address of their document
/// where it has the document's identifier; else it is that of the entries
/// before it.
proof fn lemma_address_at(addresses: Seq<(Seq<u8>, Seq<char>)>, document: Seq<u8>, from: int)
    requires
        0 <= from <= addresses.len(),
        forall|k: int| from <= k < addresses.len() ==> (#[trigger] addresses[k]).0 != document,
    ensures
        address_of(addresses, document) == address_of(addresses.take(from), document),
    decreases addresses.len() - from,
{
    if from < addresses.len() {
        let front = addresses.drop_last();
        lemma_address_at(front, document, from);
        assert(front.take(from) == addresses.take(from));
    } else {
        assert(addresses.take(from) == addresses);
    }
}

/// The address of `document`.
fn find_address<'a>(
    documents: &'a Vec<DocumentMetadata>,
    index: &Chains,
    document: &ObjectId,
) -> (url: Option<&'a String>)
    requires
        index.wf(),
        index.keys@.len() == documents.len(),
        forall|k: int|
            0 <= k < documents.len() ==> #[trigger] index.keys@[k] == bytes_key(documents[k]._id@),
    ensures
        match url {
            Some(found) => address_of(address_views(documents@), document@) == Some(found@),
            None => address_of(address_views(documents@), document@) is None,
        },
{
    let ghost all = address_views(documents@);
    let ghost keys = index.keys@;
    let key = key_of_bytes(&document.bytes);
    let mut place = index.head(key);
    assert forall|k: int| reached(place) < k < documents.len() implies (#[trigger] all[k]).0
        != document@ by {
        assert(keys[k] != key);
    }
    loop
        invariant
            index.wf(),
            keys == index.keys@,
            keys.len() == documents.len(),
            all == address_views(documents@),
            key == bytes_key(document@),
            forall|k: int|
                0 <= k < documents.len() ==> #[trigger] keys[k] == bytes_key(documents[k]._id@),
            place matches Some(j) ==> j < documents.len() && keys[j as int] == key,
            forall|k: int| reached(place) < k < documents.len() ==> (#[trigger] all[k]).0 != document@,
        decreases reached(place) + 1,
    {
        match place {
            Some(j) => {
                if documents[j]._id.same(document) {
                    proof {
                        lemma_address_at(all, document@, j + 1);
                    }
                    return Some(&documents[j].url);
                }
                let next = index.link(j);
                assert forall|k: int| reached(next) < k < documents.len() implies (
                #[trigger] all[k]).0 != document@ by {
                    if k < j {
                        assert(keys[k] != keys[j as int]);
                    }
                }
                place = next;
            },
            None => {
                proof {
                    lemma_address_at(all, document@, 0);
                }
                return None;
            },
        }
    }
}

/// For each record the place of the last record that speaks of its word and
/// document.
fn last_places(words: &Vec<Words>, index: &RecordIndex) -> (lasts: Vec<usize>)
    requires
        index.of(fact_views(words@)),
    ensures
        lasts.len() == words.len(),
        forall|k: int|
            0 <= k < lasts.len() ==> #[trigger] lasts[k] == last_before(
                fact_views(words@),
                k,
                words.len() as int,
            ) && lasts[k] < words.len() && (lasts[k] == k <==> is_last(fact_views(words@), k)),
{
    let mut lasts: Vec<usize> = Vec::new();
    let mut i: usize = 0;
    while i < words.len()
        invariant
            i <= words.len(),
            lasts.len() == i,
            index.of(fact_views(words@)),
            forall|k: int|
                0 <= k < i ==> #[trigger] lasts[k] == last_before(
                    fact_views(words@),
                    k,
                    words.len() as int,
                ) && lasts[k] < words.len() && (lasts[k] == k <==> is_last(
                    fact_views(words@),
                    k,
                )),
        decreases words.len() - i,
    {
        lasts.push(last_of_pair(words, index, i));
        i += 1;
    }
    lasts
}

/// Records of other documents add nothing to the total of a document.
proof fn lemma_total_skip(facts: Seq<WordFact>, document: Seq<u8>, from: int, to: int)
    requires
        0 <= from <= to <= facts.len(),
        forall|k: int| from <= k < to ==> (#[trigger] facts[k]).document != document,
    ensures
        total_upto(facts, document, to) == total_upto(facts, document, from),
    decreases to - from,
{
    if from < to {
        lemma_total_skip(facts, document, from, to - 1);
    }
}

/// Records of other words add nothing to the frequency of a word.
proof fn lemma_frequency_skip(facts: Seq<WordFact>, word: Seq<char>, from: int, to: int)
    requires
        0 <= from <= to <= facts.len(),
        forall|k: int| from <= k < to ==> (#[trigger] facts[k]).word != word,
    ensures
        frequency_upto(facts, word, to) == frequency_upto(facts, word, from),
    decreases to - from,
{
    if from < to {
        lemma_frequency_skip(facts, word, from, to - 1);
    }
}

/// The sum of the counts of the words of `document`.
fn total_of(words: &Vec<Words>, index: &RecordIndex, lasts: &Vec<usize>, document: &ObjectId) -> (total:
    i128)
    requires
        index.of(fact_views(words@)),
        lasts.len() == words.len(),
        forall|k: int|
            0 <= k < lasts.len() ==> (#[trigger] lasts[k] == k <==> is_last(fact_views(words@), k)),
    ensures
        total == total_upto(fact_views(words@), document@, words.len() as int),
{
    let ghost facts = fact_views(words@);
    let ghost keys = index.documents.keys@;
    let key = key_of_bytes(&document.bytes);
    let mut total: i128 = 0;
    let mut place = index.documents.head(key);
    proof {
        assert forall|k: int| reached(place) < k < words.len() implies (#[trigger] facts[k]).document
            != document@ by {
            assert(keys[k] == bytes_key(facts[k].document));
        }
        lemma_total_skip(facts, document@, reached(place) + 1, words.len() as int);
    }
    loop
        invariant
            index.of(facts),
            facts == fact_views(words@),
            keys == index.documents.keys@,
            key == bytes_key(document@),
            lasts.len() == words.len(),
            forall|k: int| 0 <= k < lasts.len() ==> (#[trigger] lasts[k] == k <==> is_last(facts, k)),
            place matches Some(j) ==> j < words.len() && keys[j as int] == key,
            total + total_upto(facts, document@, reached(place) + 1) == total_upto(
                facts,
                document@,
                words.len() as int,
            ),
            -0x8000_0000 * (words.len() - reached(place) - 1) <= total <= 0x8000_0000 * (words.len()
                - reached(place) - 1),
        decreases reached(place) + 1,
    {
        match place {
            Some(j) => {
                if lasts[j] == j && words[j].document.same(document) {
                    total = total + words[j].count as i128;
                }
                let next = index.documents.link(j);
                proof {
                    assert forall|k: int| reached(next) < k < j implies (
                    #[trigger] facts[k]).document != document@ by {
                        assert(keys[k] != keys[j as int]);
                    }
                    lemma_total_skip(facts, document@, reached(next) + 1, j as int);
                }
                place = next;
            },
            None => {
                return total;
            },
        }
    }
}

/// The number of records that hold the word of record `i`.
fn frequency_of(index: &RecordIndex, i: usize, Ghost(facts): Ghost<Seq<WordFact>>) -> (count: usize)
    requires
        i < facts.len(),
        index.of(facts),
    ensures
        count == frequency(facts, facts[i as int].word),
{
    let ghost keys = index.words.keys@;
    let ghost word = facts[i as int].word;
    let key = key_of_text(&index.chars[i]);
    let mut count: usize = 0;
    let mut place = index.words.head(key);
    proof {
        assert forall|k: int| reached(place) < k < facts.len() implies (#[trigger] facts[k]).word
            != word by {
            assert(keys[k] == text_key(facts[k].word));
        }
        lemma_frequency_skip(facts, word, reached(place) + 1, facts.len() as int);
    }
    loop
        invariant
            i < facts.len(),
            index.of(facts),
            keys == index.words.keys@,
            word == facts[i as int].word,
            key == text_key(word),
            place matches Some(j) ==> j < facts.len() && keys[j as int] == key,
            count + frequency_upto(facts, word, reached(place) + 1) == frequency_upto(
                facts,
                word,
                facts.len() as int,
            ),
            count <= facts.len() - reached(place) - 1,
        decreases reached(place) + 1,
    {
        match place {
            Some(j) => {
                if same_word(&index.chars[j], &index.chars[i]) {
                    count += 1;
                }
                let next = index.words.link(j);
                proof {
                    assert forall|k: int| reached(next) < k < j implies (#[trigger] facts[k]).word
                        != word by {
                        assert(keys[k] != keys[j as int]);
                    }
                    lemma_frequency_skip(facts, word, reached(next) + 1, j as int);
                }
                place = next;
            },
            None => {
                return count;
            },
        }
    }
}

/// The statistics of a store: for each word of each document that has an
/// address the numbers that its relevance is computed from.
pub fn term_statistics(documents: &Vec<DocumentMetadata>, words: &Vec<Words>) -> (terms: Vec<
    TermStatistic,
>)
    ensures
        term_views(terms@) == statistics(address_views(documents@), fact_views(words@)),
{
    let ghost addresses = address_views(documents@);
    let ghost facts = fact_views(words@);
    let mut terms: Vec<TermStatistic> = Vec::new();
    if documents.len() == 0 || words.len() == 0 {
        return terms;
    }
    let known = index_documents(documents);
    let index = index_records(words);
    let lasts = last_places(words, &index);
    let mut i: usize = 0;
    while i < words.len()
        invariant
            i <= words.len(),
            known.wf(),
            known.keys@.len() == documents.len(),
            forall|k: int|
                0 <= k < documents.len() ==> #[trigger] known.keys@[k] == bytes_key(
                    documents[k]._id@,
                ),
            index.of(facts),
            lasts.len() == words.len(),
            forall|k: int|
                0 <= k < lasts.len() ==> #[trigger] lasts[k] == last_before(
                    fact_views(words@),
                    k,
                    words.len() as int,
                ) && lasts[k] < words.len() && (lasts[k] == k <==> is_last(
                    fact_views(words@),
                    k,
                )),
            addresses == address_views(documents@),
            facts == fact_views(words@),
            term_views(terms@) == statistics_upto(addresses, facts, i as int),
        decreases words.len() - i,
    {
        match find_address(documents, &known, &words[i].document) {
            Some(url) => {
                if first_of_pair(words, &index, i) {
                    let last = lasts[i];
                    let term = TermStatistic {
                        word: words[i].word.clone(),
                        document_id: words[i].document,
                        url: url.clone(),
                        count: words[last].count,
                        total: total_of(words, &index, &lasts, &words[i].document),
                        document_frequency: frequency_of(&index, i, Ghost(facts)),
                        total_documents: documents.len(),
                    };
                    terms.push(term);
                }
            },
            None => {},
        }
        i += 1;
    }
    terms
}

/// Whether record `i` is the first that names its document.
pub open spec fn first_of_document(facts: Seq<WordFact>, i: int) -> bool {
    forall|j: int| 0 <= j < i ==> (#[trigger] facts[j]).document != facts[i].document
}

/// The documents without an address that the first `n` records name, each
/// once, in the order in which the records first name them.
pub open spec fn unknown_upto(
    addresses: Seq<(Seq<u8>, Seq<char>)>,
    facts: Seq<WordFact>,
    n: int,
) -> Seq<Seq<u8>>
    decreases n,
{
    if n <= 0 {
        Seq::empty()
    } else if address_of(addresses, facts[n - 1].document) is None && first_of_document(
        facts,
        n - 1,
    ) {
        unknown_upto(addresses, facts, n - 1).push(facts[n - 1].document)
    } else {
        unknown_upto(addresses, facts, n - 1)
    }
}

/// The documents that the scoring pass passes over: those that a word record
/// names and that have no address. Where the store holds no document or no
/// word record the pass does nothing, and passes over none.
pub open spec fn skipped(addresses: Seq<(Seq<u8>, Seq<char>)>, facts: Seq<WordFact>) -> Seq<
    Seq<u8>,
> {
    if addresses.len() == 0 || facts.len() == 0 {
        Seq::empty()
    } else {
        unknown_upto(addresses, facts, facts.len() as int)
    }
}

/// The views of a list of identifiers.
pub open spec fn id_views(list: Seq<ObjectId>) -> Seq<Seq<u8>> {
    list.map_values(|id: ObjectId| id@)
}

/// Whether record `i` is the first that names its document.
fn names_new_document(words: &Vec<Words>, index: &RecordIndex, i: usize) -> (first: bool)
    requires
        i < words.len(),
        index.of(fact_views(words@)),
    ensures
        first == first_of_document(fact_views(words@), i as int),
{
    let ghost facts = fact_views(words@);
    let ghost keys = index.documents.keys@;
    let mut place = index.documents.link(i);
    assert forall|k: int| reached(place) < k < i implies (#[trigger] facts[k]).document
        != facts[i as int].document by {
        assert(keys[k] != keys[i as int]);
        assert(keys[k] == bytes_key(facts[k].document));
        assert(keys[i as int] == bytes_key(facts[i as int].document));
    }
    loop
        invariant
            i < words.len(),
            index.of(facts),
            facts == fact_views(words@),
            keys == index.documents.keys@,
            place matches Some(j) ==> j < i && keys[j as int] == keys[i as int],
            forall|k: int|
                reached(place) < k < i ==> (#[trigger] facts[k]).document
                    != facts[i as int].document,
        decreases reached(place) + 1,
    {
        match place {
            Some(j) => {
                if words[j].document.same(&words[i].document) {
                    assert(facts[j as int].document == facts[i as int].document);
                    return false;
                }
                let next = index.documents.link(j);
                assert forall|k: int| reached(next) < k < i implies (#[trigger] facts[k]).document
                    != facts[i as int].document by {
                    if k < j {
                        assert(keys[k] != keys[j as int]);
                        assert(keys[k] == bytes_key(facts[k].document));
                        assert(keys[i as int] == bytes_key(facts[i as int].document));
                    } else if k == j {
                        assert(facts[j as int].document == words[j as int].document@);
                        assert(facts[i as int].document == words[i as int].document@);
                    }
                }
                place = next;
            },
            None => {
                return true;
            },
        }
    }
}

/// The documents that the scoring pass passes over, for the warning that is
/// owed of each: those that a word record names and that have no address.
pub fn skipped_documents(documents: &Vec<DocumentMetadata>, words: &Vec<Words>) -> (unknown: Vec<
    ObjectId,
>)
    ensures
        id_views(unknown@) == skipped(address_views(documents@), fact_views(words@)),
{
    let ghost addresses = address_views(documents@);
    let ghost facts = fact_views(words@);
    let mut unknown: Vec<ObjectId> = Vec::new();
    assert(id_views(unknown@) =~= Seq::empty());
    if documents.len() == 0 || words.len() == 0 {
        return unknown;
    }
    let known = index_documents(documents);
    let index = index_records(words);
    let mut i: usize = 0;
    while i < words.len()
        invariant
            i <= words.len(),
            known.wf(),
            known.keys@.len() == documents.len(),
            forall|k: int|
                0 <= k < documents.len() ==> #[trigger] known.keys@[k] == bytes_key(
                    documents[k]._id@,
                ),
            index.of(facts),
            addresses == address_views(documents@),
            facts == fact_views(words@),
            id_views(unknown@) == unknown_upto(addresses, facts, i as int),
        decreases words.len() - i,
    {
        let ghost before = id_views(unknown@);
        assert(facts[i as int].document == words[i as int].document@);
        let found = find_address(documents, &known, &words[i].document);
        if found.is_none() && names_new_document(words, &index, i) {
            unknown.push(words[i].document);
            assert(id_views(unknown@) =~= before.push(words[i as int].document@));
        }
        i += 1;
    }
    unknown
}

} // verus!
