//! The frequency scorer: how often each word of a document counts, and which
//! words are kept.

use crate::chains::{key_of_text, text_key, Chains};
use crate::chars::{chars_of, string_of, views};
use crate::models::{Document, Words};
use crate::normalize::{
    english, normalize_with, normalized, same_chars, stop_set, StopWords,
};
use vstd::prelude::*;

verus! {

/// What one occurrence in the title adds to a word's count.
pub const TITLE_BOOST: i32 = 50;

/// What one occurrence in the description adds to a word's count.
pub const DESCRIPTION_BOOST: i32 = 10;

/// The number of words that are kept of one document at most.
pub const TOP_WORDS: usize = 1000;

/// How often `word` stands in `list`.
pub open spec fn occurrences(list: Seq<Seq<char>>, word: Seq<char>) -> nat
    decreases list.len(),
{
    if list.len() == 0 {
        0
    } else {
        occurrences(list.drop_last(), word) + if list.last() == word {
            1nat
        } else {
            0nat
        }
    }
}

/// The words of `list`, each once, in the order in which they first stand
/// there.
pub open spec fn distinct(list: Seq<Seq<char>>) -> Seq<Seq<char>>
    decreases list.len(),
{
    if list.len() == 0 {
        Seq::empty()
    } else if distinct(list.drop_last()).contains(list.last()) {
        distinct(list.drop_last())
    } else {
        distinct(list.drop_last()).push(list.last())
    }
}

/// The count of a word of the text: its occurrences in the text, and for each
/// occurrence in the title and in the description the boost on top.
pub open spec fn boosted(
    word: Seq<char>,
    full_text: Seq<Seq<char>>,
    title: Seq<Seq<char>>,
    description: Seq<Seq<char>>,
) -> int {
    occurrences(full_text, word) + TITLE_BOOST * occurrences(title, word) + DESCRIPTION_BOOST
        * occurrences(description, word)
}

/// The counts of the distinct words of the text, in the order of `distinct`.
pub open spec fn tally(
    full_text: Seq<Seq<char>>,
    title: Seq<Seq<char>>,
    description: Seq<Seq<char>>,
) -> Seq<int> {
    Seq::new(
        distinct(full_text).len(),
        |k: int| boosted(distinct(full_text)[k], full_text, title, description),
    )
}

/// Whether entry `i` stands before entry `j` in the ranking: it has the higher
/// count, or the same count and the earlier place.
pub open spec fn outranks(counts: Seq<int>, i: int, j: int) -> bool {
    counts[i] > counts[j] || (counts[i] == counts[j] && i < j)
}

/// The first place at or after `from` in `order` whose entry counts less than
/// `count`, or the length of `order` where there is none.
pub open spec fn slot_from(order: Seq<int>, counts: Seq<int>, count: int, from: int) -> int
    decreases order.len() - from,
{
    if 0 <= from < order.len() && counts[order[from]] >= count {
        slot_from(order, counts, count, from + 1)
    } else {
        from
    }
}

/// The `limit` highest ranking of the first `n` entries, from the highest
/// down: each entry in turn goes behind those that count no less than it,
/// and what then stands beyond the limit is dropped.
pub open spec fn top_upto(counts: Seq<int>, n: int, limit: int) -> Seq<int>
    decreases n,
{
    if n <= 0 {
        Seq::empty()
    } else {
        let before = top_upto(counts, n - 1, limit);
        let grown = before.insert(slot_from(before, counts, counts[n - 1], 0), n - 1);
        if grown.len() > limit {
            grown.drop_last()
        } else {
            grown
        }
    }
}

/// The `limit` highest ranking entries, from the highest down.
pub open spec fn top(counts: Seq<int>, limit: int) -> Seq<int> {
    top_upto(counts, counts.len() as int, limit)
}

/// The words that are kept of a document with their counts, from the highest
/// count down; among equal counts the word that stands first in the text
/// comes first.
pub open spec fn scored(
    full_text: Seq<Seq<char>>,
    title: Seq<Seq<char>>,
    description: Seq<Seq<char>>,
) -> Seq<(Seq<char>, int)> {
    top(tally(full_text, title, description), TOP_WORDS as int).map_values(
        |k: int| (distinct(full_text)[k], tally(full_text, title, description)[k]),
    )
}

/// The views of a list of character vectors.
pub open spec fn char_views(list: Seq<Vec<char>>) -> Seq<Seq<char>> {
    list.map_values(|v: Vec<char>| v@)
}

/// A list of counts as integers.
pub open spec fn as_ints(list: Seq<i32>) -> Seq<int> {
    list.map_values(|c: i32| c as int)
}

/// A list of places as integers.
pub open spec fn as_places(list: Seq<usize>) -> Seq<int> {
    list.map_values(|p: usize| p as int)
}

/// A list of pairs of a word and its count as plain values.
pub open spec fn pair_views(list: Seq<(String, i32)>) -> Seq<(Seq<char>, int)> {
    list.map_values(|p: (String, i32)| (p.0@, p.1 as int))
}

/// The words and counts of a list of word records.
pub open spec fn word_counts(list: Seq<Words>) -> Seq<(Seq<char>, int)> {
    list.map_values(|w: Words| (w.word@, w.count as int))
}

/// A word that stands in a list stands among its distinct words.
pub proof fn lemma_occurs_in_distinct(list: Seq<Seq<char>>, word: Seq<char>)
    ensures
        occurrences(list, word) > 0 <==> distinct(list).contains(word),
        distinct(list).contains(word) <==> list.contains(word),
    decreases list.len(),
{
    if list.len() > 0 {
        let rest = list.drop_last();
        lemma_occurs_in_distinct(rest, word);
        let d = distinct(rest);
        if !d.contains(list.last()) {
            assert(d.push(list.last()).last() == list.last());
            if d.contains(word) {
                let k = choose|k: int| 0 <= k < d.len() && d[k] == word;
                assert(d.push(list.last())[k] == word);
            }
        }
        if list.contains(word) {
            let k = choose|k: int| 0 <= k < list.len() && list[k] == word;
            if k < list.len() - 1 {
                assert(rest[k] == word);
            }
        }
    }
}

proof fn lemma_slot(order: Seq<int>, counts: Seq<int>, count: int, from: int)
    requires
        0 <= from <= order.len(),
    ensures
        from <= slot_from(order, counts, count, from) <= order.len(),
    decreases order.len() - from,
{
    if from < order.len() && counts[order[from]] >= count {
        lemma_slot(order, counts, count, from + 1);
    }
}

/// The top list of the first `n` entries holds `n` of them or as many as the
/// limit allows, each of them below `n`.
pub proof fn lemma_top_len(counts: Seq<int>, n: int, limit: int)
    requires
        0 <= n,
        0 <= limit,
    ensures
        top_upto(counts, n, limit).len() == if n <= limit {
            n
        } else {
            limit
        },
        forall|k: int|
            0 <= k < top_upto(counts, n, limit).len() ==> 0 <= #[trigger] top_upto(
                counts,
                n,
                limit,
            )[k] < n,
    decreases n,
{
    if n > 0 {
        lemma_top_len(counts, n - 1, limit);
        let before = top_upto(counts, n - 1, limit);
        lemma_slot(before, counts, counts[n - 1], 0);
    }
}

/// The scorer keeps at most `TOP_WORDS` words: all the distinct words of a
/// text that has no more than that, else exactly `TOP_WORDS`.
pub proof fn law_scored_len(
    full_text: Seq<Seq<char>>,
    title: Seq<Seq<char>>,
    description: Seq<Seq<char>>,
)
    ensures
        scored(full_text, title, description).len() == if distinct(full_text).len()
            <= TOP_WORDS {
            distinct(full_text).len()
        } else {
            TOP_WORDS as nat
        },
{
    let counts = tally(full_text, title, description);
    lemma_top_len(counts, counts.len() as int, TOP_WORDS as int);
}

/// Every word that the scorer keeps stands in the text, whatever the title
/// and the description hold, and its count is its number of occurrences in
/// the text with the boosts on top.
pub proof fn law_scored_words(
    full_text: Seq<Seq<char>>,
    title: Seq<Seq<char>>,
    description: Seq<Seq<char>>,
    k: int,
)
    requires
        0 <= k < scored(full_text, title, description).len(),
    ensures
        full_text.contains(scored(full_text, title, description)[k].0),
        scored(full_text, title, description)[k].1 == boosted(
            scored(full_text, title, description)[k].0,
            full_text,
            title,
            description,
        ),
        scored(full_text, title, description)[k].1 >= 1,
{
    let counts = tally(full_text, title, description);
    lemma_top_len(counts, counts.len() as int, TOP_WORDS as int);
    let place = top(counts, TOP_WORDS as int)[k];
    let word = distinct(full_text)[place];
    lemma_occurs_in_distinct(full_text, word);
}

/// `outranks` is transitive.
proof fn lemma_outranks_chain(counts: Seq<int>, i: int, j: int, k: int)
    requires
        outranks(counts, i, j),
        outranks(counts, j, k),
    ensures
        outranks(counts, i, k),
{
}

proof fn lemma_slot_splits(order: Seq<int>, counts: Seq<int>, count: int, from: int)
    requires
        0 <= from <= order.len(),
    ensures
        forall|k: int|
            from <= k < slot_from(order, counts, count, from) ==> counts[#[trigger] order[k]]
                >= count,
        slot_from(order, counts, count, from) < order.len() ==> counts[order[slot_from(
            order,
            counts,
            count,
            from,
        )]] < count,
    decreases order.len() - from,
{
    if from < order.len() && counts[order[from]] >= count {
        lemma_slot_splits(order, counts, count, from + 1);
    }
}

/// The top list is the ranking's head: it stands in ranking order, and every
/// entry that it leaves out is outranked by every entry that it holds. While
/// the limit is not reached it holds every entry.
pub proof fn law_top_ranked(counts: Seq<int>, n: int, limit: int)
    requires
        0 <= n <= counts.len(),
        0 <= limit,
    ensures
        forall|a: int, b: int|
            0 <= a < b < top_upto(counts, n, limit).len() ==> outranks(
                counts,
                #[trigger] top_upto(counts, n, limit)[a],
                #[trigger] top_upto(counts, n, limit)[b],
            ),
        forall|j: int, a: int|
            0 <= j < n && !top_upto(counts, n, limit).contains(j) && 0 <= a < top_upto(
                counts,
                n,
                limit,
            ).len() ==> #[trigger] outranks(counts, top_upto(counts, n, limit)[a], j),
        n <= limit ==> forall|j: int| 0 <= j < n ==> top_upto(counts, n, limit).contains(j),
    decreases n,
{
    if n > 0 {
        law_top_ranked(counts, n - 1, limit);
        lemma_top_len(counts, n - 1, limit);
        lemma_top_len(counts, n, limit);
        let before = top_upto(counts, n - 1, limit);
        let count = counts[n - 1];
        let p = slot_from(before, counts, count, 0);
        lemma_slot(before, counts, count, 0);
        lemma_slot_splits(before, counts, count, 0);
        let grown = before.insert(p, n - 1);
        let now = top_upto(counts, n, limit);
        assert(grown[p] == n - 1);
        assert forall|k: int| 0 <= k < p implies grown[k] == before[k] by {}
        assert forall|k: int| 0 <= k < now.len() implies now[k] == grown[k] by {}
        assert forall|j: int| before.contains(j) implies grown.contains(j) by {
            let k = choose|k: int| 0 <= k < before.len() && before[k] == j;
            if k >= p {
                assert(grown[k + 1] == j);
            }
        }
        assert forall|j: int, a: int| 0 <= j < n && !now.contains(j) && 0 <= a < now.len() implies
        #[trigger] outranks(counts, now[a], j) by {
            // Where the limit pushed `j` out, it was the last of the grown
            // list. Else the new entry outranks what stands behind it, and
            // that outranks `j`.
            if !grown.contains(j) && a == p {
                lemma_outranks_chain(counts, n - 1, before[p], j);
            }
        }
    }
}

/// No word stands twice among the distinct words of a list.
pub proof fn lemma_distinct_differ(list: Seq<Seq<char>>, a: int, b: int)
    requires
        0 <= a < b < distinct(list).len(),
    ensures
        distinct(list)[a] != distinct(list)[b],
    decreases list.len(),
{
    if list.len() > 0 {
        let before = distinct(list.drop_last());
        if before.contains(list.last()) {
            lemma_distinct_differ(list.drop_last(), a, b);
        } else if b < before.len() {
            lemma_distinct_differ(list.drop_last(), a, b);
        }
    }
}

/// No word is kept twice: the word records of one document are of different
/// words.
pub proof fn law_scored_distinct(
    full_text: Seq<Seq<char>>,
    title: Seq<Seq<char>>,
    description: Seq<Seq<char>>,
    a: int,
    b: int,
)
    requires
        0 <= a < b < scored(full_text, title, description).len(),
    ensures
        scored(full_text, title, description)[a].0 != scored(full_text, title, description)[b].0,
{
    let counts = tally(full_text, title, description);
    let best = top(counts, TOP_WORDS as int);
    lemma_top_len(counts, counts.len() as int, TOP_WORDS as int);
    law_top_ranked(counts, counts.len() as int, TOP_WORDS as int);
    if best[a] < best[b] {
        lemma_distinct_differ(full_text, best[a], best[b]);
    } else {
        lemma_distinct_differ(full_text, best[b], best[a]);
    }
}

/// The words of `list` as character vectors.
fn char_lists(list: &Vec<String>) -> (r: Vec<Vec<char>>)
    ensures
        char_views(r@) == views(list@),
{
    let mut r: Vec<Vec<char>> = Vec::new();
    let mut i: usize = 0;
    while i < list.len()
        invariant
            i <= list.len(),
            r.len() == i,
            forall|k: int| 0 <= k < i ==> (#[trigger] r[k])@ == list[k]@,
        decreases list.len() - i,
    {
        r.push(chars_of(list[i].as_str()));
        i += 1;
    }
    r
}

/// Whether `index` chains the places of `words` by the keys of the words.
pub open spec fn chained(words: Seq<Vec<char>>, index: Chains) -> bool {
    &&& index.wf()
    &&& index.keys@.len() == words.len()
    &&& forall|k: int| 0 <= k < words.len() ==> index.keys@[k] == text_key((#[trigger] words[k])@)
}

/// The place of `word` in `words`, found along the chain of its key.
fn find_word(words: &Vec<Vec<char>>, index: &Chains, word: &Vec<char>) -> (found: Option<usize>)
    requires
        chained(words@, *index),
    ensures
        match found {
            Some(k) => k < words.len() && words[k as int]@ == word@,
            None => !char_views(words@).contains(word@),
        },
{
    let key = key_of_text(word);
    let mut place = index.head(key);
    loop
        invariant
            chained(words@, *index),
            key == text_key(word@),
            place matches Some(j) ==> j < words.len() && index.keys@[j as int] == key,
            forall|k: int|
                (match place {
                    Some(j) => j as int,
                    None => -1,
                }) < k < words.len() ==> (#[trigger] words[k])@ != word@,
        decreases
                match place {
                    Some(j) => j + 1,
                    None => 0,
                },
    {
        match place {
            Some(j) => {
                assert(word@.subrange(0, word.len() as int) == word@);
                if same_chars(&words[j], word, 0, word.len()) {
                    return Some(j);
                }
                let next = index.link(j);
                place = next;
            },
            None => {
                return None;
            },
        }
    }
}

/// Adds `boost` to the count of each word of `words` for each of its
/// occurrences in `tokens`.
fn add_boost(
    words: &Vec<Vec<char>>,
    index: &Chains,
    counts: &mut Vec<i32>,
    tokens: &Vec<Vec<char>>,
    boost: i32,
    Ghost(ceiling): Ghost<int>,
)
    requires
        chained(words@, *index),
        old(counts).len() == words.len(),
        0 <= boost,
        forall|a: int, b: int|
            0 <= a < b < words.len() ==> (#[trigger] words[a])@ != (#[trigger] words[b])@,
        forall|k: int| 0 <= k < words.len() ==> 0 <= #[trigger] old(counts)[k] <= ceiling,
        ceiling + boost * tokens.len() <= i32::MAX,
    ensures
        final(counts).len() == words.len(),
        forall|k: int|
            0 <= k < words.len() ==> #[trigger] final(counts)[k] == old(counts)[k] + boost
                * occurrences(char_views(tokens@), words[k]@),
        forall|k: int|
            0 <= k < words.len() ==> 0 <= #[trigger] final(counts)[k] <= ceiling + boost
                * tokens.len(),
{
    let ghost all = char_views(tokens@);
    let mut i: usize = 0;
    while i < tokens.len()
        invariant
            i <= tokens.len(),
            chained(words@, *index),
            counts.len() == words.len(),
            0 <= boost,
            all == char_views(tokens@),
            forall|a: int, b: int|
                0 <= a < b < words.len() ==> (#[trigger] words[a])@ != (#[trigger] words[b])@,
            forall|k: int|
                0 <= k < words.len() ==> #[trigger] counts[k] == old(counts)[k] + boost
                    * occurrences(all.take(i as int), words[k]@),
            forall|k: int| 0 <= k < words.len() ==> 0 <= #[trigger] counts[k] <= ceiling + boost * i,
            ceiling + boost * tokens.len() <= i32::MAX,
        decreases tokens.len() - i,
    {
        proof {
            assert(all.take(i + 1).drop_last() == all.take(i as int));
            assert(boost * (i + 1) == boost * i + boost) by (nonlinear_arith);
            assert(boost * (i + 1) <= boost * tokens.len()) by (nonlinear_arith)
                requires
                    i + 1 <= tokens.len(),
                    0 <= boost,
            ;
            assert forall|k: int| 0 <= k < words.len() implies boost * occurrences(
                all.take(i + 1),
                #[trigger] words[k]@,
            ) == boost * occurrences(all.take(i as int), words[k]@) + if words[k]@
                == tokens[i as int]@ {
                boost as int
            } else {
                0
            } by {
                let before = occurrences(all.take(i as int), words[k]@);
                assert(boost * (before + 1) == boost * before + boost) by (nonlinear_arith);
            }
        }
        match find_word(words, index, &tokens[i]) {
            Some(k) => {
                let raised = counts[k] + boost;
                counts.set(k, raised);
            },
            None => {
                assert forall|k: int| 0 <= k < words.len() implies (#[trigger] words[k])@
                    != tokens[i as int]@ by {
                    assert(char_views(words@)[k] == words[k]@);
                }
            },
        }
        i += 1;
    }
    assert(all.take(tokens.len() as int) == all);
}

/// The words that are kept of a text with their counts, where the tokens of
/// the title and of the description are given.
pub fn score_tokens(
    full_text: &Vec<String>,
    title: &Vec<String>,
    description: &Vec<String>,
) -> (kept: Vec<(String, i32)>)
    requires
        full_text.len() + TITLE_BOOST * title.len() + DESCRIPTION_BOOST * description.len()
            <= i32::MAX,
    ensures
        pair_views(kept@) == scored(views(full_text@), views(title@), views(description@)),
        kept.len() <= TOP_WORDS,
        forall|k: int| 0 <= k < kept.len() ==> views(full_text@).contains((#[trigger] kept[k]).0@),
{
    proof {
        let want = scored(views(full_text@), views(title@), views(description@));
        law_scored_len(views(full_text@), views(title@), views(description@));
        assert forall|k: int| 0 <= k < want.len() implies views(full_text@).contains(
            #[trigger] want[k].0,
        ) by {
            law_scored_words(views(full_text@), views(title@), views(description@), k);
        }
    }
    let text = char_lists(full_text);
    let ghost all = views(full_text@);
    let mut words: Vec<Vec<char>> = Vec::new();
    let mut index = Chains::new();
    let mut counts: Vec<i32> = Vec::new();
    let mut i: usize = 0;
    while i < text.len()
        invariant
            i <= text.len(),
            chained(words@, index),
            text.len() <= i32::MAX,
            text.len() == full_text.len(),
            all == char_views(text@),
            all == views(full_text@),
            counts.len() == words.len(),
            char_views(words@) == distinct(all.take(i as int)),
            forall|a: int, b: int|
                0 <= a < b < words.len() ==> (#[trigger] words[a])@ != (#[trigger] words[b])@,
            forall|k: int|
                0 <= k < words.len() ==> #[trigger] counts[k] == occurrences(
                    all.take(i as int),
                    words[k]@,
                ),
            forall|k: int| 0 <= k < words.len() ==> 0 <= #[trigger] counts[k] <= i,
        decreases text.len() - i,
    {
        let ghost before = char_views(words@);
        proof {
            assert(all.take(i + 1).drop_last() == all.take(i as int));
            lemma_occurs_in_distinct(all.take(i as int), text[i as int]@);
        }
        match find_word(&words, &index, &text[i]) {
            Some(k) => {
                let raised = counts[k] + 1;
                counts.set(k, raised);
                assert(before[k as int] == text[i as int]@);
            },
            None => {
                assert forall|k: int| 0 <= k < words.len() implies (#[trigger] words[k])@
                    != text[i as int]@ by {
                    assert(before[k] == words[k]@);
                }
                let word = chars_of(full_text[i].as_str());
                index.push(key_of_text(&word));
                words.push(word);
                counts.push(1);
            },
        }
        i += 1;
    }
    assert(all.take(text.len() as int) == all);
    let title_words = char_lists(title);
    let description_words = char_lists(description);
    add_boost(&words, &index, &mut counts, &title_words, TITLE_BOOST, Ghost(text.len() as int));
    add_boost(
        &words,
        &index,
        &mut counts,
        &description_words,
        DESCRIPTION_BOOST,
        Ghost(text.len() + TITLE_BOOST * title.len()),
    );
    let ghost sums = tally(views(full_text@), views(title@), views(description@));
    proof {
        assert(as_ints(counts@) =~= sums);
    }
    let best = rank(&counts);
    let mut kept: Vec<(String, i32)> = Vec::new();
    let mut j: usize = 0;
    proof {
        lemma_top_len(sums, sums.len() as int, TOP_WORDS as int);
    }
    while j < best.len()
        invariant
            j <= best.len(),
            kept.len() == j,
            counts.len() == words.len(),
            as_ints(counts@) == sums,
            as_places(best@) == top(sums, TOP_WORDS as int),
            forall|k: int| 0 <= k < best.len() ==> 0 <= #[trigger] as_places(best@)[k] < sums.len(),
            char_views(words@) == distinct(all),
            forall|k: int|
                0 <= k < j ==> (#[trigger] kept[k]).0@ == distinct(all)[best[k] as int] && kept[k].1
                    == sums[best[k] as int],
        decreases best.len() - j,
    {
        let place = best[j];
        assert(as_places(best@)[j as int] == place);
        kept.push((string_of(&words[place]), counts[place]));
        j += 1;
    }
    proof {
        let want = scored(views(full_text@), views(title@), views(description@));
        assert(pair_views(kept@) =~= want);
        assert forall|k: int| 0 <= k < kept.len() implies views(full_text@).contains(
            (#[trigger] kept[k]).0@,
        ) by {
            assert(pair_views(kept@)[k].0 == kept[k].0@);
        }
    }
    kept
}

/// The places of the `TOP_WORDS` highest counts, from the highest down.
fn rank(counts: &Vec<i32>) -> (best: Vec<usize>)
    ensures
        as_places(best@) == top(as_ints(counts@), TOP_WORDS as int),
{
    let ghost all = as_ints(counts@);
    let mut best: Vec<usize> = Vec::new();
    let mut n: usize = 0;
    while n < counts.len()
        invariant
            n <= counts.len(),
            all == as_ints(counts@),
            as_places(best@) == top_upto(all, n as int, TOP_WORDS as int),
        decreases counts.len() - n,
    {
        let ghost order = as_places(best@);
        proof {
            lemma_top_len(all, n as int, TOP_WORDS as int);
        }
        let mut p: usize = 0;
        while p < best.len() && counts[best[p]] >= counts[n]
            invariant
                p <= best.len(),
                n < counts.len(),
                all == as_ints(counts@),
                order == as_places(best@),
                forall|k: int| 0 <= k < order.len() ==> 0 <= #[trigger] order[k] < n,
                slot_from(order, all, all[n as int], p as int) == slot_from(
                    order,
                    all,
                    all[n as int],
                    0,
                ),
            decreases best.len() - p,
        {
            p += 1;
        }
        best.insert(p, n);
        if best.len() > TOP_WORDS {
            best.pop();
        }
        n += 1;
    }
    best
}

/// Whether the counts of a text fit: the number of its tokens, with the
/// boosts for every token of the title and of the description, stays within
/// an `i32`.
pub open spec fn counts_fit(
    full_text: Seq<Seq<char>>,
    title: Seq<Seq<char>>,
    description: Seq<Seq<char>>,
) -> bool {
    full_text.len() + TITLE_BOOST * title.len() + DESCRIPTION_BOOST * description.len()
        <= i32::MAX
}

/// Whether the counts of a document fit.
pub open spec fn document_fits(data: Document) -> bool {
    counts_fit(
        views(data.full_text@),
        normalized(data.title@, stop_set(english())),
        normalized(data.description@, stop_set(english())),
    )
}

/// Whether `records` are the word records of `data`: the words that are kept
/// of it with their counts, each with the document's identifier. Every one
/// of them stands in the text of the document, whatever its title and its
/// description hold, and there are `TOP_WORDS` of them at most.
pub open spec fn records_of(data: Document, records: Seq<Words>) -> bool {
    &&& word_counts(records) == scored(
        views(data.full_text@),
        normalized(data.title@, stop_set(english())),
        normalized(data.description@, stop_set(english())),
    )
    &&& forall|k: int| 0 <= k < records.len() ==> (#[trigger] records[k]).document == data._id
    &&& records.len() <= TOP_WORDS
    &&& forall|k: int|
        0 <= k < records.len() ==> views(data.full_text@).contains((#[trigger] records[k]).word@)
}

/// The word records of a document whose title and description are given as
/// tokens.
fn make_records(data: &Document, title: &Vec<String>, description: &Vec<String>) -> (records: Vec<
    Words,
>)
    requires
        views(title@) == normalized(data.title@, stop_set(english())),
        views(description@) == normalized(data.description@, stop_set(english())),
        document_fits(*data),
    ensures
        records_of(*data, records@),
{
    assert(views(title@).len() == title.len());
    assert(views(description@).len() == description.len());
    assert(views(data.full_text@).len() == data.full_text.len());
    let kept = score_tokens(&data.full_text, title, description);
    let mut records: Vec<Words> = Vec::new();
    let mut i: usize = 0;
    while i < kept.len()
        invariant
            i <= kept.len(),
            records.len() == i,
            forall|k: int|
                0 <= k < kept.len() ==> views(data.full_text@).contains((#[trigger] kept[k]).0@),
            forall|k: int|
                0 <= k < i ==> (#[trigger] records[k]).document == data._id && records[k].word@
                    == kept[k].0@ && records[k].count == kept[k].1,
        decreases kept.len() - i,
    {
        records.push(Words::new(data._id, kept[i].0.clone(), kept[i].1));
        i += 1;
    }
    assert(word_counts(records@) =~= pair_views(kept@));
    records
}

/// The word records of a document: the words that are kept of it with their
/// counts, each under a fresh identifier and with the document's identifier.
pub fn create_frequency(data: &Document) -> (records: Vec<Words>)
    requires
        document_fits(*data),
    ensures
        records_of(*data, records@),
{
    let stops = StopWords::for_language("en");
    let title = normalize_with(data.title.as_str(), &stops);
    let description = normalize_with(data.description.as_str(), &stops);
    make_records(data, &title, &description)
}

/// The word records of a document, or `None` where its counts do not fit.
pub fn try_create_frequency(data: &Document) -> (made: Option<Vec<Words>>)
    ensures
        match made {
            Some(records) => document_fits(*data) && records_of(*data, records@),
            None => !document_fits(*data),
        },
{
    let stops = StopWords::for_language("en");
    let title = normalize_with(data.title.as_str(), &stops);
    let description = normalize_with(data.description.as_str(), &stops);
    assert(views(title@).len() == title.len());
    assert(views(description@).len() == description.len());
    assert(views(data.full_text@).len() == data.full_text.len());
    let words: u128 = data.full_text.len() as u128;
    let boosted: u128 = words + 50 * (title.len() as u128) + 10 * (description.len() as u128);
    if boosted <= 0x7fff_ffff {
        Some(make_records(data, &title, &description))
    } else {
        None
    }
}

} // verus!
