//! The text normalizer: small letters, punctuation collapsed, stop words
//! removed, split into tokens.
//!
//! A word is what stands between white space once punctuation has become
//! white space.

use crate::chars::{
    chars_of, is_punct, is_punctuation, is_space, is_whitespace, lemma_run_end, run_end,
    scan_run, string_of, string_of_range, to_lowercase, unicode_lowered, views, CharClass,
};
use vstd::prelude::*;

verus! {

/// `s` in small letters, as `str::to_lowercase` makes them.
pub open spec fn lowered(s: Seq<char>) -> Seq<char> {
    unicode_lowered(s)
}

/// `s[from..]` with every maximal run of punctuation replaced by one space.
pub open spec fn collapsed_from(s: Seq<char>, from: int) -> Seq<char>
    decreases s.len() - from,
{
    if from < 0 || from >= s.len() {
        Seq::empty()
    } else if is_punct(s[from]) {
        proof {
            lemma_run_end(s, from, CharClass::Punct);
        }
        seq![' '] + collapsed_from(s, run_end(s, from, CharClass::Punct))
    } else {
        seq![s[from]] + collapsed_from(s, from + 1)
    }
}

/// `s` with every maximal run of punctuation replaced by one space.
pub open spec fn collapsed(s: Seq<char>) -> Seq<char> {
    collapsed_from(s, 0)
}

/// `s[from..]` without its stop words, where `from` does not stand inside a
/// word. A word is a maximal run of characters other than white space. A word
/// that is a stop word is left out together with all the white space behind
/// it, wherever it stands, at the very end of the text too; every other
/// character stays.
pub open spec fn stripped_from(s: Seq<char>, from: int, stops: Set<Seq<char>>) -> Seq<char>
    decreases s.len() - from,
{
    if from < 0 || from >= s.len() {
        Seq::empty()
    } else if is_space(s[from]) {
        seq![s[from]] + stripped_from(s, from + 1, stops)
    } else {
        let end = run_end(s, from, CharClass::Solid);
        let after = run_end(s, end, CharClass::Space);
        proof {
            lemma_run_end(s, from, CharClass::Solid);
            lemma_run_end(s, end, CharClass::Space);
        }
        if stops.contains(s.subrange(from, end)) {
            stripped_from(s, after, stops)
        } else {
            s.subrange(from, end) + stripped_from(s, end, stops)
        }
    }
}

/// `s` without its stop words.
pub open spec fn stripped(s: Seq<char>, stops: Set<Seq<char>>) -> Seq<char> {
    stripped_from(s, 0, stops)
}

/// The maximal runs of characters other than white space in `s[from..]`, in
/// order, where `from` does not stand inside such a run.
pub open spec fn tokens_from(s: Seq<char>, from: int) -> Seq<Seq<char>>
    decreases s.len() - from,
{
    if from < 0 || from >= s.len() {
        Seq::empty()
    } else if is_space(s[from]) {
        tokens_from(s, from + 1)
    } else {
        proof {
            lemma_run_end(s, from, CharClass::Solid);
        }
        seq![s.subrange(from, run_end(s, from, CharClass::Solid))] + tokens_from(
            s,
            run_end(s, from, CharClass::Solid),
        )
    }
}

/// `s` split at white space: its maximal runs of other characters, in order.
pub open spec fn tokens(s: Seq<char>) -> Seq<Seq<char>> {
    tokens_from(s, 0)
}

/// The words of `list` that are no stop words, in their order, each as
/// often as it stands there.
pub open spec fn kept(list: Seq<Seq<char>>, stops: Set<Seq<char>>) -> Seq<Seq<char>>
    decreases list.len(),
{
    if list.len() == 0 {
        Seq::empty()
    } else if stops.contains(list[0]) {
        kept(list.skip(1), stops)
    } else {
        seq![list[0]] + kept(list.skip(1), stops)
    }
}

/// The cleaned text: small letters, then punctuation collapsed, then stop
/// words removed.
pub open spec fn cleaned(text: Seq<char>, stops: Set<Seq<char>>) -> Seq<char> {
    stripped(collapsed(lowered(text)), stops)
}

/// The tokens of the cleaned text.
pub open spec fn normalized(text: Seq<char>, stops: Set<Seq<char>>) -> Seq<Seq<char>> {
    tokens(cleaned(text, stops))
}

/// What `stop_words::lookup` returns for a language code: the words of that
/// language's list in the list's order, or `None` for a code that the crate
/// does not know.
pub uninterp spec fn stop_word_list(code: Seq<char>) -> Option<Seq<Seq<char>>>;

/// The stop words of a language as a set; empty for an unknown language.
pub open spec fn stop_set(code: Seq<char>) -> Set<Seq<char>> {
    match stop_word_list(code) {
        Some(list) => list.to_set(),
        None => Set::empty(),
    }
}

/// The code of the language whose stop words `normalize` removes.
pub open spec fn english() -> Seq<char> {
    "en"@
}

/// Calls `stop_words::lookup`, which maps a language code to a list compiled
/// into that crate and never panics. The contract names the list.
#[verifier::external_body]
fn lookup_stop_words(code: &str) -> (r: Option<Vec<String>>)
    ensures
        match r {
            Some(list) => stop_word_list(code@) == Some(views(list@)),
            None => stop_word_list(code@) is None,
        },
{
    stop_words::lookup(code).map(|list| list.iter().map(|word| word.to_string()).collect())
}

/// A set of stop words.
pub struct StopWords {
    words: Vec<Vec<char>>,
}

impl View for StopWords {
    type V = Set<Seq<char>>;

    closed spec fn view(&self) -> Set<Seq<char>> {
        Set::new(|w: Seq<char>| exists|i: int| 0 <= i < self.words.len() && self.words[i]@ == w)
    }
}

impl StopWords {
    /// The set of the words of `list`.
    pub fn from_list(list: &Vec<String>) -> (stops: StopWords)
        ensures
            stops@ == views(list@).to_set(),
    {
        let mut words: Vec<Vec<char>> = Vec::new();
        let mut i: usize = 0;
        while i < list.len()
            invariant
                i <= list.len(),
                words.len() == i,
                forall|k: int| 0 <= k < i ==> (#[trigger] words[k])@ == list[k]@,
            decreases list.len() - i,
        {
            words.push(chars_of(list[i].as_str()));
            i += 1;
        }
        let stops = StopWords { words };
        proof {
            let want = views(list@).to_set();
            assert forall|w: Seq<char>| stops@.contains(w) <==> want.contains(w) by {
                if stops@.contains(w) {
                    let k = choose|k: int| 0 <= k < stops.words.len() && stops.words[k]@ == w;
                    assert(views(list@)[k] == w);
                }
                if want.contains(w) {
                    let k = choose|k: int| 0 <= k < views(list@).len() && views(list@)[k] == w;
                    assert(stops.words[k]@ == w);
                }
            }
        }
        stops
    }

    /// The stop words of the language `code`; none for an unknown language.
    pub fn for_language(code: &str) -> (stops: StopWords)
        ensures
            stops@ == stop_set(code@),
    {
        match lookup_stop_words(code) {
            Some(list) => StopWords::from_list(&list),
            None => {
                let stops = StopWords { words: Vec::new() };
                stops
            },
        }
    }

    /// Whether `text[from..to]` is a stop word.
    pub fn contains_range(&self, text: &Vec<char>, from: usize, to: usize) -> (found: bool)
        requires
            from <= to <= text.len(),
        ensures
            found == self@.contains(text@.subrange(from as int, to as int)),
    {
        let ghost want = text@.subrange(from as int, to as int);
        let mut i: usize = 0;
        while i < self.words.len()
            invariant
                i <= self.words.len(),
                from <= to <= text.len(),
                want == text@.subrange(from as int, to as int),
                forall|k: int| 0 <= k < i ==> (#[trigger] self.words[k])@ != want,
            decreases self.words.len() - i,
        {
            if same_chars(&self.words[i], text, from, to) {
                return true;
            }
            i += 1;
        }
        false
    }
}

/// Whether `word` is `text[from..to]`.
pub fn same_chars(word: &Vec<char>, text: &Vec<char>, from: usize, to: usize) -> (same: bool)
    requires
        from <= to <= text.len(),
    ensures
        same == (word@ == text@.subrange(from as int, to as int)),
{
    if word.len() != to - from {
        return false;
    }
    let mut k: usize = 0;
    while k < word.len()
        invariant
            k <= word.len(),
            word.len() == to - from,
            to <= text.len(),
            forall|j: int| 0 <= j < k ==> word[j] == text[from + j],
        decreases word.len() - k,
    {
        if word[k] != text[from + k] {
            return false;
        }
        k += 1;
    }
    assert(word@ =~= text@.subrange(from as int, to as int));
    true
}

/// Appends `text[from..to]` to `out`.
fn push_range(out: &mut Vec<char>, text: &Vec<char>, from: usize, to: usize)
    requires
        from <= to <= text.len(),
    ensures
        final(out)@ == old(out)@ + text@.subrange(from as int, to as int),
{
    let mut k: usize = from;
    while k < to
        invariant
            from <= k <= to <= text.len(),
            out@ == old(out)@ + text@.subrange(from as int, k as int),
        decreases to - k,
    {
        out.push(text[k]);
        k += 1;
    }
}

/// `v` with every maximal run of punctuation replaced by one space.
pub fn collapse_punctuation(v: &Vec<char>) -> (r: Vec<char>)
    ensures
        r@ == collapsed(v@),
{
    let mut r: Vec<char> = Vec::new();
    let mut i: usize = 0;
    while i < v.len()
        invariant
            i <= v.len(),
            r@ + collapsed_from(v@, i as int) == collapsed(v@),
        decreases v.len() - i,
    {
        let c = v[i];
        if is_punctuation(c) {
            let end = scan_run(v, i, CharClass::Punct);
            proof {
                lemma_run_end(v@, i as int, CharClass::Punct);
            }
            r.push(' ');
            i = end;
        } else {
            r.push(c);
            i += 1;
        }
    }
    r
}

/// `v` without its stop words.
pub fn strip_stop_words(v: &Vec<char>, stops: &StopWords) -> (r: Vec<char>)
    ensures
        r@ == stripped(v@, stops@),
{
    let mut r: Vec<char> = Vec::new();
    let mut i: usize = 0;
    while i < v.len()
        invariant
            i <= v.len(),
            r@ + stripped_from(v@, i as int, stops@) == stripped(v@, stops@),
        decreases v.len() - i,
    {
        let ghost before = r@;
        let c = v[i];
        if is_whitespace(c) {
            r.push(c);
            assert(r@ + stripped_from(v@, i + 1, stops@) =~= before + stripped_from(
                v@,
                i as int,
                stops@,
            ));
            i += 1;
        } else {
            let end = scan_run(v, i, CharClass::Solid);
            proof {
                lemma_run_end(v@, i as int, CharClass::Solid);
            }
            if stops.contains_range(v, i, end) {
                let after = scan_run(v, end, CharClass::Space);
                proof {
                    lemma_run_end(v@, end as int, CharClass::Space);
                }
                i = after;
            } else {
                push_range(&mut r, v, i, end);
                assert(r@ + stripped_from(v@, end as int, stops@) =~= before + stripped_from(
                    v@,
                    i as int,
                    stops@,
                ));
                i = end;
            }
        }
    }
    assert(r@ =~= r@ + stripped_from(v@, i as int, stops@));
    r
}

/// `v` split at white space.
pub fn split_tokens(v: &Vec<char>) -> (r: Vec<String>)
    ensures
        views(r@) == tokens(v@),
{
    let mut r: Vec<String> = Vec::new();
    let mut i: usize = 0;
    while i < v.len()
        invariant
            i <= v.len(),
            views(r@) + tokens_from(v@, i as int) == tokens(v@),
        decreases v.len() - i,
    {
        if is_whitespace(v[i]) {
            i += 1;
        } else {
            let end = scan_run(v, i, CharClass::Solid);
            proof {
                lemma_run_end(v@, i as int, CharClass::Solid);
            }
            r.push(string_of_range(v, i, end));
            i = end;
        }
    }
    r
}

/// The cleaned text of `text`, as characters.
pub fn clean_chars(text: &str, stops: &StopWords) -> (r: Vec<char>)
    ensures
        r@ == cleaned(text@, stops@),
{
    let small = chars_of(to_lowercase(text).as_str());
    let spaced = collapse_punctuation(&small);
    strip_stop_words(&spaced, stops)
}

/// The cleaned text of `text` for a given set of stop words.
pub fn clean_with(text: &str, stops: &StopWords) -> (r: String)
    ensures
        r@ == cleaned(text@, stops@),
{
    string_of(&clean_chars(text, stops))
}

/// The tokens of `text` for a given set of stop words.
pub fn normalize_with(text: &str, stops: &StopWords) -> (r: Vec<String>)
    ensures
        views(r@) == normalized(text@, stops@),
{
    split_tokens(&clean_chars(text, stops))
}

/// The cleaned text of `document`: small letters, punctuation collapsed, the
/// English stop words removed.
pub fn clean_corpus(document: String) -> (r: String)
    ensures
        r@ == cleaned(document@, stop_set(english())),
{
    let stops = StopWords::for_language("en");
    clean_with(document.as_str(), &stops)
}

/// The tokens of `text`, the English stop words removed.
pub fn normalize(text: &str) -> (r: Vec<String>)
    ensures
        views(r@) == normalized(text@, stop_set(english())),
{
    let stops = StopWords::for_language("en");
    normalize_with(text, &stops)
}

/// No ASCII punctuation stands in `s`.
pub open spec fn tidy(s: Seq<char>) -> bool {
    forall|i: int| 0 <= i < s.len() ==> !is_punct(#[trigger] s[i])
}

/// No word of `s[from..]` is a stop word: `stripped_from` keeps every
/// character.
pub open spec fn settled_from(s: Seq<char>, from: int, stops: Set<Seq<char>>) -> bool
    decreases s.len() - from,
{
    if from < 0 || from >= s.len() {
        true
    } else if is_space(s[from]) {
        settled_from(s, from + 1, stops)
    } else {
        let end = run_end(s, from, CharClass::Solid);
        proof {
            lemma_run_end(s, from, CharClass::Solid);
        }
        !stops.contains(s.subrange(from, end)) && settled_from(s, end, stops)
    }
}

proof fn lemma_collapsed_tidy(s: Seq<char>, from: int)
    requires
        0 <= from <= s.len(),
    ensures
        tidy(collapsed_from(s, from)),
    decreases s.len() - from,
{
    if from < s.len() {
        if is_punct(s[from]) {
            lemma_run_end(s, from, CharClass::Punct);
            lemma_collapsed_tidy(s, run_end(s, from, CharClass::Punct));
        } else {
            lemma_collapsed_tidy(s, from + 1);
        }
    }
}

proof fn lemma_stripped_tidy(s: Seq<char>, from: int, stops: Set<Seq<char>>)
    requires
        0 <= from <= s.len(),
        tidy(s),
    ensures
        tidy(stripped_from(s, from, stops)),
    decreases s.len() - from,
{
    if from < s.len() {
        if is_space(s[from]) {
            lemma_stripped_tidy(s, from + 1, stops);
        } else {
            let end = run_end(s, from, CharClass::Solid);
            let after = run_end(s, end, CharClass::Space);
            lemma_run_end(s, from, CharClass::Solid);
            lemma_run_end(s, end, CharClass::Space);
            lemma_stripped_tidy(s, after, stops);
            lemma_stripped_tidy(s, end, stops);
        }
    }
}

/// A text without punctuation is left as it is.
pub proof fn lemma_collapsed_fixed(s: Seq<char>, from: int)
    requires
        0 <= from <= s.len(),
        tidy(s),
    ensures
        collapsed_from(s, from) == s.subrange(from, s.len() as int),
    decreases s.len() - from,
{
    if from < s.len() {
        lemma_collapsed_fixed(s, from + 1);
        assert(seq![s[from]] + s.subrange(from + 1, s.len() as int) =~= s.subrange(
            from,
            s.len() as int,
        ));
    } else {
        assert(collapsed_from(s, from) =~= s.subrange(from, s.len() as int));
    }
}

/// Where no word is a stop word, nothing is removed.
pub proof fn lemma_settled_fixed(s: Seq<char>, from: int, stops: Set<Seq<char>>)
    requires
        0 <= from <= s.len(),
        settled_from(s, from, stops),
    ensures
        stripped_from(s, from, stops) == s.subrange(from, s.len() as int),
    decreases s.len() - from,
{
    let n = s.len() as int;
    if from < n {
        if is_space(s[from]) {
            lemma_settled_fixed(s, from + 1, stops);
            assert(seq![s[from]] + s.subrange(from + 1, n) =~= s.subrange(from, n));
        } else {
            let end = run_end(s, from, CharClass::Solid);
            lemma_run_end(s, from, CharClass::Solid);
            lemma_settled_fixed(s, end, stops);
            assert(s.subrange(from, end) + s.subrange(end, n) =~= s.subrange(from, n));
        }
    } else {
        assert(stripped_from(s, from, stops) =~= s.subrange(from, n));
    }
}

/// A run ends at `to` where every character before `to` is of the class and
/// the one at `to`, if there is one, is not.
pub proof fn lemma_run_end_is(s: Seq<char>, from: int, to: int, class: CharClass)
    requires
        0 <= from <= to <= s.len(),
        forall|k: int| from <= k < to ==> class.has(#[trigger] s[k]),
        to < s.len() ==> !class.has(s[to]),
    ensures
        run_end(s, from, class) == to,
    decreases to - from,
{
    if from < to {
        lemma_run_end_is(s, from + 1, to, class);
    }
}

/// A run in `b` is the same run in `a + b`, moved by the length of `a`.
pub proof fn lemma_run_end_shift(a: Seq<char>, b: Seq<char>, k: int, class: CharClass)
    requires
        0 <= k <= b.len(),
    ensures
        run_end(a + b, a.len() + k, class) == a.len() + run_end(b, k, class),
    decreases b.len() - k,
{
    if k < b.len() {
        assert((a + b)[a.len() + k] == b[k]);
        if class.has(b[k]) {
            lemma_run_end_shift(a, b, k + 1, class);
        }
    }
}

/// Whether `b[k..]` is settled does not depend on what stands before `b`.
pub proof fn lemma_settled_shift(a: Seq<char>, b: Seq<char>, k: int, stops: Set<Seq<char>>)
    requires
        0 <= k <= b.len(),
    ensures
        settled_from(a + b, a.len() + k, stops) == settled_from(b, k, stops),
    decreases b.len() - k,
{
    if k < b.len() {
        assert((a + b)[a.len() + k] == b[k]);
        if is_space(b[k]) {
            lemma_settled_shift(a, b, k + 1, stops);
        } else {
            let end = run_end(b, k, CharClass::Solid);
            lemma_run_end(b, k, CharClass::Solid);
            lemma_run_end_shift(a, b, k, CharClass::Solid);
            assert((a + b).subrange(a.len() + k, a.len() + end) =~= b.subrange(k, end));
            lemma_settled_shift(a, b, end, stops);
        }
    }
}

/// The tokens of `b[k..]` do not depend on what stands before `b`.
pub proof fn lemma_tokens_shift(a: Seq<char>, b: Seq<char>, k: int)
    requires
        0 <= k <= b.len(),
    ensures
        tokens_from(a + b, a.len() + k) == tokens_from(b, k),
    decreases b.len() - k,
{
    if k < b.len() {
        assert((a + b)[a.len() + k] == b[k]);
        if is_space(b[k]) {
            lemma_tokens_shift(a, b, k + 1);
        } else {
            let end = run_end(b, k, CharClass::Solid);
            lemma_run_end(b, k, CharClass::Solid);
            lemma_run_end_shift(a, b, k, CharClass::Solid);
            assert((a + b).subrange(a.len() + k, a.len() + end) =~= b.subrange(k, end));
            lemma_tokens_shift(a, b, end);
        }
    }
}

/// The tokens of a word and of what follows it, where that starts with white
/// space, are the word and the tokens of what follows.
pub proof fn lemma_tokens_of_token(token: Seq<char>, rest: Seq<char>)
    requires
        token.len() > 0,
        forall|k: int| 0 <= k < token.len() ==> !is_space(#[trigger] token[k]),
        rest.len() > 0 ==> is_space(rest[0]),
    ensures
        tokens(token + rest) == seq![token] + tokens(rest),
{
    let whole = token + rest;
    let m = token.len() as int;
    assert(whole[0] == token[0]);
    assert forall|k: int| 0 <= k < m implies CharClass::Solid.has(#[trigger] whole[k]) by {
        assert(whole[k] == token[k]);
    }
    if rest.len() > 0 {
        assert(whole[m] == rest[0]);
    }
    lemma_run_end_is(whole, 0, m, CharClass::Solid);
    assert(whole.subrange(0, m) =~= token);
    lemma_tokens_shift(token, rest, 0);
}

/// White space before the next word holds no token.
proof fn lemma_tokens_skip(s: Seq<char>, from: int)
    requires
        0 <= from <= s.len(),
    ensures
        tokens_from(s, run_end(s, from, CharClass::Space)) == tokens_from(s, from),
    decreases s.len() - from,
{
    if from < s.len() && is_space(s[from]) {
        lemma_tokens_skip(s, from + 1);
    }
}

/// What `stripped_from` returns is empty or starts with the character at
/// `from`, where that is white space.
proof fn lemma_stripped_starts(s: Seq<char>, from: int, stops: Set<Seq<char>>)
    requires
        0 <= from <= s.len(),
        from < s.len() ==> is_space(s[from]),
    ensures
        stripped_from(s, from, stops).len() > 0 ==> is_space(stripped_from(s, from, stops)[0]),
{
}

/// The words of a text without its stop words are the words of the text that
/// are no stop words.
pub proof fn lemma_stripped_tokens(s: Seq<char>, from: int, stops: Set<Seq<char>>)
    requires
        0 <= from <= s.len(),
    ensures
        tokens(stripped_from(s, from, stops)) == kept(tokens_from(s, from), stops),
    decreases s.len() - from,
{
    if from < s.len() {
        if is_space(s[from]) {
            let rest = stripped_from(s, from + 1, stops);
            let head = seq![s[from]];
            lemma_stripped_tokens(s, from + 1, stops);
            lemma_tokens_shift(head, rest, 0);
            assert((head + rest)[0] == s[from]);
        } else {
            let end = run_end(s, from, CharClass::Solid);
            let after = run_end(s, end, CharClass::Space);
            lemma_run_end(s, from, CharClass::Solid);
            lemma_run_end(s, end, CharClass::Space);
            let token = s.subrange(from, end);
            let list = tokens_from(s, from);
            assert(list[0] == token);
            assert(list.skip(1) =~= tokens_from(s, end));
            if stops.contains(token) {
                lemma_stripped_tokens(s, after, stops);
                lemma_tokens_skip(s, end);
            } else {
                let rest = stripped_from(s, end, stops);
                lemma_stripped_tokens(s, end, stops);
                lemma_stripped_starts(s, end, stops);
                assert forall|k: int| 0 <= k < token.len() implies !is_space(
                    #[trigger] token[k],
                ) by {
                    assert(CharClass::Solid.has(s[from + k]));
                }
                lemma_tokens_of_token(token, rest);
            }
        }
    } else {
        assert(tokens(Seq::<char>::empty()) =~= Seq::<Seq<char>>::empty());
    }
}

/// What `stripped_from` returns is settled: a second pass would remove
/// nothing.
pub proof fn lemma_stripped_settled(s: Seq<char>, from: int, stops: Set<Seq<char>>)
    requires
        0 <= from <= s.len(),
    ensures
        settled_from(stripped_from(s, from, stops), 0, stops),
    decreases s.len() - from,
{
    if from < s.len() {
        if is_space(s[from]) {
            let rest = stripped_from(s, from + 1, stops);
            let head = seq![s[from]];
            lemma_stripped_settled(s, from + 1, stops);
            lemma_settled_shift(head, rest, 0, stops);
            assert((head + rest)[0] == s[from]);
        } else {
            let end = run_end(s, from, CharClass::Solid);
            let after = run_end(s, end, CharClass::Space);
            lemma_run_end(s, from, CharClass::Solid);
            lemma_run_end(s, end, CharClass::Space);
            let token = s.subrange(from, end);
            if stops.contains(token) {
                lemma_stripped_settled(s, after, stops);
            } else {
                let rest = stripped_from(s, end, stops);
                let whole = token + rest;
                let m = token.len() as int;
                lemma_stripped_settled(s, end, stops);
                lemma_stripped_starts(s, end, stops);
                lemma_settled_shift(token, rest, 0, stops);
                assert(whole[0] == s[from]);
                assert forall|k: int| 0 <= k < m implies CharClass::Solid.has(
                    #[trigger] whole[k],
                ) by {
                    assert(whole[k] == s[from + k]);
                }
                if rest.len() > 0 {
                    assert(whole[m] == rest[0]);
                }
                lemma_run_end_is(whole, 0, m, CharClass::Solid);
                assert(whole.subrange(0, m) =~= token);
            }
        }
    }
}

/// No word that is kept is a stop word.
pub proof fn lemma_kept_none(list: Seq<Seq<char>>, stops: Set<Seq<char>>, k: int)
    requires
        0 <= k < kept(list, stops).len(),
    ensures
        !stops.contains(kept(list, stops)[k]),
        list.contains(kept(list, stops)[k]),
    decreases list.len(),
{
    if list.len() > 0 {
        let rest = list.skip(1);
        if stops.contains(list[0]) {
            lemma_kept_none(rest, stops, k);
            let j = choose|j: int| 0 <= j < rest.len() && rest[j] == kept(list, stops)[k];
            assert(list[j + 1] == kept(list, stops)[k]);
        } else if k > 0 {
            lemma_kept_none(rest, stops, k - 1);
            let j = choose|j: int| 0 <= j < rest.len() && rest[j] == kept(rest, stops)[k - 1];
            assert(list[j + 1] == kept(list, stops)[k]);
        } else {
            assert(list[0] == kept(list, stops)[k]);
        }
    }
}

/// The tokens of a text are its words, after small letters and the collapse
/// of punctuation, without those that are stop words: order and number are
/// kept.
pub proof fn law_normalized_is_kept(text: Seq<char>, stops: Set<Seq<char>>)
    ensures
        normalized(text, stops) == kept(tokens(collapsed(lowered(text))), stops),
{
    lemma_stripped_tokens(collapsed(lowered(text)), 0, stops);
}

/// No token of a text is a stop word, wherever the word stood: at the start,
/// in the middle or at the very end.
pub proof fn law_no_stop_word_left(text: Seq<char>, stops: Set<Seq<char>>, k: int)
    requires
        0 <= k < normalized(text, stops).len(),
    ensures
        !stops.contains(normalized(text, stops)[k]),
{
    law_normalized_is_kept(text, stops);
    lemma_kept_none(tokens(collapsed(lowered(text))), stops, k);
}

/// A token is not empty and holds no white space.
pub proof fn law_tokens_solid(s: Seq<char>, from: int, k: int)
    requires
        0 <= from <= s.len(),
        0 <= k < tokens_from(s, from).len(),
    ensures
        tokens_from(s, from)[k].len() > 0,
        forall|i: int| 0 <= i < tokens_from(s, from)[k].len() ==> !is_space(
            #[trigger] tokens_from(s, from)[k][i],
        ),
        forall|i: int| 0 <= i < tokens_from(s, from)[k].len() ==> s.contains(
            #[trigger] tokens_from(s, from)[k][i],
        ),
    decreases s.len() - from,
{
    if from < s.len() {
        if is_space(s[from]) {
            law_tokens_solid(s, from + 1, k);
        } else {
            let end = run_end(s, from, CharClass::Solid);
            lemma_run_end(s, from, CharClass::Solid);
            if k > 0 {
                law_tokens_solid(s, end, k - 1);
            } else {
                let token = s.subrange(from, end);
                assert forall|i: int| 0 <= i < token.len() implies !is_space(#[trigger] token[i])
                    && s.contains(token[i]) by {
                    assert(CharClass::Solid.has(s[from + i]));
                    assert(s[from + i] == token[i]);
                }
            }
        }
    }
}

/// No token of a text holds white space or punctuation, and none is empty.
pub proof fn law_tokens_are_plain(text: Seq<char>, stops: Set<Seq<char>>, k: int)
    requires
        0 <= k < normalized(text, stops).len(),
    ensures
        normalized(text, stops)[k].len() > 0,
        forall|i: int|
            0 <= i < normalized(text, stops)[k].len() ==> !is_space(
                #[trigger] normalized(text, stops)[k][i],
            ) && !is_punct(normalized(text, stops)[k][i]),
{
    let clean = cleaned(text, stops);
    lemma_cleaned_is_clean(text, stops);
    law_tokens_solid(clean, 0, k);
    let token = tokens(clean)[k];
    assert forall|i: int| 0 <= i < token.len() implies !is_space(#[trigger] token[i])
        && !is_punct(token[i]) by {
        assert(clean.contains(token[i]));
        let j = choose|j: int| 0 <= j < clean.len() && clean[j] == token[i];
        assert(!is_punct(clean[j]));
    }
}

/// The cleaned text has no punctuation left, and no stop word.
pub proof fn lemma_cleaned_is_clean(text: Seq<char>, stops: Set<Seq<char>>)
    ensures
        tidy(cleaned(text, stops)),
        settled_from(cleaned(text, stops), 0, stops),
{
    let small = lowered(text);
    lemma_collapsed_tidy(small, 0);
    let spaced = collapsed(small);
    lemma_stripped_tidy(spaced, 0, stops);
    lemma_stripped_settled(spaced, 0, stops);
}

/// The collapse of punctuation and the removal of stop words are idempotent:
/// done a second time they change nothing.
pub proof fn law_settle_idempotent(text: Seq<char>, stops: Set<Seq<char>>)
    ensures
        stripped(collapsed(stripped(collapsed(text), stops)), stops) == stripped(
            collapsed(text),
            stops,
        ),
{
    let spaced = collapsed(text);
    let once = stripped(spaced, stops);
    lemma_collapsed_tidy(text, 0);
    lemma_stripped_tidy(spaced, 0, stops);
    lemma_stripped_settled(spaced, 0, stops);
    lemma_collapsed_fixed(once, 0);
    assert(once.subrange(0, once.len() as int) =~= once);
    lemma_settled_fixed(once, 0, stops);
}

/// Cleaning is idempotent: cleaning a cleaned text changes nothing, where
/// the small letters of the cleaned text are the cleaned text itself. Stop
/// words and punctuation that were removed do not come back. Whether small
/// letters stay as they are is `str::to_lowercase`'s to say.
pub proof fn law_clean_idempotent(text: Seq<char>, stops: Set<Seq<char>>)
    ensures
        lowered(cleaned(text, stops)) == cleaned(text, stops) ==> cleaned(
            cleaned(text, stops),
            stops,
        ) == cleaned(text, stops),
{
    let once = cleaned(text, stops);
    lemma_cleaned_is_clean(text, stops);
    lemma_collapsed_fixed(once, 0);
    assert(once.subrange(0, once.len() as int) =~= once);
    lemma_settled_fixed(once, 0, stops);
}

/// Normalizing a text that was cleaned already gives the tokens of the text
/// itself, where the small letters of the cleaned text are the cleaned text.
pub proof fn law_normalize_idempotent(text: Seq<char>, stops: Set<Seq<char>>)
    ensures
        lowered(cleaned(text, stops)) == cleaned(text, stops) ==> normalized(
            cleaned(text, stops),
            stops,
        ) == normalized(text, stops),
{
    law_clean_idempotent(text, stops);
}

} // verus!
