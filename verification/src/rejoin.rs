//! Normalizing what was normalized: the tokens of a text, joined with spaces
//! and normalized again, are the same tokens.

use crate::chars::{is_punct, is_space, lemma_run_end, run_end, CharClass};
use crate::normalize::{
    cleaned, lemma_cleaned_is_clean, lemma_collapsed_fixed, lemma_run_end_is, lemma_settled_fixed,
    lemma_settled_shift, lemma_tokens_of_token, lemma_tokens_shift, lowered, normalized,
    settled_from, tidy, tokens, tokens_from,
};
use crate::text::joined;
use vstd::prelude::*;

verus! {

/// The parts with one space between each two, taken from the first part on.
spec fn glued(parts: Seq<Seq<char>>) -> Seq<char>
    decreases parts.len(),
{
    if parts.len() == 0 {
        Seq::empty()
    } else if parts.len() == 1 {
        parts[0]
    } else {
        parts[0] + seq![' '] + glued(parts.skip(1))
    }
}

proof fn lemma_glued_push(parts: Seq<Seq<char>>, last: Seq<char>)
    requires
        parts.len() > 0,
    ensures
        glued(parts.push(last)) == glued(parts) + seq![' '] + last,
    decreases parts.len(),
{
    let all = parts.push(last);
    if parts.len() == 1 {
        assert(all.skip(1) =~= seq![last]);
        assert(glued(all.skip(1)) == last);
    } else {
        lemma_glued_push(parts.skip(1), last);
        assert(all.skip(1) =~= parts.skip(1).push(last));
        assert(parts[0] + seq![' '] + (glued(parts.skip(1)) + seq![' '] + last) =~= parts[0]
            + seq![' '] + glued(parts.skip(1)) + seq![' '] + last);
    }
}

proof fn lemma_glued_is_joined(parts: Seq<Seq<char>>)
    ensures
        glued(parts) == joined(parts),
    decreases parts.len(),
{
    if parts.len() > 1 {
        let front = parts.drop_last();
        lemma_glued_is_joined(front);
        lemma_glued_push(front, parts.last());
        assert(front.push(parts.last()) =~= parts);
    }
}

/// The tokens of `s[from..]`, joined, have these very tokens, and are tidy
/// and settled where `s` is.
proof fn lemma_glued_tokens(s: Seq<char>, from: int, stops: Set<Seq<char>>)
    requires
        0 <= from <= s.len(),
    ensures
        tokens(glued(tokens_from(s, from))) == tokens_from(s, from),
        tidy(s) ==> tidy(glued(tokens_from(s, from))),
        settled_from(s, from, stops) ==> settled_from(glued(tokens_from(s, from)), 0, stops),
    decreases s.len() - from,
{
    if from < s.len() {
        if is_space(s[from]) {
            lemma_glued_tokens(s, from + 1, stops);
        } else {
            let end = run_end(s, from, CharClass::Solid);
            lemma_run_end(s, from, CharClass::Solid);
            let token = s.subrange(from, end);
            let rest = tokens_from(s, end);
            let list = seq![token] + rest;
            let m = token.len() as int;
            lemma_glued_tokens(s, end, stops);
            assert(list[0] == token);
            assert(list.skip(1) =~= rest);
            assert forall|k: int| 0 <= k < m implies !is_space(#[trigger] token[k]) by {
                assert(CharClass::Solid.has(s[from + k]));
            }
            let tail = if rest.len() == 0 {
                Seq::<char>::empty()
            } else {
                seq![' '] + glued(rest)
            };
            let whole = glued(list);
            assert(whole =~= token + tail);
            lemma_tokens_of_token(token, tail);
            if rest.len() == 0 {
                assert(tokens(tail) =~= Seq::<Seq<char>>::empty());
                assert(glued(rest) =~= Seq::<char>::empty());
            } else {
                assert(tail[0] == ' ');
                lemma_tokens_shift(seq![' '], glued(rest), 0);
            }
            assert forall|k: int| 0 <= k < m implies CharClass::Solid.has(
                #[trigger] whole[k],
            ) by {
                assert(whole[k] == token[k]);
            }
            if tail.len() > 0 {
                assert(whole[m] == ' ');
            }
            lemma_run_end_is(whole, 0, m, CharClass::Solid);
            assert(whole.subrange(0, m) =~= token);
            if settled_from(s, from, stops) {
                assert(!stops.contains(token));
                assert(settled_from(s, end, stops));
                assert(settled_from(glued(rest), 0, stops));
                if rest.len() > 0 {
                    let front = token + seq![' '];
                    lemma_settled_shift(front, glued(rest), 0, stops);
                    assert(front + glued(rest) =~= whole);
                    assert(front.len() == m + 1);
                    assert(settled_from(whole, m + 1, stops));
                    assert(is_space(whole[m]));
                    assert(settled_from(whole, m, stops));
                } else {
                    assert(whole.len() == m);
                    assert(settled_from(whole, m, stops));
                }
                assert(!is_space(whole[0]));
                assert(run_end(whole, 0, CharClass::Solid) == m);
                assert(settled_from(whole, 0, stops));
            }
            if tidy(s) {
                assert forall|i: int| 0 <= i < whole.len() implies !is_punct(
                    #[trigger] whole[i],
                ) by {
                    if i < m {
                        assert(whole[i] == s[from + i]);
                    } else if i > m {
                        assert(whole[i] == glued(rest)[i - m - 1]);
                    }
                }
            }
        }
    } else {
        assert(glued(tokens_from(s, from)) =~= Seq::<char>::empty());
    }
}

/// Normalizing is idempotent: the tokens of a text, joined with one space
/// between each two and normalized again, are the same tokens, where the
/// small letters of the joined tokens are the joined tokens themselves. Stop
/// words and punctuation that were removed do not come back. Whether small
/// letters stay as they are is `str::to_lowercase`'s to say.
pub proof fn law_normalize_joined(text: Seq<char>, stops: Set<Seq<char>>)
    ensures
        lowered(joined(normalized(text, stops))) == joined(normalized(text, stops)) ==> normalized(
            joined(normalized(text, stops)),
            stops,
        ) == normalized(text, stops),
{
    let clean = cleaned(text, stops);
    let list = tokens(clean);
    let again = joined(list);
    lemma_cleaned_is_clean(text, stops);
    lemma_glued_tokens(clean, 0, stops);
    lemma_glued_is_joined(list);
    lemma_collapsed_fixed(again, 0);
    assert(again.subrange(0, again.len() as int) =~= again);
    lemma_settled_fixed(again, 0, stops);
}

} // verus!
