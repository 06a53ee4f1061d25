//! Trimming, joining and the removal of bracketed spans.

use crate::chars::{
    chars_of, is_space, is_whitespace, lemma_run_end, lemma_run_end_inside, run_end, scan_run,
    views, CharClass,
};
use vstd::prelude::*;

verus! {

/// The length of `s` without the white space at its end.
pub open spec fn trim_end(s: Seq<char>) -> int
    decreases s.len(),
{
    if s.len() > 0 && is_space(s.last()) {
        trim_end(s.drop_last())
    } else {
        s.len() as int
    }
}

/// `s` without the white space at its start and at its end.
pub open spec fn trimmed(s: Seq<char>) -> Seq<char> {
    let start = run_end(s, 0, CharClass::Space);
    let end = trim_end(s);
    if start < end {
        s.subrange(start, end)
    } else {
        Seq::empty()
    }
}

/// The parts with one space between each two.
pub open spec fn joined(parts: Seq<Seq<char>>) -> Seq<char>
    decreases parts.len(),
{
    if parts.len() == 0 {
        Seq::empty()
    } else if parts.len() == 1 {
        parts[0]
    } else {
        joined(parts.drop_last()) + seq![' '] + parts.last()
    }
}

/// `s[from..]` with every bracketed span replaced by one space. A span starts
/// at a `[` and ends at the first `]` behind it; it holds no line feed. A `[`
/// with a line feed before the next `]`, or with no `]` behind it, starts
/// none.
pub open spec fn unbracketed_from(s: Seq<char>, from: int) -> Seq<char>
    decreases s.len() - from,
{
    if from < 0 || from >= s.len() {
        Seq::empty()
    } else {
        let close = run_end(s, from + 1, CharClass::Cited);
        proof {
            lemma_run_end(s, from + 1, CharClass::Cited);
        }
        if s[from] == '[' && close < s.len() && s[close] == ']' {
            seq![' '] + unbracketed_from(s, close + 1)
        } else {
            seq![s[from]] + unbracketed_from(s, from + 1)
        }
    }
}

/// `s` with every bracketed span replaced by one space.
pub open spec fn unbracketed(s: Seq<char>) -> Seq<char> {
    unbracketed_from(s, 0)
}

/// The bounds of `v` without the white space at its two ends; the second is
/// not above the first where `v` holds nothing else.
pub fn trim_bounds(v: &Vec<char>) -> (bounds: (usize, usize))
    ensures
        bounds.0 == run_end(v@, 0, CharClass::Space),
        bounds.1 == trim_end(v@),
        bounds.0 <= v.len(),
        bounds.1 <= v.len(),
{
    let start = scan_run(v, 0, CharClass::Space);
    proof {
        lemma_run_end(v@, 0, CharClass::Space);
    }
    let mut end: usize = v.len();
    assert(v@.take(end as int) == v@);
    while end > 0 && is_whitespace(v[end - 1])
        invariant
            end <= v.len(),
            trim_end(v@.take(end as int)) == trim_end(v@),
        decreases end,
    {
        assert(v@.take(end as int).drop_last() == v@.take(end - 1));
        end -= 1;
    }
    (start, end)
}

/// `v` without the white space at its start and at its end.
pub fn trim(v: &Vec<char>) -> (r: Vec<char>)
    ensures
        r@ == trimmed(v@),
{
    let (start, end) = trim_bounds(v);
    let mut r: Vec<char> = Vec::new();
    if start < end {
        let mut i: usize = start;
        while i < end
            invariant
                start <= i <= end <= v.len(),
                r@ == v@.subrange(start as int, i as int),
            decreases end - i,
        {
            r.push(v[i]);
            i += 1;
        }
    }
    r
}

/// Whether `v` holds anything but white space.
pub fn has_content(v: &Vec<char>) -> (filled: bool)
    ensures
        filled == (trimmed(v@).len() > 0),
{
    let (start, end) = trim_bounds(v);
    start < end
}

/// The first `count` strings of `parts` with one space between each two.
pub fn join_first(parts: &Vec<String>, count: usize) -> (r: Vec<char>)
    requires
        count <= parts.len(),
    ensures
        r@ == joined(views(parts@).take(count as int)),
{
    let ghost all = views(parts@);
    let mut r: Vec<char> = Vec::new();
    let mut i: usize = 0;
    while i < count
        invariant
            i <= count <= parts.len(),
            all == views(parts@),
            r@ == joined(all.take(i as int)),
        decreases count - i,
    {
        let ghost before = r@;
        if i > 0 {
            r.push(' ');
        }
        let part = chars_of(parts[i].as_str());
        let mut k: usize = 0;
        while k < part.len()
            invariant
                k <= part.len(),
                r@ == before + (if i > 0 {
                    seq![' ']
                } else {
                    Seq::<char>::empty()
                }) + part@.take(k as int),
            decreases part.len() - k,
        {
            r.push(part[k]);
            k += 1;
        }
        proof {
            assert(all.take(i + 1).drop_last() == all.take(i as int));
        }
        i += 1;
    }
    r
}

/// Where no span starts at `from`, none starts before the place at which the
/// search for its end stopped: the text up to there stays as it is.
proof fn lemma_no_span(s: Seq<char>, from: int, at: int)
    requires
        0 <= from <= at <= run_end(s, from + 1, CharClass::Cited),
        from < s.len(),
        !(run_end(s, from + 1, CharClass::Cited) < s.len() && s[run_end(
            s,
            from + 1,
            CharClass::Cited,
        )] == ']'),
    ensures
        unbracketed_from(s, at) == s.subrange(at, run_end(s, from + 1, CharClass::Cited))
            + unbracketed_from(s, run_end(s, from + 1, CharClass::Cited)),
    decreases run_end(s, from + 1, CharClass::Cited) - at,
{
    let stop = run_end(s, from + 1, CharClass::Cited);
    lemma_run_end(s, from + 1, CharClass::Cited);
    if at < stop {
        lemma_run_end_inside(s, from + 1, at + 1, CharClass::Cited);
        lemma_no_span(s, from, at + 1);
    }
}

/// `v` with every bracketed span replaced by one space.
pub fn strip_brackets(v: &Vec<char>) -> (r: Vec<char>)
    ensures
        r@ == unbracketed(v@),
{
    let mut r: Vec<char> = Vec::new();
    let mut i: usize = 0;
    while i < v.len()
        invariant
            i <= v.len(),
            r@ + unbracketed_from(v@, i as int) == unbracketed(v@),
        decreases v.len() - i,
    {
        let ghost before = r@;
        if v[i] == '[' {
            let close = scan_run(v, i + 1, CharClass::Cited);
            proof {
                lemma_run_end(v@, i + 1, CharClass::Cited);
            }
            if close < v.len() && v[close] == ']' {
                r.push(' ');
                i = close + 1;
            } else {
                let mut k: usize = i;
                while k < close
                    invariant
                        i <= k <= close <= v.len(),
                        r@ == before + v@.subrange(i as int, k as int),
                    decreases close - k,
                {
                    r.push(v[k]);
                    k += 1;
                }
                proof {
                    lemma_no_span(v@, i as int, i as int);
                }
                i = close;
            }
        } else {
            r.push(v[i]);
            i += 1;
        }
    }
    r
}

} // verus!
