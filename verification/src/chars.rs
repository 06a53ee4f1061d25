//! Character classes and the passage between strings and character vectors.
//!
//! Every text function of this crate is stated over `Seq<char>`, the view of a
//! `str`. The executable code works on `Vec<char>`, which it can index in
//! constant time.

use vstd::prelude::*;

verus! {

/// White space as Unicode defines it (the property `White_Space`).
pub open spec fn is_space(c: char) -> bool {
    let n = c as u32;
    ||| 0x09 <= n <= 0x0D
    ||| n == 0x20
    ||| n == 0x85
    ||| n == 0xA0
    ||| n == 0x1680
    ||| 0x2000 <= n <= 0x200A
    ||| n == 0x2028
    ||| n == 0x2029
    ||| n == 0x202F
    ||| n == 0x205F
    ||| n == 0x3000
}

/// ASCII punctuation: `!` to `/`, `:` to `@`, `[` to `` ` ``, `{` to `~`.
pub open spec fn is_punct(c: char) -> bool {
    let n = c as u32;
    ||| 0x21 <= n <= 0x2F
    ||| 0x3A <= n <= 0x40
    ||| 0x5B <= n <= 0x60
    ||| 0x7B <= n <= 0x7E
}

/// Whether `c` is white space.
pub fn is_whitespace(c: char) -> (b: bool)
    ensures
        b == is_space(c),
{
    let n: u32 = c as u32;
    (0x09 <= n && n <= 0x0D) || n == 0x20 || n == 0x85 || n == 0xA0 || n == 0x1680 || (0x2000 <= n
        && n <= 0x200A) || n == 0x2028 || n == 0x2029 || n == 0x202F || n == 0x205F || n == 0x3000
}

/// Whether `c` is ASCII punctuation.
pub fn is_punctuation(c: char) -> (b: bool)
    ensures
        b == is_punct(c),
{
    let n: u32 = c as u32;
    (0x21 <= n && n <= 0x2F) || (0x3A <= n && n <= 0x40) || (0x5B <= n && n <= 0x60) || (0x7B <= n
        && n <= 0x7E)
}

/// What `str::to_lowercase` returns: the text in small letters as Unicode
/// defines them.
pub uninterp spec fn unicode_lowered(text: Seq<char>) -> Seq<char>;

/// Calls `str::to_lowercase`. The contract names the result.
#[verifier::external_body]
pub(crate) fn to_lowercase(text: &str) -> (lowered: String)
    ensures
        lowered@ == unicode_lowered(text@),
{
    text.to_lowercase()
}

/// The characters of `s`, in order.
pub fn chars_of(s: &str) -> (v: Vec<char>)
    ensures
        v@ == s@,
{
    let mut v: Vec<char> = Vec::new();
    for c in it: s.chars()
        invariant
            it.seq() == s@,
            v@ == it.seq().take(it.index()),
    {
        v.push(c);
    }
    v
}

/// Calls `String::push`, which appends one character.
#[verifier::external_body]
fn push_char(s: &mut String, c: char)
    ensures
        final(s)@ == old(s)@.push(c),
{
    s.push(c)
}

/// The string made of the characters `v[from..to]`.
pub fn string_of_range(v: &Vec<char>, from: usize, to: usize) -> (s: String)
    requires
        from <= to <= v.len(),
    ensures
        s@ == v@.subrange(from as int, to as int),
{
    let mut s = String::new();
    let mut i: usize = from;
    while i < to
        invariant
            from <= i <= to <= v.len(),
            s@ == v@.subrange(from as int, i as int),
        decreases to - i,
    {
        push_char(&mut s, v[i]);
        i += 1;
    }
    s
}

/// The string made of the characters of `v`.
pub fn string_of(v: &Vec<char>) -> (s: String)
    ensures
        s@ == v@,
{
    let s = string_of_range(v, 0, v.len());
    assert(v@.subrange(0, v.len() as int) == v@);
    s
}

/// The views of a list of strings.
pub open spec fn views(list: Seq<String>) -> Seq<Seq<char>> {
    list.map_values(|s: String| s@)
}

/// The classes of characters that the text functions tell apart.
#[derive(Clone, Copy, Debug)]
pub enum CharClass {
    /// White space.
    Space,
    /// ASCII punctuation.
    Punct,
    /// Everything but white space.
    Solid,
    /// What may stand between square brackets: everything but `]` and a line
    /// feed.
    Cited,
    /// Everything but a line feed.
    Line,
    /// What may stand in the path of an address: everything but `?` and `#`.
    Path,
}

impl CharClass {
    /// Whether `c` belongs to the class.
    pub open spec fn has(self, c: char) -> bool {
        match self {
            CharClass::Space => is_space(c),
            CharClass::Punct => is_punct(c),
            CharClass::Solid => !is_space(c),
            CharClass::Cited => c != ']' && c != '\n',
            CharClass::Line => c != '\n',
            CharClass::Path => c != '?' && c != '#',
        }
    }

    /// Whether `c` belongs to the class.
    pub fn holds(self, c: char) -> (b: bool)
        ensures
            b == self.has(c),
    {
        match self {
            CharClass::Space => is_whitespace(c),
            CharClass::Punct => is_punctuation(c),
            CharClass::Solid => !is_whitespace(c),
            CharClass::Cited => c != ']' && c != '\n',
            CharClass::Line => c != '\n',
            CharClass::Path => c != '?' && c != '#',
        }
    }
}

/// The index of the first character at or after `from` that is not of `class`,
/// or the length of `s` where every character from `from` on is.
pub open spec fn run_end(s: Seq<char>, from: int, class: CharClass) -> int
    decreases s.len() - from,
{
    if 0 <= from < s.len() && class.has(s[from]) {
        run_end(s, from + 1, class)
    } else {
        from
    }
}

/// `run_end` stops at the end of the maximal run that starts at `from`.
pub proof fn lemma_run_end(s: Seq<char>, from: int, class: CharClass)
    requires
        0 <= from <= s.len(),
    ensures
        from <= run_end(s, from, class) <= s.len(),
        forall|k: int| from <= k < run_end(s, from, class) ==> class.has(#[trigger] s[k]),
        run_end(s, from, class) < s.len() ==> !class.has(s[run_end(s, from, class)]),
    decreases s.len() - from,
{
    if from < s.len() && class.has(s[from]) {
        lemma_run_end(s, from + 1, class);
    }
}

/// A run that starts inside another ends where the other ends.
pub proof fn lemma_run_end_inside(s: Seq<char>, from: int, mid: int, class: CharClass)
    requires
        0 <= from <= mid <= run_end(s, from, class),
        from <= s.len(),
    ensures
        run_end(s, mid, class) == run_end(s, from, class),
    decreases mid - from,
{
    lemma_run_end(s, from, class);
    if from < mid {
        lemma_run_end_inside(s, from + 1, mid, class);
    }
}

/// The end of the run of `class` characters of `v` that starts at `from`.
pub fn scan_run(v: &Vec<char>, from: usize, class: CharClass) -> (end: usize)
    requires
        from <= v.len(),
    ensures
        end == run_end(v@, from as int, class),
{
    let mut i: usize = from;
    while i < v.len() && class.holds(v[i])
        invariant
            from <= i <= v.len(),
            run_end(v@, i as int, class) == run_end(v@, from as int, class),
        decreases v.len() - i,
    {
        i += 1;
    }
    i
}

} // verus!
