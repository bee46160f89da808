//! Character-level helpers shared by the tokenizer and the execution engine:
//! character classes, forward and backward scans, trimming, and conversions
//! between `String` and `Vec<char>`.
//!
//! All positions are indices into a sequence of characters, never byte offsets.

use vstd::prelude::*;

verus! {

/// What `char::is_whitespace` returns for `c`: whether `c` has the Unicode property
/// `White_Space`.
pub uninterp spec fn unicode_whitespace(c: char) -> bool;

/// What `char::is_alphanumeric` returns for `c`: whether `c` is alphabetic or numeric in
/// the Unicode sense.
pub uninterp spec fn unicode_alphanumeric(c: char) -> bool;

/// Whether `c` is one of the first 128 characters.
pub open spec fn ascii_char(c: char) -> bool {
    (c as u32) < 128
}

/// Whether `c` is whitespace. Of the first 128 characters these are the space and the
/// five from the tabulator to the carriage return; of the others, those that Unicode
/// gives the property `White_Space`.
pub open spec fn whitespace_char(c: char) -> bool {
    if ascii_char(c) {
        c == ' ' || ('\t' <= c && c <= '\r')
    } else {
        unicode_whitespace(c)
    }
}

/// Whether `c` is a letter or a digit. Of the first 128 characters these are `a` to `z`,
/// `A` to `Z` and `0` to `9`; of the others, those that Unicode has as alphabetic or
/// numeric.
pub open spec fn alphanumeric_char(c: char) -> bool {
    if ascii_char(c) {
        ('a' <= c && c <= 'z') || ('A' <= c && c <= 'Z') || ('0' <= c && c <= '9')
    } else {
        unicode_alphanumeric(c)
    }
}

/// Calls `char::is_whitespace`. The result is given the name `unicode_whitespace`; the
/// Unicode table behind it is not restated. Of the first 128 characters the contract
/// says which are whitespace: the space, and U+0009 to U+000D.
#[verifier::external_body]
pub(crate) fn is_whitespace(c: char) -> (b: bool)
    ensures
        b == unicode_whitespace(c),
        b == whitespace_char(c),
{
    c.is_whitespace()
}

/// Calls `char::is_alphanumeric`. The result is given the name `unicode_alphanumeric`;
/// the Unicode tables behind it are not restated. Of the first 128 characters the
/// contract says which are alphanumeric: the letters and the digits.
#[verifier::external_body]
pub(crate) fn is_alphanumeric(c: char) -> (b: bool)
    ensures
        b == unicode_alphanumeric(c),
        b == alphanumeric_char(c),
{
    c.is_alphanumeric()
}

/// `String::push` appends one character at the end of the string.
pub assume_specification[ std::string::String::push ](s: &mut std::string::String, c: char)
    ensures
        final(s)@ == old(s)@.push(c),
;

/// A decimal digit, `0` to `9`.
pub open spec fn digit_char(c: char) -> bool {
    '0' <= c && c <= '9'
}

/// Whether `c` is a decimal digit.
pub fn is_digit(c: char) -> (b: bool)
    ensures
        b == digit_char(c),
{
    '0' <= c && c <= '9'
}

/// The first position at or after `pos` whose character does not satisfy `pred`,
/// or the length of `s` when every remaining character satisfies it.
pub open spec fn scan_while(s: Seq<char>, pos: int, pred: spec_fn(char) -> bool) -> int
    decreases s.len() - pos,
{
    if 0 <= pos < s.len() && pred(s[pos]) {
        scan_while(s, pos + 1, pred)
    } else {
        pos
    }
}

/// The smallest position `e` in `lo..=hi` such that every character of `s` in `e..hi`
/// satisfies `pred`.
pub open spec fn scan_back_while(s: Seq<char>, lo: int, hi: int, pred: spec_fn(char) -> bool) -> int
    decreases hi - lo,
{
    if lo < hi <= s.len() && pred(s[hi - 1]) {
        scan_back_while(s, lo, hi - 1, pred)
    } else {
        hi
    }
}

/// What `scan_while` returns lies between the start and the end of the text, everything
/// it passed over satisfies the predicate, and the character it stopped at does not.
pub proof fn lemma_scan_while(s: Seq<char>, pos: int, pred: spec_fn(char) -> bool)
    requires
        0 <= pos <= s.len(),
    ensures
        pos <= scan_while(s, pos, pred) <= s.len(),
        forall|i: int| pos <= i < scan_while(s, pos, pred) ==> pred(#[trigger] s[i]),
        scan_while(s, pos, pred) < s.len() ==> !pred(s[scan_while(s, pos, pred)]),
    decreases s.len() - pos,
{
    if pos < s.len() && pred(s[pos]) {
        lemma_scan_while(s, pos + 1, pred);
    }
}

/// A scan never moves backward.
pub proof fn lemma_scan_while_forward(s: Seq<char>, pos: int, pred: spec_fn(char) -> bool)
    ensures
        pos <= scan_while(s, pos, pred),
    decreases s.len() - pos,
{
    if 0 <= pos < s.len() && pred(s[pos]) {
        lemma_scan_while_forward(s, pos + 1, pred);
    }
}

/// A position that is reached over characters satisfying the predicate, and at which the
/// scan cannot go on, is the one `scan_while` returns.
pub proof fn lemma_scan_while_stops(s: Seq<char>, pos: int, end: int, pred: spec_fn(char) -> bool)
    requires
        0 <= pos <= end <= s.len(),
        forall|i: int| pos <= i < end ==> pred(#[trigger] s[i]),
        end < s.len() ==> !pred(s[end]),
    ensures
        scan_while(s, pos, pred) == end,
    decreases end - pos,
{
    if pos < end {
        lemma_scan_while_stops(s, pos + 1, end, pred);
    }
}

/// The counterpart of `lemma_scan_while` for the backward scan.
pub proof fn lemma_scan_back_while(s: Seq<char>, lo: int, hi: int, pred: spec_fn(char) -> bool)
    requires
        0 <= lo <= hi <= s.len(),
    ensures
        lo <= scan_back_while(s, lo, hi, pred) <= hi,
        forall|i: int| scan_back_while(s, lo, hi, pred) <= i < hi ==> pred(#[trigger] s[i]),
        lo < scan_back_while(s, lo, hi, pred) ==> !pred(s[scan_back_while(s, lo, hi, pred) - 1]),
    decreases hi - lo,
{
    if lo < hi && pred(s[hi - 1]) {
        lemma_scan_back_while(s, lo, hi - 1, pred);
    }
}

/// The counterpart of `lemma_scan_while_stops` for the backward scan.
pub proof fn lemma_scan_back_while_stops(
    s: Seq<char>,
    lo: int,
    end: int,
    hi: int,
    pred: spec_fn(char) -> bool,
)
    requires
        0 <= lo <= end <= hi <= s.len(),
        forall|i: int| end <= i < hi ==> pred(#[trigger] s[i]),
        lo < end ==> !pred(s[end - 1]),
    ensures
        scan_back_while(s, lo, hi, pred) == end,
    decreases hi - end,
{
    if end < hi {
        lemma_scan_back_while_stops(s, lo, end, hi - 1, pred);
    }
}

/// The class of whitespace characters.
pub open spec fn spaces() -> spec_fn(char) -> bool {
    |c: char| whitespace_char(c)
}

/// The class of all characters but `target`.
pub open spec fn other_than(target: char) -> spec_fn(char) -> bool {
    |c: char| c != target
}

/// The position of the first character at or after `pos` that is not whitespace; the
/// length of `s` when there is none.
pub open spec fn skip_spaces(s: Seq<char>, pos: int) -> int {
    scan_while(s, pos, spaces())
}

/// The first position at or after `pos` that holds `target`, or the length of `s` when
/// there is none.
pub open spec fn find_char(s: Seq<char>, pos: int, target: char) -> int {
    scan_while(s, pos, other_than(target))
}

/// Where the text that is left of `s[lo..hi]` starts once leading whitespace is dropped.
pub open spec fn trim_start(s: Seq<char>, lo: int, hi: int) -> int {
    skip_spaces(s.subrange(0, hi), lo)
}

/// Where the text that is left of `s[lo..hi]` ends once surrounding whitespace is dropped.
pub open spec fn trim_end(s: Seq<char>, lo: int, hi: int) -> int {
    scan_back_while(s, trim_start(s, lo, hi), hi, spaces())
}

/// `s[lo..hi]` without its leading and trailing whitespace.
pub open spec fn trimmed(s: Seq<char>, lo: int, hi: int) -> Seq<char> {
    s.subrange(trim_start(s, lo, hi), trim_end(s, lo, hi))
}

/// The whole of `s` without its leading and trailing whitespace.
pub open spec fn trim(s: Seq<char>) -> Seq<char> {
    trimmed(s, 0, s.len() as int)
}

/// The bounds of the trimmed text lie inside the bounds of the text that was trimmed.
pub proof fn lemma_trim_bounds(s: Seq<char>, lo: int, hi: int)
    requires
        0 <= lo <= hi <= s.len(),
    ensures
        lo <= trim_start(s, lo, hi) <= trim_end(s, lo, hi) <= hi,
{
    lemma_scan_while(s.subrange(0, hi), lo, spaces());
    lemma_scan_back_while(s, trim_start(s, lo, hi), hi, spaces());
}

/// Whether `part` is `whole[from..to]`.
pub open spec fn is_range_of(part: Seq<char>, whole: Seq<char>, from: int, to: int) -> bool {
    0 <= from <= to <= whole.len() && part == whole.subrange(from, to)
}

/// Whether `part` is a run of consecutive characters of `whole`.
pub open spec fn is_fragment(part: Seq<char>, whole: Seq<char>) -> bool {
    exists|from: int, to: int| is_range_of(part, whole, from, to)
}

/// A fragment of a fragment of a text is a fragment of that text.
pub proof fn lemma_fragment_of_fragment(inner: Seq<char>, middle: Seq<char>, whole: Seq<char>)
    requires
        is_fragment(inner, middle),
        is_fragment(middle, whole),
    ensures
        is_fragment(inner, whole),
{
    let (a, b) = choose|a: int, b: int| is_range_of(inner, middle, a, b);
    let (c, d) = choose|c: int, d: int| is_range_of(middle, whole, c, d);
    assert(whole.subrange(c, d).subrange(a, b) == whole.subrange(c + a, c + b));
    assert(is_range_of(inner, whole, c + a, c + b));
}

/// What trimming leaves of a range of a text is a fragment of that text.
pub proof fn lemma_trimmed_is_fragment(s: Seq<char>, lo: int, hi: int)
    requires
        0 <= lo <= hi <= s.len(),
    ensures
        is_fragment(trimmed(s, lo, hi), s),
{
    lemma_trim_bounds(s, lo, hi);
    assert(is_range_of(trimmed(s, lo, hi), s, trim_start(s, lo, hi), trim_end(s, lo, hi)));
}

/// Whether `pattern` stands in `s` at position `pos`.
pub open spec fn has_prefix_at(s: Seq<char>, pos: int, pattern: Seq<char>) -> bool {
    &&& 0 <= pos
    &&& pos + pattern.len() <= s.len()
    &&& s.subrange(pos, pos + pattern.len()) == pattern
}

/// The characters of a string slice, in order.
pub fn to_chars(s: &str) -> (v: Vec<char>)
    ensures
        v@ == s@,
{
    let mut v: Vec<char> = Vec::new();
    for c in it: s.chars()
        invariant
            it.seq() == s@,
            v@ == s@.take(it.index()),
    {
        v.push(c);
    }
    assert(s@.take(s@.len() as int) == s@);
    v
}

/// The string made of the characters `v[from..to]`.
pub fn to_text(v: &Vec<char>, from: usize, to: usize) -> (s: String)
    requires
        from <= to <= v.len(),
    ensures
        s@ == v@.subrange(from as int, to as int),
{
    let mut s = String::new();
    let mut i: usize = from;
    while i < to
        invariant
            from <= i <= to <= v.len(),
            s@ == v@.subrange(from as int, i as int),
        decreases to - i,
    {
        s.push(v[i]);
        i += 1;
    }
    s
}

/// Appends the characters of `v` to `out`.
pub fn append_chars(out: &mut String, v: &Vec<char>)
    ensures
        final(out)@ == old(out)@ + v@,
{
    let mut i: usize = 0;
    while i < v.len()
        invariant
            i <= v.len(),
            out@ == old(out)@ + v@.subrange(0, i as int),
        decreases v.len() - i,
    {
        out.push(v[i]);
        i += 1;
    }
    assert(v@.subrange(0, v.len() as int) == v@);
}

/// Moves past whitespace, starting at `pos`.
pub fn skip_whitespace_from(v: &Vec<char>, pos: usize) -> (end: usize)
    requires
        pos <= v.len(),
    ensures
        end == skip_spaces(v@, pos as int),
        pos <= end <= v.len(),
{
    let mut i: usize = pos;
    while i < v.len() && is_whitespace(v[i])
        invariant
            pos <= i <= v.len(),
            forall|k: int| pos <= k < i ==> whitespace_char(#[trigger] v@[k]),
        decreases v.len() - i,
    {
        i += 1;
    }
    proof {
        lemma_scan_while_stops(v@, pos as int, i as int, spaces());
    }
    i
}

/// Finds the first `target` at or after `pos`; the length of `v` when there is none.
pub fn find_from(v: &Vec<char>, pos: usize, target: char) -> (end: usize)
    requires
        pos <= v.len(),
    ensures
        end == find_char(v@, pos as int, target),
        pos <= end <= v.len(),
        end < v.len() ==> v@[end as int] == target,
{
    let mut i: usize = pos;
    while i < v.len() && v[i] != target
        invariant
            pos <= i <= v.len(),
            forall|k: int| pos <= k < i ==> #[trigger] v@[k] != target,
        decreases v.len() - i,
    {
        i += 1;
    }
    proof {
        lemma_scan_while_stops(v@, pos as int, i as int, other_than(target));
    }
    i
}

/// The bounds of `v[lo..hi]` once its leading and trailing whitespace is dropped.
pub fn trim_range(v: &Vec<char>, lo: usize, hi: usize) -> (r: (usize, usize))
    requires
        lo <= hi <= v.len(),
    ensures
        r.0 == trim_start(v@, lo as int, hi as int),
        r.1 == trim_end(v@, lo as int, hi as int),
        lo <= r.0 <= r.1 <= hi,
{
    let mut a: usize = lo;
    while a < hi && is_whitespace(v[a])
        invariant
            lo <= a <= hi <= v.len(),
            forall|k: int| lo <= k < a ==> whitespace_char(#[trigger] v@.subrange(0, hi as int)[k]),
        decreases hi - a,
    {
        a += 1;
    }
    proof {
        lemma_scan_while_stops(v@.subrange(0, hi as int), lo as int, a as int, spaces());
    }
    let mut b: usize = hi;
    while a < b && is_whitespace(v[b - 1])
        invariant
            a <= b <= hi <= v.len(),
            forall|k: int| b <= k < hi ==> whitespace_char(#[trigger] v@[k]),
        decreases b - a,
    {
        b -= 1;
    }
    proof {
        lemma_scan_back_while_stops(v@, a as int, b as int, hi as int, spaces());
    }
    (a, b)
}

/// A copy of the characters `v[from..to]`.
pub fn slice_chars(v: &Vec<char>, from: usize, to: usize) -> (r: Vec<char>)
    requires
        from <= to <= v.len(),
    ensures
        r@ == v@.subrange(from as int, to as int),
{
    let mut r: Vec<char> = Vec::new();
    let mut i: usize = from;
    while i < to
        invariant
            from <= i <= to <= v.len(),
            r@ == v@.subrange(from as int, i as int),
        decreases to - i,
    {
        r.push(v[i]);
        i += 1;
    }
    r
}

/// Whether `pattern` stands in `v` at position `pos`.
pub fn starts_with_at(v: &Vec<char>, pos: usize, pattern: &Vec<char>) -> (r: bool)
    ensures
        r == has_prefix_at(v@, pos as int, pattern@),
{
    if pos > v.len() || pattern.len() > v.len() - pos {
        return false;
    }
    let mut i: usize = 0;
    while i < pattern.len()
        invariant
            i <= pattern.len(),
            pos + pattern.len() <= v.len(),
            v@.subrange(pos as int, pos + i) == pattern@.subrange(0, i as int),
        decreases pattern.len() - i,
    {
        if v[pos + i] != pattern[i] {
            assert(v@.subrange(pos as int, pos + pattern.len())[i as int] != pattern@[i as int]);
            return false;
        }
        assert(v@.subrange(pos as int, pos + i + 1) == v@.subrange(pos as int, pos + i).push(
            v@[pos + i],
        ));
        assert(pattern@.subrange(0, i + 1) == pattern@.subrange(0, i as int).push(pattern@[i as int]));
        i += 1;
    }
    assert(pattern@.subrange(0, pattern.len() as int) == pattern@);
    true
}

} // verus!
