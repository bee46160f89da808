//! The values a variable can hold, their canonical rendering as text, and decimal
//! notation in both directions.

use vstd::prelude::*;
use crate::text::digit_char;

verus! {

/// The value of a variable.
#[derive(Debug, PartialEq, Eq)]
pub enum VariableValue {
    Integer(i64),
    String(String),
    Undefined,
}

/// The mathematical model of a `VariableValue`.
pub enum SpecValue {
    Integer(i64),
    Text(Seq<char>),
    Undefined,
}

impl View for VariableValue {
    type V = SpecValue;

    open spec fn view(&self) -> SpecValue {
        match self {
            VariableValue::Integer(i) => SpecValue::Integer(*i),
            VariableValue::String(s) => SpecValue::Text(s@),
            VariableValue::Undefined => SpecValue::Undefined,
        }
    }
}

impl Clone for VariableValue {
    fn clone(&self) -> (r: Self)
        ensures
            r@ == self@,
    {
        match self {
            VariableValue::Integer(i) => VariableValue::Integer(*i),
            VariableValue::String(s) => VariableValue::String(s.clone()),
            VariableValue::Undefined => VariableValue::Undefined,
        }
    }
}

/// The character that writes the digit `d`, for `d` in `0..10`.
pub open spec fn digit_of(d: int) -> char {
    ('0' as int + d) as char
}

/// The value of the digit that `c` writes.
pub open spec fn digit_value(c: char) -> int {
    c as int - '0' as int
}

/// The decimal notation of `n`, without sign and without leading zeros.
pub open spec fn decimal(n: nat) -> Seq<char>
    decreases n,
{
    if n < 10 {
        seq![digit_of(n as int)]
    } else {
        decimal(n / 10).push(digit_of((n % 10) as int))
    }
}

/// The decimal notation of `i`, with a leading `-` when `i` is negative.
pub open spec fn decimal_signed(i: int) -> Seq<char> {
    if i < 0 {
        seq!['-'] + decimal((-i) as nat)
    } else {
        decimal(i as nat)
    }
}

/// The number that a run of decimal digits writes; 0 for the empty run.
pub open spec fn decimal_value(s: Seq<char>) -> int
    decreases s.len(),
{
    if s.len() == 0 {
        0
    } else {
        decimal_value(s.drop_last()) * 10 + digit_value(s.last())
    }
}

/// Whether `s` consists of decimal digits only.
pub open spec fn all_digits(s: Seq<char>) -> bool {
    forall|i: int| 0 <= i < s.len() ==> digit_char(#[trigger] s[i])
}

/// What a run of characters means as a signed 64-bit integer: its value when it is a
/// non-empty run of digits that fits, nothing otherwise.
pub open spec fn parse_decimal(s: Seq<char>) -> Option<i64> {
    if s.len() > 0 && all_digits(s) && decimal_value(s) <= i64::MAX {
        Some(decimal_value(s) as i64)
    } else {
        None
    }
}

/// The canonical text of a value: decimal digits for an integer, the contents of a text,
/// nothing for the undefined value.
pub open spec fn rendered(v: SpecValue) -> Seq<char> {
    match v {
        SpecValue::Integer(i) => decimal_signed(i as int),
        SpecValue::Text(t) => t,
        SpecValue::Undefined => Seq::empty(),
    }
}

/// The value of a run of digits is not negative, and appending digits never lowers it.
pub proof fn lemma_decimal_value_grows(s: Seq<char>, k: int)
    requires
        all_digits(s),
        0 <= k <= s.len(),
    ensures
        0 <= decimal_value(s.subrange(0, k)) <= decimal_value(s),
    decreases s.len(),
{
    if s.len() == 0 {
        assert(s.subrange(0, k) == s);
    } else if k == s.len() {
        assert(s.subrange(0, k) == s);
        assert(all_digits(s.drop_last()));
        lemma_decimal_value_grows(s.drop_last(), k - 1);
        assert(digit_char(s[s.len() - 1]));
    } else {
        assert(all_digits(s.drop_last()));
        lemma_decimal_value_grows(s.drop_last(), k);
        lemma_decimal_value_grows(s.drop_last(), s.len() - 1);
        assert(s.drop_last().subrange(0, k) == s.subrange(0, k));
        assert(s.drop_last().subrange(0, s.len() - 1) == s.drop_last());
        assert(digit_char(s[s.len() - 1]));
    }
}

/// Decimal notation consists of digits, and reading it back gives the number written:
/// the text that renders an integer from 0 to the largest of 64 bits is read as that
/// integer.
pub proof fn law_decimal_round_trip(n: nat)
    ensures
        decimal(n).len() > 0,
        all_digits(decimal(n)),
        decimal_value(decimal(n)) == n,
        n <= i64::MAX ==> parse_decimal(decimal(n)) == Some(n as i64),
    decreases n,
{
    if n < 10 {
        let s = decimal(n);
        assert(s.drop_last().len() == 0);
        assert(decimal_value(s) == decimal_value(s.drop_last()) * 10 + digit_value(s.last()));
    } else {
        law_decimal_round_trip(n / 10);
        let s = decimal(n);
        assert(s.drop_last() == decimal(n / 10));
        assert(decimal_value(s) == decimal_value(s.drop_last()) * 10 + digit_value(s.last()));
    }
}

/// The character that writes the digit `d`.
fn digit(d: u64) -> (c: char)
    requires
        d < 10,
    ensures
        c == digit_of(d as int),
{
    let b: u8 = 48u8 + d as u8;
    b as char
}

/// Appends the decimal notation of `n` to `out`.
fn push_decimal(out: &mut Vec<char>, n: u64)
    ensures
        final(out)@ == old(out)@ + decimal(n as nat),
    decreases n,
{
    if n >= 10 {
        push_decimal(out, n / 10);
    }
    out.push(digit(n % 10));
}

/// Reads a run of characters as a signed 64-bit integer.
pub fn parse_digits(v: &Vec<char>, from: usize, to: usize) -> (r: Option<i64>)
    requires
        from <= to <= v.len(),
    ensures
        r == parse_decimal(v@.subrange(from as int, to as int)),
{
    let ghost s = v@.subrange(from as int, to as int);
    if from == to {
        return None;
    }
    let mut acc: i64 = 0;
    let mut i: usize = from;
    while i < to
        invariant
            from <= i <= to <= v.len(),
            s == v@.subrange(from as int, to as int),
            all_digits(s.subrange(0, i - from)),
            acc == decimal_value(s.subrange(0, i - from)),
            0 <= acc,
        decreases to - i,
    {
        let c = v[i];
        if !(c >= '0' && c <= '9') {
            assert(!digit_char(s[i - from]));
            return None;
        }
        let d: i64 = (c as u32 - '0' as u32) as i64;
        proof {
            let next = s.subrange(0, i - from + 1);
            assert(next.drop_last() == s.subrange(0, i - from));
            assert(next.last() == c);
            assert(decimal_value(next) == acc * 10 + d);
            assert forall|k: int| 0 <= k < next.len() implies digit_char(#[trigger] next[k]) by {
                if k < i - from {
                    assert(next[k] == s.subrange(0, i - from)[k]);
                }
            }
        }
        if acc > (i64::MAX - d) / 10 {
            proof {
                let next = s.subrange(0, i - from + 1);
                assert(decimal_value(next) > i64::MAX);
                if all_digits(s) {
                    lemma_decimal_value_grows(s, i - from + 1);
                }
            }
            return None;
        }
        acc = acc * 10 + d;
        i += 1;
    }
    assert(s.subrange(0, to - from) == s);
    Some(acc)
}

impl VariableValue {
    /// The canonical text of the value.
    pub fn render(&self) -> (out: String)
        ensures
            out@ == rendered(self@),
    {
        let chars = self.render_chars();
        crate::text::to_text(&chars, 0, chars.len())
    }

    /// The canonical text of the value, as characters.
    pub fn render_chars(&self) -> (out: Vec<char>)
        ensures
            out@ == rendered(self@),
    {
        let mut out: Vec<char> = Vec::new();
        match self {
            VariableValue::Integer(i) => {
                if *i < 0 {
                    out.push('-');
                    let magnitude: u64 = (-(*i + 1)) as u64 + 1;
                    push_decimal(&mut out, magnitude);
                } else {
                    push_decimal(&mut out, *i as u64);
                }
            },
            VariableValue::String(s) => {
                out = crate::text::to_chars(s.as_str());
            },
            VariableValue::Undefined => {},
        }
        out
    }
}

} // verus!
