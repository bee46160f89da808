//! What a print statement writes: positional substitution of `%s` markers, the rule for
//! a bare variable name, and the conversion of written-out newlines.

use vstd::prelude::*;
use crate::dictionary::Dictionary;
use crate::error::{RuntimeError, SpecError};
use crate::text::to_chars;
use crate::token::texts;
use crate::value::{rendered, SpecValue, VariableValue};

verus! {

/// Whether `text` is written between two `"`.
pub open spec fn is_quoted(text: Seq<char>) -> bool {
    text.len() >= 2 && text[0] == '"' && text[text.len() - 1] == '"'
}

/// What stands between the first and the last character of `text`.
pub open spec fn unquoted(text: Seq<char>) -> Seq<char> {
    text.subrange(1, text.len() - 1)
}

/// How many `%` the text holds from `pos` on.
pub open spec fn count_markers(s: Seq<char>, pos: int) -> nat
    decreases s.len() - pos,
{
    if pos < 0 || pos >= s.len() {
        0
    } else if s[pos] == '%' {
        1 + count_markers(s, pos + 1)
    } else {
        count_markers(s, pos + 1)
    }
}

/// Whether a placeholder `%s` stands at `pos`.
pub open spec fn placeholder_at(s: Seq<char>, pos: int) -> bool {
    0 <= pos && pos + 1 < s.len() && s[pos] == '%' && s[pos + 1] == 's'
}

/// The position of the first placeholder at or after `pos`; the length of `s` when there
/// is none.
pub open spec fn next_placeholder(s: Seq<char>, pos: int) -> int
    decreases s.len() - pos,
{
    if pos < 0 || pos >= s.len() {
        s.len() as int
    } else if placeholder_at(s, pos) {
        pos
    } else {
        next_placeholder(s, pos + 1)
    }
}

/// The text of `s` from `pos` on, in which the placeholders are replaced, from left to
/// right, by `values` in their order: each value is used for one placeholder, and what a
/// value holds is not searched for placeholders. The text behind the last value stays as
/// it is, and so does all of it once no placeholder is left.
pub open spec fn substitute(s: Seq<char>, pos: int, values: Seq<Seq<char>>) -> Seq<char>
    decreases values.len(),
{
    let at = next_placeholder(s, pos);
    if values.len() == 0 || at >= s.len() {
        s.subrange(pos, s.len() as int)
    } else {
        s.subrange(pos, at) + values[0] + substitute(s, at + 2, values.drop_first())
    }
}

/// Whether the two characters `\` and `n` stand at `pos`.
pub open spec fn written_newline_at(s: Seq<char>, pos: int) -> bool {
    0 <= pos && pos + 1 < s.len() && s[pos] == '\\' && s[pos + 1] == 'n'
}

/// The text of `s` from `pos` on, in which each pair of the characters `\` and `n` has
/// become a newline character.
pub open spec fn with_newlines(s: Seq<char>, pos: int) -> Seq<char>
    decreases s.len() - pos,
{
    if pos < 0 || pos >= s.len() {
        Seq::empty()
    } else if written_newline_at(s, pos) {
        seq!['\n'] + with_newlines(s, pos + 2)
    } else {
        seq![s[pos]] + with_newlines(s, pos + 1)
    }
}

/// The rendered values of the variables that `names` lists, in that order; the first
/// name that is not bound in `variables`, as a failure, when there is one.
pub open spec fn lookup_all(
    names: Seq<Seq<char>>,
    variables: Map<Seq<char>, SpecValue>,
) -> Result<Seq<Seq<char>>, Seq<char>>
    decreases names.len(),
{
    if names.len() == 0 {
        Ok(Seq::empty())
    } else if !variables.contains_key(names[0]) {
        Err(names[0])
    } else {
        match lookup_all(names.drop_first(), variables) {
            Ok(values) => Ok(seq![rendered(variables[names[0]])] + values),
            Err(name) => Err(name),
        }
    }
}

/// The text `true` or `false`.
pub open spec fn truth_text(b: bool) -> Seq<char> {
    if b {
        seq!['t', 'r', 'u', 'e']
    } else {
        seq!['f', 'a', 'l', 's', 'e']
    }
}

/// What a print statement writes, given its first argument as written, all its arguments
/// (the first included) and the variables of the current environment.
///
/// A quoted first argument is a format: it must hold as many `%` as arguments follow it,
/// else the statement fails; the arguments that follow name variables, each of which must
/// be bound; the rendered values replace the placeholders `%s` in order. A first argument
/// that is not quoted and names a variable writes whether the value of that variable is
/// the empty text, as `true` or `false`, not the value itself. Any other first argument
/// writes nothing. In what is written, a written-out `\n` becomes a newline.
pub open spec fn print_text(
    first: Seq<char>,
    args: Seq<Seq<char>>,
    variables: Map<Seq<char>, SpecValue>,
) -> Result<Seq<char>, SpecError> {
    if is_quoted(first) {
        let format = unquoted(first);
        if count_markers(format, 0) + 1 != args.len() {
            Err(SpecError::FormatArityMismatch(first))
        } else {
            match lookup_all(args.subrange(1, args.len() as int), variables) {
                Ok(values) => Ok(with_newlines(substitute(format, 0, values), 0)),
                Err(name) => Err(SpecError::UndefinedVariable(name)),
            }
        }
    } else if variables.contains_key(first) {
        Ok(with_newlines(truth_text(variables[first] == SpecValue::Text(Seq::empty())), 0))
    } else {
        Ok(Seq::empty())
    }
}

/// The placeholder `%s`.
pub open spec fn placeholder() -> Seq<char> {
    seq!['%', 's']
}

/// Whether `s` holds no `%`.
pub open spec fn free_of_percent(s: Seq<char>) -> bool {
    forall|i: int| 0 <= i < s.len() ==> s[i] != '%'
}

/// The text that starts with the first of `pieces` and goes on, in turn, with the next of
/// `values` and the next of `pieces`. It is meant for one piece more than there are values.
pub open spec fn interleave(pieces: Seq<Seq<char>>, values: Seq<Seq<char>>) -> Seq<char>
    decreases values.len(),
{
    if pieces.len() == 0 {
        Seq::empty()
    } else if values.len() == 0 {
        pieces[0]
    } else {
        pieces[0] + values[0] + interleave(pieces.drop_first(), values.drop_first())
    }
}

/// The format that has a placeholder between each two of `pieces`.
pub open spec fn template(pieces: Seq<Seq<char>>) -> Seq<char> {
    interleave(pieces, Seq::new((pieces.len() - 1) as nat, |i: int| placeholder()))
}

/// `text` between two `"`.
pub open spec fn quoted(text: Seq<char>) -> Seq<char> {
    seq!['"'] + text + seq!['"']
}

/// The texts that a sequence of character vectors holds, in order.
pub open spec fn char_texts(v: Seq<Vec<char>>) -> Seq<Seq<char>> {
    Seq::new(v.len(), |i: int| v[i]@)
}

/// Counts the `%` of a text.
pub fn count_percent(v: &Vec<char>) -> (n: usize)
    ensures
        n == count_markers(v@, 0),
{
    let mut n: usize = 0;
    let mut i: usize = v.len();
    while i > 0
        invariant
            i <= v.len(),
            n == count_markers(v@, i as int),
            n <= v.len() - i,
        decreases i,
    {
        i -= 1;
        if v[i] == '%' {
            n += 1;
        }
    }
    n
}

/// Replaces the placeholders of `format` by `values`, in order.
pub fn fill_placeholders(format: &Vec<char>, values: &Vec<Vec<char>>) -> (out: Vec<char>)
    ensures
        out@ == substitute(format@, 0, char_texts(values@)),
{
    let ghost all = char_texts(values@);
    let mut out: Vec<char> = Vec::new();
    let mut pos: usize = 0;
    let mut k: usize = 0;
    proof {
        assert(all.skip(0) == all);
        assert(out@ + substitute(format@, 0, all) == substitute(format@, 0, all));
    }
    while k < values.len()
        invariant
            pos <= format.len(),
            k <= values.len(),
            all == char_texts(values@),
            substitute(format@, 0, all) == out@ + substitute(format@, pos as int, all.skip(k as int)),
        decreases values.len() - k,
    {
        let ghost start = pos;
        let ghost written = out@;
        while pos < format.len() && !(format[pos] == '%' && pos + 1 < format.len() && format[pos
            + 1] == 's')
            invariant
                start <= pos <= format.len(),
                out@ == written + format@.subrange(start as int, pos as int),
                next_placeholder(format@, start as int) == next_placeholder(format@, pos as int),
            decreases format.len() - pos,
        {
            out.push(format[pos]);
            pos += 1;
        }
        if pos >= format.len() {
            proof {
                assert(all.skip(values.len() as int).len() == 0);
                assert(substitute(format@, pos as int, all.skip(values.len() as int))
                    == format@.subrange(pos as int, format@.len() as int));
                assert(format@.subrange(pos as int, format@.len() as int) == Seq::<char>::empty());
                assert(substitute(format@, start as int, all.skip(k as int)) == format@.subrange(
                    start as int,
                    format@.len() as int,
                ));
            }
            k = values.len();
        } else {
            let value = &values[k];
            let mut j: usize = 0;
            let ghost copied = out@;
            while j < value.len()
                invariant
                    j <= value.len(),
                    out@ == copied + value@.subrange(0, j as int),
                decreases value.len() - j,
            {
                out.push(value[j]);
                j += 1;
            }
            proof {
                assert(value@.subrange(0, value.len() as int) == value@);
                assert(all.skip(k as int)[0] == value@);
                assert(all.skip(k as int).drop_first() == all.skip(k + 1));
                let tail = substitute(format@, pos + 2, all.skip(k + 1));
                assert(written + (format@.subrange(start as int, pos as int) + value@ + tail)
                    == (written + format@.subrange(start as int, pos as int) + value@) + tail);
            }
            pos += 2;
            k += 1;
        }
    }
    proof {
        assert(all.skip(values.len() as int).len() == 0);
    }
    let ghost written = out@;
    let ghost start = pos;
    while pos < format.len()
        invariant
            start <= pos <= format.len(),
            out@ == written + format@.subrange(start as int, pos as int),
        decreases format.len() - pos,
    {
        out.push(format[pos]);
        pos += 1;
    }
    out
}

/// Turns each written-out `\n` of `v` into a newline character.
pub fn convert_newlines(v: &Vec<char>) -> (out: Vec<char>)
    ensures
        out@ == with_newlines(v@, 0),
{
    let mut out: Vec<char> = Vec::new();
    let mut pos: usize = 0;
    while pos < v.len()
        invariant
            pos <= v.len(),
            with_newlines(v@, 0) == out@ + with_newlines(v@, pos as int),
        decreases v.len() - pos,
    {
        let ghost before = out@;
        if v[pos] == '\\' && pos + 1 < v.len() && v[pos + 1] == 'n' {
            out.push('\n');
            proof {
                let tail = with_newlines(v@, pos + 2);
                assert(before + (seq!['\n'] + tail) == (before + seq!['\n']) + tail);
            }
            pos += 2;
        } else {
            out.push(v[pos]);
            proof {
                let tail = with_newlines(v@, pos + 1);
                assert(before + (seq![v@[pos as int]] + tail) == (before + seq![v@[pos as int]])
                    + tail);
            }
            pos += 1;
        }
    }
    out
}

/// What a print statement writes; see `print_text`.
#[verifier::loop_isolation(false)]
pub fn format_print(
    first: &String,
    args: &Vec<String>,
    variables: &Dictionary<VariableValue>,
) -> (r: Result<Vec<char>, RuntimeError>)
    ensures
        match r {
            Ok(text) => print_text(first@, texts(args@), variables@) == Ok::<
                Seq<char>,
                SpecError,
            >(text@),
            Err(e) => print_text(first@, texts(args@), variables@) == Err::<Seq<char>, SpecError>(
                e@,
            ),
        },
{
    let literal = to_chars(first.as_str());
    let n = literal.len();
    if n >= 2 && literal[0] == '"' && literal[n - 1] == '"' {
        let format = crate::text::slice_chars(&literal, 1, n - 1);
        let markers = count_percent(&format);
        if args.len() == 0 || markers != args.len() - 1 {
            return Err(RuntimeError::FormatArityMismatch(first.clone()));
        }
        let ghost names = texts(args@).subrange(1, args.len() as int);
        let mut values: Vec<Vec<char>> = Vec::new();
        let mut i: usize = 1;
        while i < args.len()
            invariant
                1 <= i <= args.len(),
                names == texts(args@).subrange(1, args.len() as int),
                values@.len() == i - 1,
                forall|k: int|
                    0 <= k < i - 1 ==> variables@.contains_key(#[trigger] names[k])
                        && values@[k]@ == rendered(variables@[names[k]]),
            decreases args.len() - i,
        {
            match variables.get(args[i].as_str()) {
                Some(value) => {
                    values.push(value.render_chars());
                    assert(names[i - 1] == args@[i as int]@);
                },
                None => {
                    proof {
                        assert(names[i - 1] == args@[i as int]@);
                        lemma_lookup_fails(names, variables@, i - 1);
                    }
                    return Err(RuntimeError::UndefinedVariable(args[i].clone()));
                },
            }
            i += 1;
        }
        proof {
            lemma_lookup_succeeds(names, variables@, char_texts(values@));
        }
        let filled = fill_placeholders(&format, &values);
        Ok(convert_newlines(&filled))
    } else {
        match variables.get(first.as_str()) {
            Some(value) => {
                let empty = match value {
                    VariableValue::String(s) => s.as_str().is_empty(),
                    _ => false,
                };
                proof {
                    if let SpecValue::Text(t) = value@ {
                        if t.len() == 0 {
                            assert(t =~= Seq::<char>::empty());
                        }
                    }
                }
                let word: Vec<char> = if empty {
                    vec!['t', 'r', 'u', 'e']
                } else {
                    vec!['f', 'a', 'l', 's', 'e']
                };
                Ok(convert_newlines(&word))
            },
            None => Ok(Vec::new()),
        }
    }
}

/// When the name at index `at` is the first that is not bound, looking all names up
/// fails with it.
pub proof fn lemma_lookup_fails(
    names: Seq<Seq<char>>,
    variables: Map<Seq<char>, SpecValue>,
    at: int,
)
    requires
        0 <= at < names.len(),
        !variables.contains_key(names[at]),
        forall|k: int| 0 <= k < at ==> variables.contains_key(#[trigger] names[k]),
    ensures
        lookup_all(names, variables) == Err::<Seq<Seq<char>>, Seq<char>>(names[at]),
    decreases at,
{
    if at > 0 {
        assert(variables.contains_key(names[0]));
        let rest = names.drop_first();
        assert forall|k: int| 0 <= k < at - 1 implies variables.contains_key(
            #[trigger] rest[k],
        ) by {
            assert(rest[k] == names[k + 1]);
        }
        lemma_lookup_fails(rest, variables, at - 1);
    }
}

/// When every name is bound, looking all names up gives their rendered values.
pub proof fn lemma_lookup_succeeds(
    names: Seq<Seq<char>>,
    variables: Map<Seq<char>, SpecValue>,
    values: Seq<Seq<char>>,
)
    requires
        values.len() == names.len(),
        forall|k: int|
            0 <= k < names.len() ==> variables.contains_key(#[trigger] names[k]) && values[k]
                == rendered(variables[names[k]]),
    ensures
        lookup_all(names, variables) == Ok::<Seq<Seq<char>>, Seq<char>>(values),
    decreases names.len(),
{
    if names.len() == 0 {
        assert(values =~= Seq::<Seq<char>>::empty());
    } else {
        let rest = names.drop_first();
        assert(variables.contains_key(names[0]));
        assert forall|k: int| 0 <= k < rest.len() implies variables.contains_key(
            #[trigger] rest[k],
        ) && values.drop_first()[k] == rendered(variables[rest[k]]) by {
            assert(rest[k] == names[k + 1]);
        }
        lemma_lookup_succeeds(rest, variables, values.drop_first());
        assert(seq![values[0]] + values.drop_first() =~= values);
    }
}

} // verus!
