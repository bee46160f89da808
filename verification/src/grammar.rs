//! What the tokenizer recognises, as functions of the source text and a position alone.
//!
//! `lex_at` says which token stands at a position and where tokenizing goes on; the
//! functions before it say how each kind of statement is read.

use vstd::prelude::*;
use crate::text::{
    alphanumeric_char, digit_char, find_char, has_prefix_at, is_fragment, lemma_scan_while,
    lemma_scan_while_forward, lemma_trimmed_is_fragment, other_than, scan_back_while,
    scan_while, skip_spaces, spaces, trimmed,
};
use crate::token::{keyword_list, Keyword, LexicalError, SpecToken};
use crate::value::{parse_decimal, SpecValue};

verus! {

/// What tokenizing at one position gives: a token or a failure, and the position at which
/// tokenizing goes on.
pub struct Lexed {
    pub token: Result<SpecToken, LexicalError>,
    pub next: int,
}

/// The marker by which a function call is recognised.
pub open spec fn call_marker() -> Seq<char> {
    seq!['(', ')']
}

/// The keyword that stands at `pos`, if any, trying them in their listed order.
pub open spec fn keyword_at(s: Seq<char>, pos: int) -> Option<Keyword> {
    first_keyword_at(s, pos, 0)
}

/// The first keyword from index `from` of the list on that stands at `pos`.
pub open spec fn first_keyword_at(s: Seq<char>, pos: int, from: int) -> Option<Keyword>
    decreases keyword_list().len() - from,
{
    if from < 0 || from >= keyword_list().len() {
        None
    } else if has_prefix_at(s, pos, keyword_list()[from].text()) {
        Some(keyword_list()[from])
    } else {
        first_keyword_at(s, pos, from + 1)
    }
}

/// The position of the `close` that brings the bracket depth back to zero, scanning from
/// `pos` at depth `depth`: each `open` adds one to the depth and each `close` takes one
/// off. The length of `s` when the depth never gets back to zero.
pub open spec fn find_close(s: Seq<char>, pos: int, depth: int, open: char, close: char) -> int
    decreases s.len() - pos,
{
    if pos < 0 || pos >= s.len() {
        s.len() as int
    } else if s[pos] == open {
        find_close(s, pos + 1, depth + 1, open, close)
    } else if s[pos] == close {
        if depth <= 1 {
            pos
        } else {
            find_close(s, pos + 1, depth - 1, open, close)
        }
    } else {
        find_close(s, pos + 1, depth, open, close)
    }
}

/// The position of the first `"` at or after `pos` that no backslash escapes: a backslash
/// takes the character after it out of consideration. The length of `s` when there is none.
pub open spec fn closing_quote(s: Seq<char>, pos: int) -> int
    decreases s.len() + 1 - pos,
{
    if pos < 0 || pos >= s.len() {
        s.len() as int
    } else if s[pos] == '\\' {
        closing_quote(s, pos + 2)
    } else if s[pos] == '"' {
        pos
    } else {
        closing_quote(s, pos + 1)
    }
}

/// `items` in front of what `rest` holds; the failure of `rest` when it is one.
pub open spec fn prepend(
    items: Seq<Seq<char>>,
    rest: Result<Seq<Seq<char>>, LexicalError>,
) -> Result<Seq<Seq<char>>, LexicalError> {
    match rest {
        Ok(r) => Ok(items + r),
        Err(e) => Err(e),
    }
}

/// The arguments that `s` holds from `pos` on. A run that starts with `"` reaches to the
/// next `"` and is one argument, quotes included, whatever commas it holds. Any other run
/// reaches to the next comma, is trimmed, and is an argument unless it is empty.
pub open spec fn split_args(s: Seq<char>, pos: int) -> Result<Seq<Seq<char>>, LexicalError>
    decreases s.len() + 1 - pos,
{
    if pos < 0 || pos >= s.len() {
        Ok(Seq::empty())
    } else if s[pos] == '"' {
        let e = find_char(s, pos + 1, '"');
        if e < s.len() {
            proof {
                lemma_scan_while_forward(s, pos + 1, other_than('"'));
            }
            prepend(seq![s.subrange(pos, e + 1)], split_args(s, e + 1))
        } else {
            Err(LexicalError::UnterminatedQuote)
        }
    } else {
        let e = find_char(s, pos, ',');
        let piece = trimmed(s, pos, e);
        proof {
            lemma_scan_while(s, pos, other_than(','));
        }
        let rest = split_args(s, e + 1);
        if piece.len() > 0 {
            prepend(seq![piece], rest)
        } else {
            rest
        }
    }
}

/// Whether a token has the shape in which the tokenizer gives it: a print statement has at
/// least one argument, and its first argument stands at the head of its argument list.
/// Every other token has that shape in any case.
pub open spec fn holds_its_literal(token: SpecToken) -> bool {
    match token {
        SpecToken::PrintWithArgument(first, args) => args.len() >= 1 && args[0] == first,
        _ => true,
    }
}

/// A failure with which tokenizing goes on at `next`.
pub open spec fn failed(e: LexicalError, next: int) -> Lexed {
    Lexed { token: Err(e), next }
}

/// A token after which tokenizing goes on at `next`.
pub open spec fn produced(t: SpecToken, next: int) -> Lexed {
    Lexed { token: Ok(t), next }
}

/// A variable declaration, read from just behind the keyword `var`: a name of
/// alphanumeric characters; then, behind a `=`, either a quoted text, taken as it stands,
/// or a run of digits. Without a `=` the variable is undefined.
pub open spec fn lex_var(s: Seq<char>, q: int) -> Lexed {
    let a = skip_spaces(s, q);
    let b = scan_while(s, a, alphanumerics());
    let name = s.subrange(a, b);
    let c = skip_spaces(s, b);
    if 0 <= c < s.len() && s[c] == '=' {
        let d = skip_spaces(s, c + 1);
        if 0 <= d < s.len() && s[d] == '"' {
            let e = closing_quote(s, d + 1);
            if e < s.len() {
                produced(SpecToken::Variable(name, SpecValue::Text(s.subrange(d + 1, e))), e + 1)
            } else {
                failed(LexicalError::UnterminatedQuote, s.len() as int)
            }
        } else {
            let e = scan_while(s, d, digits());
            match parse_decimal(s.subrange(d, e)) {
                Some(n) => produced(SpecToken::Variable(name, SpecValue::Integer(n)), e),
                None => failed(LexicalError::InvalidInteger, e),
            }
        }
    } else {
        produced(SpecToken::Variable(name, SpecValue::Undefined), c)
    }
}

/// A print statement, read from just behind the keyword `print`: a `(`, the arguments up
/// to the `)` that matches it, split by `split_args`. There must be at least one
/// argument: the token holds the first argument and then all of them, the first included.
pub open spec fn lex_print(s: Seq<char>, q: int) -> Lexed {
    let a = skip_spaces(s, q);
    if 0 <= a < s.len() && s[a] == '(' {
        let e = find_close(s, a + 1, 1, '(', ')');
        if e < s.len() {
            match split_args(s.subrange(a + 1, e), 0) {
                Ok(args) => if args.len() > 0 {
                    produced(SpecToken::PrintWithArgument(args[0], args), e + 1)
                } else {
                    failed(LexicalError::MissingArgument, e + 1)
                },
                Err(err) => failed(err, e + 1),
            }
        } else {
            failed(LexicalError::UnmatchedBracket, s.len() as int)
        }
    } else {
        failed(LexicalError::UnmatchedBracket, a)
    }
}

/// A function definition, read from just behind the keyword `funky`: the name up to the
/// first `(`, trimmed; the parameters up to the first `)`, split by `split_args`; then,
/// behind the next `{`, the body up to the `}` that matches it, trimmed.
pub open spec fn lex_funky(s: Seq<char>, q: int) -> Lexed {
    let a = skip_spaces(s, q);
    let b = find_char(s, a, '(');
    let c = find_char(s, b + 1, ')');
    let d = find_char(s, c + 1, '{');
    let e = find_close(s, d + 1, 1, '{', '}');
    if !(b < s.len() && c < s.len()) {
        failed(LexicalError::UnmatchedBracket, s.len() as int)
    } else {
        match split_args(s.subrange(b + 1, c), 0) {
            Err(err) => failed(err, c + 1),
            Ok(params) => if d < s.len() && e < s.len() {
                produced(
                    SpecToken::FunctionDefinition(trimmed(s, a, b), trimmed(s, d + 1, e), params),
                    e + 1,
                )
            } else {
                failed(LexicalError::UnmatchedBrace, s.len() as int)
            },
        }
    }
}

/// Where the line that holds position `p` starts.
pub open spec fn line_start(s: Seq<char>, p: int) -> int {
    scan_back_while(s, 0, p, other_than('\n'))
}

/// A function call, read at its marker `()`: the name is what stands on the line before
/// the marker, trimmed. A call carries no arguments.
pub open spec fn lex_call(s: Seq<char>, p: int) -> Lexed {
    produced(
        SpecToken::FunctionCall(trimmed(s, line_start(s, p), p), Seq::empty()),
        p + 2,
    )
}

/// The class of alphanumeric characters.
pub open spec fn alphanumerics() -> spec_fn(char) -> bool {
    |c: char| alphanumeric_char(c)
}

/// The class of decimal digits.
pub open spec fn digits() -> spec_fn(char) -> bool {
    |c: char| digit_char(c)
}

/// What tokenizing gives at position `pos` of the text `s`.
///
/// Whitespace is passed over. At the end of the text the token is `EOF`. A keyword
/// starts a statement: `var`, `print` and `funky` are read by `lex_var`, `lex_print` and
/// `lex_funky`; the other reserved words are rejected. The marker `()` makes a function
/// call. Any other character is passed over, and tokenizing goes on behind it.
pub open spec fn lex_at(s: Seq<char>, pos: int) -> Lexed
    decreases s.len() - pos,
{
    let p = skip_spaces(s, pos);
    if p >= s.len() {
        produced(SpecToken::EOF, p)
    } else {
        proof {
            lemma_scan_while_forward(s, pos, spaces());
        }
        match keyword_at(s, p) {
            Some(Keyword::Var) => lex_var(s, p + 3),
            Some(Keyword::Print) => lex_print(s, p + 5),
            Some(Keyword::Funky) => lex_funky(s, p + 5),
            Some(k) => failed(LexicalError::UnsupportedKeyword(k), p + k.text().len()),
            None => if has_prefix_at(s, p, call_marker()) {
                lex_call(s, p)
            } else {
                lex_at(s, p + 1)
            },
        }
    }
}

/// The position that the bracket scan returns lies between its start and the end of the
/// text.
pub proof fn lemma_find_close_bounds(s: Seq<char>, pos: int, depth: int, open: char, close: char)
    requires
        0 <= pos <= s.len(),
    ensures
        pos <= find_close(s, pos, depth, open, close) <= s.len(),
    decreases s.len() - pos,
{
    if pos < s.len() {
        if s[pos] == open {
            lemma_find_close_bounds(s, pos + 1, depth + 1, open, close);
        } else if s[pos] == close {
            if depth > 1 {
                lemma_find_close_bounds(s, pos + 1, depth - 1, open, close);
            }
        } else {
            lemma_find_close_bounds(s, pos + 1, depth, open, close);
        }
    }
}

/// The position that the quote scan returns lies between its start and the end of the
/// text.
pub proof fn lemma_closing_quote_bounds(s: Seq<char>, pos: int)
    requires
        0 <= pos,
    ensures
        pos <= closing_quote(s, pos) || closing_quote(s, pos) == s.len(),
        closing_quote(s, pos) <= s.len(),
    decreases s.len() + 1 - pos,
{
    if pos < s.len() {
        if s[pos] == '\\' {
            lemma_closing_quote_bounds(s, pos + 2);
        } else if s[pos] != '"' {
            lemma_closing_quote_bounds(s, pos + 1);
        }
    }
}

/// Reading a variable declaration moves forward and stays inside the text.
pub proof fn lemma_lex_var_bounds(s: Seq<char>, q: int)
    requires
        0 <= q <= s.len(),
    ensures
        q <= lex_var(s, q).next <= s.len(),
{
    let a = skip_spaces(s, q);
    lemma_scan_while(s, q, spaces());
    let b = scan_while(s, a, alphanumerics());
    lemma_scan_while(s, a, alphanumerics());
    let c = skip_spaces(s, b);
    lemma_scan_while(s, b, spaces());
    if c < s.len() && s[c] == '=' {
        let d = skip_spaces(s, c + 1);
        lemma_scan_while(s, c + 1, spaces());
        if d < s.len() && s[d] == '"' {
            lemma_closing_quote_bounds(s, d + 1);
        } else {
            lemma_scan_while(s, d, digits());
        }
    }
}

/// Reading a print statement moves forward and stays inside the text.
pub proof fn lemma_lex_print_bounds(s: Seq<char>, q: int)
    requires
        0 <= q <= s.len(),
    ensures
        q <= lex_print(s, q).next <= s.len(),
{
    let a = skip_spaces(s, q);
    lemma_scan_while(s, q, spaces());
    if a < s.len() && s[a] == '(' {
        lemma_find_close_bounds(s, a + 1, 1, '(', ')');
    }
}

/// Reading a function definition moves forward and stays inside the text; the name and
/// the body that it gives are fragments of the text.
pub proof fn lemma_lex_funky_bounds(s: Seq<char>, q: int)
    requires
        0 <= q <= s.len(),
    ensures
        q <= lex_funky(s, q).next <= s.len(),
        match lex_funky(s, q).token {
            Ok(SpecToken::FunctionDefinition(name, body, _)) => is_fragment(name, s)
                && is_fragment(body, s),
            Ok(_) => false,
            Err(_) => true,
        },
{
    let a = skip_spaces(s, q);
    lemma_scan_while(s, q, spaces());
    let b = find_char(s, a, '(');
    lemma_scan_while(s, a, other_than('('));
    if b < s.len() {
        let c = find_char(s, b + 1, ')');
        lemma_scan_while(s, b + 1, other_than(')'));
        if c < s.len() {
            let d = find_char(s, c + 1, '{');
            lemma_scan_while(s, c + 1, other_than('{'));
            if d < s.len() {
                let e = find_close(s, d + 1, 1, '{', '}');
                lemma_find_close_bounds(s, d + 1, 1, '{', '}');
                if e < s.len() {
                    lemma_trimmed_is_fragment(s, a, b);
                    lemma_trimmed_is_fragment(s, d + 1, e);
                }
            }
        }
    }
}

/// Every keyword has at least two characters.
pub proof fn lemma_keyword_lengths(k: Keyword)
    ensures
        2 <= k.text().len() <= 5,
        k == Keyword::Var ==> k.text().len() == 3,
        k == Keyword::Print ==> k.text().len() == 5,
        k == Keyword::Funky ==> k.text().len() == 5,
{
}

/// A keyword that is found at a position stands there.
pub proof fn lemma_keyword_at(s: Seq<char>, pos: int, from: int)
    requires
        0 <= from,
    ensures
        match first_keyword_at(s, pos, from) {
            Some(k) => has_prefix_at(s, pos, k.text()),
            None => true,
        },
    decreases keyword_list().len() - from,
{
    if from < keyword_list().len() && !has_prefix_at(s, pos, keyword_list()[from].text()) {
        lemma_keyword_at(s, pos, from + 1);
    }
}

/// Tokenizing never moves backward and never leaves the text; unless it gives `EOF`, it
/// moves forward. A function definition that it gives has a name and a body that are
/// fragments of the text. A print statement that it gives has at least one argument, and
/// holds its first argument at the head of its argument list.
pub proof fn lemma_lex_at(s: Seq<char>, pos: int)
    requires
        0 <= pos <= s.len(),
    ensures
        pos <= lex_at(s, pos).next <= s.len(),
        lex_at(s, pos).token != Ok::<SpecToken, LexicalError>(SpecToken::EOF) ==> pos < lex_at(
            s,
            pos,
        ).next,
        lex_at(s, pos).token == Ok::<SpecToken, LexicalError>(SpecToken::EOF) ==> lex_at(
            s,
            pos,
        ).next == s.len(),
        match lex_at(s, pos).token {
            Ok(SpecToken::FunctionDefinition(name, body, _)) => is_fragment(name, s)
                && is_fragment(body, s),
            Ok(token) => holds_its_literal(token),
            Err(_) => true,
        },
    decreases s.len() - pos,
{
    let p = skip_spaces(s, pos);
    lemma_scan_while(s, pos, spaces());
    if p < s.len() {
        lemma_keyword_at(s, p, 0);
        match keyword_at(s, p) {
            Some(k) => {
                lemma_keyword_lengths(k);
                match k {
                    Keyword::Var => {
                        lemma_lex_var_bounds(s, p + 3);
                    },
                    Keyword::Print => {
                        lemma_lex_print_bounds(s, p + 5);
                    },
                    Keyword::Funky => {
                        lemma_lex_funky_bounds(s, p + 5);
                    },
                    _ => {},
                }
            },
            None => {
                if !has_prefix_at(s, p, call_marker()) {
                    lemma_lex_at(s, p + 1);
                }
            },
        }
    }
}

} // verus!
