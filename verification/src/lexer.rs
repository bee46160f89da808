//! The tokenizer: a cursor over the source text that, on each request, recognises one
//! statement, returns it as a token and moves behind it.

use vstd::prelude::*;
use crate::grammar::{
    alphanumerics, call_marker, closing_quote, digits, find_close, first_keyword_at, keyword_at,
    lemma_lex_at, lex_at, lex_call, lex_funky, lex_print, lex_var, prepend, split_args, Lexed,
};
use crate::text::{
    find_from, is_alphanumeric, is_digit, lemma_scan_back_while_stops, lemma_scan_while_stops,
    other_than, skip_whitespace_from, slice_chars, starts_with_at, to_chars, to_text, trim_range,
};
use crate::token::{keywords, texts, Keyword, LexicalError, Token};
use crate::value::{parse_digits, VariableValue};

verus! {

/// The symbols that the tokenizer recognises besides the keywords.
pub fn syntax() -> (v: Vec<Vec<char>>)
    ensures
        v@.len() == 1,
        v@[0]@ == call_marker(),
{
    vec![vec!['(', ')']]
}

/// What a result of the tokenizer and the position of its cursor afterwards say together.
pub open spec fn lexed(r: Result<Token, LexicalError>, next: int) -> Lexed {
    Lexed {
        token: match r {
            Ok(t) => Ok(t@),
            Err(e) => Err(e),
        },
        next,
    }
}

/// Finds the `close` that matches an `open` already passed, scanning from `pos`.
pub fn matching_close(v: &Vec<char>, pos: usize, open: char, close: char) -> (end: usize)
    requires
        pos <= v.len(),
    ensures
        end == find_close(v@, pos as int, 1, open, close),
        pos <= end <= v.len(),
{
    let mut i: usize = pos;
    let mut depth: u128 = 1;
    while i < v.len()
        invariant
            pos <= i <= v.len(),
            1 <= depth <= i - pos + 1,
            find_close(v@, pos as int, 1, open, close) == find_close(
                v@,
                i as int,
                depth as int,
                open,
                close,
            ),
        decreases v.len() - i,
    {
        let c = v[i];
        if c == open {
            depth += 1;
        } else if c == close {
            if depth == 1 {
                return i;
            }
            depth -= 1;
        }
        i += 1;
    }
    i
}

/// Finds the `"` that closes a quoted text, scanning from `pos`; a backslash hides the
/// character behind it.
pub fn closing_quote_from(v: &Vec<char>, pos: usize) -> (end: usize)
    requires
        pos <= v.len(),
    ensures
        end == closing_quote(v@, pos as int),
        pos <= end <= v.len(),
{
    let mut i: usize = pos;
    while i < v.len()
        invariant
            pos <= i <= v.len(),
            closing_quote(v@, pos as int) == closing_quote(v@, i as int),
        decreases v.len() - i,
    {
        let c = v[i];
        if c == '\\' {
            if i + 1 >= v.len() {
                assert(closing_quote(v@, i + 2) == v@.len());
                return v.len();
            }
            i += 2;
        } else if c == '"' {
            return i;
        } else {
            i += 1;
        }
    }
    i
}

/// Splits the text of an argument list into its arguments.
pub fn split_arguments(v: &Vec<char>) -> (r: Result<Vec<String>, LexicalError>)
    ensures
        match r {
            Ok(args) => split_args(v@, 0) == Ok::<Seq<Seq<char>>, LexicalError>(texts(args@)),
            Err(e) => split_args(v@, 0) == Err::<Seq<Seq<char>>, LexicalError>(e),
        },
{
    let mut args: Vec<String> = Vec::new();
    let mut pos: usize = 0;
    while pos < v.len()
        invariant
            pos <= v.len(),
            split_args(v@, 0) == prepend(texts(args@), split_args(v@, pos as int)),
        decreases v.len() - pos,
    {
        let ghost before = texts(args@);
        if v[pos] == '"' {
            let e = find_from(v, pos + 1, '"');
            if e >= v.len() {
                return Err(LexicalError::UnterminatedQuote);
            }
            args.push(to_text(v, pos, e + 1));
            proof {
                assert(texts(args@) == before + seq![v@.subrange(pos as int, e + 1)]);
                let rest = split_args(v@, e + 1);
                match rest {
                    Ok(r) => {
                        assert(before + (seq![v@.subrange(pos as int, e + 1)] + r) == (before
                            + seq![v@.subrange(pos as int, e + 1)]) + r);
                    },
                    Err(_) => {},
                }
            }
            pos = e + 1;
        } else {
            let e = find_from(v, pos, ',');
            let (a, b) = trim_range(v, pos, e);
            if a < b {
                args.push(to_text(v, a, b));
                proof {
                    let piece = v@.subrange(a as int, b as int);
                    assert(texts(args@) == before + seq![piece]);
                    let rest = split_args(v@, e + 1);
                    match rest {
                        Ok(r) => {
                            assert(before + (seq![piece] + r) == (before + seq![piece]) + r);
                        },
                        Err(_) => {},
                    }
                }
            }
            if e < v.len() {
                pos = e + 1;
            } else {
                assert(split_args(v@, e + 1) == Ok::<Seq<Seq<char>>, LexicalError>(Seq::empty()));
                assert(split_args(v@, e as int) == Ok::<Seq<Seq<char>>, LexicalError>(
                    Seq::empty(),
                ));
                pos = e;
            }
        }
    }
    assert(texts(args@) + Seq::<Seq<char>>::empty() == texts(args@));
    Ok(args)
}

/// A cursor over a source text.
pub struct Lexer {
    input: Vec<char>,
    current_pos: usize,
}

impl Lexer {
    #[verifier::type_invariant]
    spec fn cursor_in_text(self) -> bool {
        self.current_pos <= self.input.len()
    }

    /// The text that is tokenized.
    pub closed spec fn source(&self) -> Seq<char> {
        self.input@
    }

    /// The position of the cursor, counted in characters.
    pub closed spec fn position(&self) -> int {
        self.current_pos as int
    }

    /// A tokenizer at the start of `input`.
    pub fn new(input: &str) -> (lexer: Lexer)
        ensures
            lexer.source() == input@,
            lexer.position() == 0,
    {
        Lexer { input: to_chars(input), current_pos: 0 }
    }

    /// The position of the cursor, counted in characters.
    pub fn cursor(&self) -> (pos: usize)
        ensures
            pos == self.position(),
            pos <= self.source().len(),
    {
        proof {
            use_type_invariant(self);
        }
        self.current_pos
    }

    /// The character under the cursor, if the cursor is not at the end of the text.
    pub fn current_char(&self) -> (c: Option<char>)
        ensures
            c == if self.position() < self.source().len() {
                Some(self.source()[self.position()])
            } else {
                None
            },
    {
        if self.current_pos < self.input.len() {
            Some(self.input[self.current_pos])
        } else {
            None
        }
    }

    /// Moves the cursor past whitespace.
    pub fn skip_whitespace(&mut self)
        ensures
            final(self).source() == old(self).source(),
            final(self).position() == crate::text::skip_spaces(
                old(self).source(),
                old(self).position(),
            ),
            old(self).position() <= final(self).position() <= final(self).source().len(),
    {
        proof {
            use_type_invariant(&*self);
        }
        self.current_pos = skip_whitespace_from(&self.input, self.current_pos);
    }

    /// Splits the text of an argument list into its arguments.
    pub fn extract_args(&self, args_str: &str) -> (r: Result<Vec<String>, LexicalError>)
        ensures
            match r {
                Ok(args) => split_args(args_str@, 0) == Ok::<Seq<Seq<char>>, LexicalError>(
                    texts(args@),
                ),
                Err(e) => split_args(args_str@, 0) == Err::<Seq<Seq<char>>, LexicalError>(e),
            },
    {
        let v = to_chars(args_str);
        split_arguments(&v)
    }

    /// Reads a variable declaration; the cursor stands on the keyword `var`.
    fn handle_var(&mut self) -> (r: Result<Token, LexicalError>)
        requires
            old(self).position() + 3 <= old(self).source().len(),
        ensures
            final(self).source() == old(self).source(),
            lexed(r, final(self).position()) == lex_var(
                old(self).source(),
                old(self).position() + 3,
            ),
    {
        proof {
            use_type_invariant(&*self);
        }
        let ghost s = self.input@;
        let a = skip_whitespace_from(&self.input, self.current_pos + 3);
        let mut b: usize = a;
        while b < self.input.len() && is_alphanumeric(self.input[b])
            invariant
                a <= b <= self.input.len(),
                self.input@ == s,
                forall|k: int| a <= k < b ==> alphanumerics()(#[trigger] s[k]),
            decreases self.input.len() - b,
        {
            b += 1;
        }
        proof {
            lemma_scan_while_stops(s, a as int, b as int, alphanumerics());
        }
        let name = to_text(&self.input, a, b);
        let c = skip_whitespace_from(&self.input, b);
        if c < self.input.len() && self.input[c] == '=' {
            let d = skip_whitespace_from(&self.input, c + 1);
            if d < self.input.len() && self.input[d] == '"' {
                let e = closing_quote_from(&self.input, d + 1);
                if e < self.input.len() {
                    let value = to_text(&self.input, d + 1, e);
                    self.current_pos = e + 1;
                    Ok(Token::Variable(name, VariableValue::String(value)))
                } else {
                    self.current_pos = self.input.len();
                    Err(LexicalError::UnterminatedQuote)
                }
            } else {
                let mut e: usize = d;
                while e < self.input.len() && is_digit(self.input[e])
                    invariant
                        d <= e <= self.input.len(),
                        self.input@ == s,
                        forall|k: int| d <= k < e ==> digits()(#[trigger] s[k]),
                    decreases self.input.len() - e,
                {
                    e += 1;
                }
                proof {
                    lemma_scan_while_stops(s, d as int, e as int, digits());
                }
                let parsed = parse_digits(&self.input, d, e);
                self.current_pos = e;
                match parsed {
                    Some(n) => Ok(Token::Variable(name, VariableValue::Integer(n))),
                    None => Err(LexicalError::InvalidInteger),
                }
            }
        } else {
            self.current_pos = c;
            Ok(Token::Variable(name, VariableValue::Undefined))
        }
    }

    /// Reads a print statement; the cursor stands on the keyword `print`.
    fn handle_print(&mut self) -> (r: Result<Token, LexicalError>)
        requires
            old(self).position() + 5 <= old(self).source().len(),
        ensures
            final(self).source() == old(self).source(),
            lexed(r, final(self).position()) == lex_print(
                old(self).source(),
                old(self).position() + 5,
            ),
    {
        proof {
            use_type_invariant(&*self);
        }
        let a = skip_whitespace_from(&self.input, self.current_pos + 5);
        if a < self.input.len() && self.input[a] == '(' {
            let e = matching_close(&self.input, a + 1, '(', ')');
            if e < self.input.len() {
                let inner = slice_chars(&self.input, a + 1, e);
                self.current_pos = e + 1;
                match split_arguments(&inner) {
                    Ok(args) => {
                        if args.len() == 0 {
                            return Err(LexicalError::MissingArgument);
                        }
                        let first = args[0].clone();
                        Ok(Token::PrintWithArgument(first, args))
                    },
                    Err(err) => Err(err),
                }
            } else {
                self.current_pos = self.input.len();
                Err(LexicalError::UnmatchedBracket)
            }
        } else {
            self.current_pos = a;
            Err(LexicalError::UnmatchedBracket)
        }
    }

    /// Reads a function definition; the cursor stands on the keyword `funky`.
    fn handle_funky(&mut self) -> (r: Result<Token, LexicalError>)
        requires
            old(self).position() + 5 <= old(self).source().len(),
        ensures
            final(self).source() == old(self).source(),
            lexed(r, final(self).position()) == lex_funky(
                old(self).source(),
                old(self).position() + 5,
            ),
    {
        proof {
            use_type_invariant(&*self);
        }
        let len = self.input.len();
        let a = skip_whitespace_from(&self.input, self.current_pos + 5);
        let b = find_from(&self.input, a, '(');
        if b >= len {
            self.current_pos = len;
            return Err(LexicalError::UnmatchedBracket);
        }
        let c = find_from(&self.input, b + 1, ')');
        if c >= len {
            self.current_pos = len;
            return Err(LexicalError::UnmatchedBracket);
        }
        let inner = slice_chars(&self.input, b + 1, c);
        let params = match split_arguments(&inner) {
            Ok(params) => params,
            Err(err) => {
                self.current_pos = c + 1;
                return Err(err);
            },
        };
        let d = find_from(&self.input, c + 1, '{');
        if d >= len {
            proof {
                assert(find_close(self.input@, d + 1, 1, '{', '}') == len);
            }
            self.current_pos = len;
            return Err(LexicalError::UnmatchedBrace);
        }
        let e = matching_close(&self.input, d + 1, '{', '}');
        if e >= len {
            self.current_pos = len;
            return Err(LexicalError::UnmatchedBrace);
        }
        let (name_from, name_to) = trim_range(&self.input, a, b);
        let (body_from, body_to) = trim_range(&self.input, d + 1, e);
        let name = to_text(&self.input, name_from, name_to);
        let body = to_text(&self.input, body_from, body_to);
        self.current_pos = e + 1;
        Ok(Token::FunctionDefinition(name, body, params))
    }

    /// Reads a function call; the cursor stands on the marker `()`.
    fn handle_fn_call(&mut self) -> (r: Result<Token, LexicalError>)
        requires
            old(self).position() + 2 <= old(self).source().len(),
        ensures
            final(self).source() == old(self).source(),
            lexed(r, final(self).position()) == lex_call(old(self).source(), old(self).position()),
    {
        proof {
            use_type_invariant(&*self);
        }
        let p = self.current_pos;
        let mut start: usize = p;
        while start > 0 && self.input[start - 1] != '\n'
            invariant
                start <= p <= self.input.len(),
                forall|k: int| start <= k < p ==> other_than('\n')(#[trigger] self.input@[k]),
            decreases start,
        {
            start -= 1;
        }
        proof {
            lemma_scan_back_while_stops(self.input@, 0, start as int, p as int, other_than('\n'));
        }
        let (from, to) = trim_range(&self.input, start, p);
        let name = to_text(&self.input, from, to);
        self.current_pos = p + 2;
        let args: Vec<String> = Vec::new();
        assert(texts(args@) == Seq::<Seq<char>>::empty());
        Ok(Token::FunctionCall(name, args))
    }

    /// Returns the token at the cursor and moves the cursor behind it.
    ///
    /// The token, or the failure, and the new position of the cursor are those that
    /// `lex_at` gives for the text and the old position of the cursor. A print statement
    /// that is returned has at least one argument, and its first argument is the first of
    /// its argument list.
    pub fn next_token(&mut self) -> (r: Result<Token, LexicalError>)
        ensures
            final(self).source() == old(self).source(),
            lexed(r, final(self).position()) == lex_at(old(self).source(), old(self).position()),
            match r {
                Ok(Token::PrintWithArgument(first, args)) => args@.len() >= 1 && args@[0]@
                    == first@,
                _ => true,
            },
    {
        let ghost s = self.input@;
        let ghost start = self.current_pos as int;
        proof {
            use_type_invariant(&*self);
            lemma_lex_at(s, start);
        }
        loop
            invariant
                self.input@ == s,
                s == old(self).source(),
                start == old(self).position(),
                self.current_pos <= self.input.len(),
                lex_at(s, start) == lex_at(s, self.current_pos as int),
            decreases self.input.len() - self.current_pos,
        {
            let ghost here = self.current_pos as int;
            self.skip_whitespace();
            if self.current_pos >= self.input.len() {
                return Ok(Token::EOF);
            }
            let p = self.current_pos;
            let words = keywords();
            let mut i: usize = 0;
            while i < words.len()
                invariant
                    i <= words.len(),
                    words@ == crate::token::keyword_list(),
                    self.input@ == s,
                    s == old(self).source(),
                    start == old(self).position(),
                    lex_at(s, start) == lex_at(s, here),
                    p == crate::text::skip_spaces(s, here),
                    self.current_pos == p,
                    p < self.input.len(),
                    keyword_at(s, p as int) == first_keyword_at(s, p as int, i as int),
                decreases words.len() - i,
            {
                let word = words[i];
                let spelling = word.spelling();
                if starts_with_at(&self.input, p, &spelling) {
                    return match word {
                        Keyword::Var => self.handle_var(),
                        Keyword::Print => self.handle_print(),
                        Keyword::Funky => self.handle_funky(),
                        _ => {
                            self.current_pos = p + spelling.len();
                            Err(LexicalError::UnsupportedKeyword(word))
                        },
                    };
                }
                i += 1;
            }
            let symbols = syntax();
            if starts_with_at(&self.input, p, &symbols[0]) {
                return self.handle_fn_call();
            }
            self.current_pos = p + 1;
        }
    }
}

} // verus!
