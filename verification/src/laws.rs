//! Laws of the language: what holds of every script, every state and every argument.

use vstd::prelude::*;
use crate::error::SpecError;
use crate::format::{
    count_markers, free_of_percent, interleave, is_quoted, lemma_lookup_succeeds, next_placeholder,
    placeholder, placeholder_at, print_text, quoted, substitute, template, unquoted, with_newlines,
};
use crate::grammar::{failed, find_close, lemma_lex_at, lex_at, lex_print};
use crate::text::skip_spaces;
use crate::pool::{
    closed_under, covers, lemma_closed_after_definition, lemma_closed_bounds_calls,
    lemma_covers_fragment,
};
use crate::semantics::{
    bind_parameters, bounds_calls, done, evaluate_token, lemma_call_takes_room, room, run_from,
    stopped, Machine, SpecFunction,
};
use crate::token::{LexicalError, SpecToken};
use crate::value::{rendered, SpecValue};

verus! {

/// Over a stretch of text without `%`, the count of markers does not change.
proof fn lemma_count_skips(s: Seq<char>, pos: int, to: int)
    requires
        0 <= pos <= to <= s.len(),
        forall|i: int| pos <= i < to ==> s[i] != '%',
    ensures
        count_markers(s, pos) == count_markers(s, to),
    decreases to - pos,
{
    if pos < to {
        lemma_count_skips(s, pos + 1, to);
    }
}

/// The first placeholder behind a stretch of text without `%` is the next placeholder.
proof fn lemma_placeholder_found(s: Seq<char>, pos: int, at: int)
    requires
        0 <= pos <= at,
        forall|i: int| pos <= i < at ==> s[i] != '%',
        placeholder_at(s, at),
    ensures
        next_placeholder(s, pos) == at,
    decreases at - pos,
{
    if pos < at {
        lemma_placeholder_found(s, pos + 1, at);
    }
}

/// A text without `%` holds no placeholder.
proof fn lemma_no_placeholder(s: Seq<char>, pos: int)
    requires
        0 <= pos <= s.len(),
        forall|i: int| pos <= i < s.len() ==> s[i] != '%',
    ensures
        next_placeholder(s, pos) == s.len(),
    decreases s.len() - pos,
{
    if pos < s.len() {
        lemma_no_placeholder(s, pos + 1);
    }
}

/// Substitution in a format that stands behind some other text: see
/// `law_substitution_in_order`.
proof fn lemma_substitution_behind(
    before: Seq<char>,
    pieces: Seq<Seq<char>>,
    values: Seq<Seq<char>>,
)
    requires
        pieces.len() == values.len() + 1,
        forall|i: int| 0 <= i < pieces.len() ==> free_of_percent(#[trigger] pieces[i]),
    ensures
        substitute(before + template(pieces), before.len() as int, values) == interleave(
            pieces,
            values,
        ),
        count_markers(before + template(pieces), before.len() as int) == values.len(),
    decreases values.len(),
{
    let s = before + template(pieces);
    let from = before.len() as int;
    let first = pieces[0];
    assert(free_of_percent(first));
    if values.len() == 0 {
        assert(template(pieces) == first);
        assert forall|i: int| from <= i < s.len() implies s[i] != '%' by {
            assert(s[i] == first[i - from]);
        }
        lemma_no_placeholder(s, from);
        lemma_count_skips(s, from, s.len() as int);
        assert(s.subrange(from, s.len() as int) == first);
    } else {
        let rest = pieces.drop_first();
        let marks = Seq::new((pieces.len() - 1) as nat, |i: int| placeholder());
        assert(marks.drop_first() == Seq::new((rest.len() - 1) as nat, |i: int| placeholder()));
        assert(marks[0] == placeholder());
        assert(template(pieces) == first + placeholder() + template(rest));
        let at = from + first.len();
        let next = before + first + placeholder();
        assert(s == next + template(rest));
        assert forall|i: int| from <= i < at implies s[i] != '%' by {
            assert(s[i] == first[i - from]);
        }
        assert(s[at] == '%' && s[at + 1] == 's') by {
            assert(next[at] == '%');
            assert(next[at + 1] == 's');
        }
        lemma_placeholder_found(s, from, at);
        lemma_count_skips(s, from, at);
        assert forall|i: int| 0 <= i < rest.len() implies free_of_percent(#[trigger] rest[i]) by {
            assert(rest[i] == pieces[i + 1]);
        }
        lemma_substitution_behind(next, rest, values.drop_first());
        assert(s.subrange(from, at) == first);
        assert(count_markers(s, at) == 1 + count_markers(s, at + 1));
        assert(count_markers(s, at + 1) == count_markers(s, at + 2));
    }
}

/// Substitution is positional: in a format made of pieces without `%`, with a placeholder
/// between each two of them, the placeholders are as many as the values, and the first
/// placeholder is replaced by the first value, the second by the second, and so on, so
/// that every value is written once, in its place, between the pieces around it.
pub proof fn law_substitution_in_order(pieces: Seq<Seq<char>>, values: Seq<Seq<char>>)
    requires
        pieces.len() == values.len() + 1,
        forall|i: int| 0 <= i < pieces.len() ==> free_of_percent(#[trigger] pieces[i]),
    ensures
        count_markers(template(pieces), 0) == values.len(),
        substitute(template(pieces), 0, values) == interleave(pieces, values),
{
    lemma_substitution_behind(Seq::empty(), pieces, values);
    assert(Seq::<char>::empty() + template(pieces) == template(pieces));
}

/// A print statement whose format is made of pieces without `%`, with a placeholder
/// between each two of them, and whose arguments behind the format are as many as the
/// placeholders and all name variables, succeeds; it writes the pieces with the rendered
/// values of the variables between them, the value of the first name in the place of the
/// first placeholder and so on, with written-out newlines converted.
pub proof fn law_print_substitutes_in_order(
    pieces: Seq<Seq<char>>,
    names: Seq<Seq<char>>,
    variables: Map<Seq<char>, SpecValue>,
)
    requires
        pieces.len() == names.len() + 1,
        forall|i: int| 0 <= i < pieces.len() ==> free_of_percent(#[trigger] pieces[i]),
        forall|i: int| 0 <= i < names.len() ==> variables.contains_key(#[trigger] names[i]),
    ensures
        print_text(quoted(template(pieces)), seq![quoted(template(pieces))] + names, variables)
            == Ok::<Seq<char>, SpecError>(
            with_newlines(
                interleave(pieces, Seq::new(names.len(), |i: int| rendered(variables[names[i]]))),
                0,
            ),
        ),
{
    let format = template(pieces);
    let first = quoted(format);
    let args = seq![first] + names;
    let values = Seq::new(names.len(), |i: int| rendered(variables[names[i]]));
    assert(is_quoted(first));
    assert(unquoted(first) == format);
    assert(args.subrange(1, args.len() as int) == names);
    law_substitution_in_order(pieces, values);
    lemma_lookup_succeeds(names, variables, values);
}

/// A print statement whose quoted format holds a number of `%` other than the number of
/// arguments behind it fails, and leaves the state as it was: nothing is written.
pub proof fn law_arity_mismatch_writes_nothing(
    pool: Set<Seq<char>>,
    stack: Seq<Seq<char>>,
    first: Seq<char>,
    args: Seq<Seq<char>>,
    machine: Machine,
)
    requires
        bounds_calls(pool, machine.functions),
        is_quoted(first),
        count_markers(unquoted(first), 0) + 1 != args.len(),
    ensures
        evaluate_token(pool, stack, SpecToken::PrintWithArgument(first, args), machine) == stopped(
            machine,
            SpecError::FormatArityMismatch(first),
        ),
{
}

/// A variable declaration binds its name to its value and leaves every other binding,
/// the function table and the output as they were.
pub proof fn law_declaration_binds(
    pool: Set<Seq<char>>,
    stack: Seq<Seq<char>>,
    name: Seq<char>,
    value: SpecValue,
    machine: Machine,
)
    requires
        bounds_calls(pool, machine.functions),
    ensures
        ({
            let after = evaluate_token(pool, stack, SpecToken::Variable(name, value), machine);
            &&& after.error is None
            &&& after.machine.variables[name] == value
            &&& after.machine.variables.contains_key(name)
            &&& forall|other: Seq<char>|
                other != name ==> after.machine.variables.contains_key(other)
                    == machine.variables.contains_key(other) && after.machine.variables[other]
                    == machine.variables[other]
            &&& after.machine.functions == machine.functions
            &&& after.machine.output == machine.output
        }),
{
}

/// Of two definitions of one name, the later one counts: the state after both is the
/// state after the second alone.
pub proof fn law_redefinition_replaces(
    pool: Set<Seq<char>>,
    stack: Seq<Seq<char>>,
    name: Seq<char>,
    first: SpecFunction,
    second: SpecFunction,
    machine: Machine,
)
    requires
        bounds_calls(pool, machine.functions),
        pool.contains(name),
    ensures
        ({
            let once = evaluate_token(
                pool,
                stack,
                SpecToken::FunctionDefinition(name, first.body, first.params),
                machine,
            );
            let twice = evaluate_token(
                pool,
                stack,
                SpecToken::FunctionDefinition(name, second.body, second.params),
                once.machine,
            );
            &&& once.error is None
            &&& twice == evaluate_token(
                pool,
                stack,
                SpecToken::FunctionDefinition(name, second.body, second.params),
                machine,
            )
            &&& twice.machine.functions[name] == second
        }),
{
    let once = machine.functions.insert(name, first);
    assert(once.insert(name, second) == machine.functions.insert(name, second));
    assert(bounds_calls(pool, once));
}

/// A call of a function that is being executed fails, and leaves the state as it was:
/// the body is not run again.
pub proof fn law_reentry_is_refused(
    pool: Set<Seq<char>>,
    stack: Seq<Seq<char>>,
    name: Seq<char>,
    args: Seq<Seq<char>>,
    machine: Machine,
)
    requires
        bounds_calls(pool, machine.functions),
        machine.functions.contains_key(name),
        stack.contains(name),
    ensures
        evaluate_token(pool, stack, SpecToken::FunctionCall(name, args), machine) == stopped(
            machine,
            SpecError::RecursiveCallDetected(name),
        ),
{
}

/// A function whose body starts with a call of itself fails on that call: calling it
/// gives `RecursiveCallDetected` with its name, and changes neither the variables of the
/// caller, nor the function table, nor the output.
pub proof fn law_self_call_is_detected(
    pool: Set<Seq<char>>,
    stack: Seq<Seq<char>>,
    name: Seq<char>,
    args: Seq<Seq<char>>,
    inner_args: Seq<Seq<char>>,
    machine: Machine,
)
    requires
        bounds_calls(pool, machine.functions),
        machine.functions.contains_key(name),
        !stack.contains(name),
        lex_at(machine.functions[name].body, 0).token == Ok::<SpecToken, LexicalError>(
            SpecToken::FunctionCall(name, inner_args),
        ),
    ensures
        evaluate_token(pool, stack, SpecToken::FunctionCall(name, args), machine) == stopped(
            machine,
            SpecError::RecursiveCallDetected(name),
        ),
{
    let inside = stack.push(name);
    assert(inside[stack.len() as int] == name);
    assert(inside.contains(name));
    let function = machine.functions[name];
    let frame = Machine {
        variables: bind_parameters(function.params, args),
        functions: machine.functions,
        output: machine.output,
    };
    let inner_call = SpecToken::FunctionCall(name, inner_args);
    assert(evaluate_token(pool, inside, inner_call, frame) == stopped(
        frame,
        SpecError::RecursiveCallDetected(name),
    ));
    assert(run_from(pool, inside, function.body, 0, frame) == stopped(
        frame,
        SpecError::RecursiveCallDetected(name),
    ));
}

/// No name is twice on the call stack: a stack without repetition stays so when a call
/// that is accepted puts its name on it.
pub proof fn law_call_stack_stays_distinct(stack: Seq<Seq<char>>, name: Seq<char>)
    requires
        stack.no_duplicates(),
        !stack.contains(name),
    ensures
        stack.push(name).no_duplicates(),
{
    let after = stack.push(name);
    assert forall|i: int, j: int| 0 <= i < after.len() && 0 <= j < after.len() && i != j implies
        after[i] != after[j] by {
        if i < stack.len() && j < stack.len() {
            assert(stack[i] != stack[j]);
        } else if i < stack.len() {
            assert(stack.contains(stack[i]));
        } else {
            assert(stack.contains(stack[j]));
        }
    }
}

/// A call of a name that the function table does not hold fails, and leaves the state as
/// it was.
pub proof fn law_unknown_function_fails(
    pool: Set<Seq<char>>,
    stack: Seq<Seq<char>>,
    name: Seq<char>,
    args: Seq<Seq<char>>,
    machine: Machine,
)
    requires
        bounds_calls(pool, machine.functions),
        !machine.functions.contains_key(name),
    ensures
        evaluate_token(pool, stack, SpecToken::FunctionCall(name, args), machine) == stopped(
            machine,
            SpecError::FunctionNotFound(name),
        ),
{
}

/// Every print statement that the tokenizer gives has at least one argument, and holds
/// its first argument at the head of its argument list.
pub proof fn law_print_token_holds_its_literal(text: Seq<char>, pos: int)
    requires
        0 <= pos <= text.len(),
    ensures
        match lex_at(text, pos).token {
            Ok(SpecToken::PrintWithArgument(first, args)) => args.len() >= 1 && args[0] == first,
            _ => true,
        },
{
    lemma_lex_at(text, pos);
}

/// A print statement whose brackets close at once has no argument, and fails for want of
/// one; tokenizing goes on behind the closing bracket.
pub proof fn law_print_without_argument_fails(text: Seq<char>, from: int)
    requires
        0 <= skip_spaces(text, from),
        skip_spaces(text, from) + 1 < text.len(),
        text[skip_spaces(text, from)] == '(',
        text[skip_spaces(text, from) + 1] == ')',
    ensures
        lex_print(text, from) == failed(
            LexicalError::MissingArgument,
            skip_spaces(text, from) + 2,
        ),
{
    let open = skip_spaces(text, from);
    assert(find_close(text, open + 1, 1, '(', ')') == open + 1);
    assert(text.subrange(open + 1, open + 1).len() == 0);
}

/// A token stream ends once: behind the end of the input there is the end of the input
/// again, at the same place.
pub proof fn law_end_of_input_repeats(text: Seq<char>, pos: int)
    requires
        0 <= pos <= text.len(),
        lex_at(text, pos).token == Ok::<SpecToken, LexicalError>(SpecToken::EOF),
    ensures
        lex_at(text, pos).next == text.len(),
        lex_at(text, lex_at(text, pos).next) == lex_at(text, pos),
{
    lemma_lex_at(text, pos);
    let end = text.len() as int;
    assert(crate::text::skip_spaces(text, end) == end);
}

/// A run of a text that holds whitespace only changes nothing and succeeds.
pub proof fn law_empty_run(
    pool: Set<Seq<char>>,
    stack: Seq<Seq<char>>,
    text: Seq<char>,
    machine: Machine,
)
    requires
        bounds_calls(pool, machine.functions),
        lex_at(text, 0).token == Ok::<SpecToken, LexicalError>(SpecToken::EOF),
    ensures
        run_from(pool, stack, text, 0, machine) == done(machine),
{
}

/// Whether `pool` holds what a token defines: for a function definition the name and
/// the fragments of the body; nothing for any other token.
pub open spec fn covers_token(pool: Set<Seq<char>>, token: SpecToken) -> bool {
    match token {
        SpecToken::FunctionDefinition(name, body, _) => pool.contains(name) && covers(pool, body),
        _ => true,
    }
}

/// The effect of an instruction does not depend on the pool, as long as the pool is
/// closed under the function table and covers the token; and the pool then stays closed
/// under the function table that the instruction leaves.
pub proof fn law_pool_is_immaterial_to_token(
    pool: Set<Seq<char>>,
    other: Set<Seq<char>>,
    stack: Seq<Seq<char>>,
    token: SpecToken,
    machine: Machine,
)
    requires
        closed_under(pool, machine.functions),
        closed_under(other, machine.functions),
        covers_token(pool, token),
        covers_token(other, token),
    ensures
        evaluate_token(pool, stack, token, machine) == evaluate_token(
            other,
            stack,
            token,
            machine,
        ),
        closed_under(pool, evaluate_token(pool, stack, token, machine).machine.functions),
        closed_under(other, evaluate_token(pool, stack, token, machine).machine.functions),
    decreases room(pool, stack), 0int, 0int,
{
    lemma_closed_bounds_calls(pool, machine.functions);
    lemma_closed_bounds_calls(other, machine.functions);
    match token {
        SpecToken::FunctionDefinition(name, body, params) => {
            let function = SpecFunction { body, params };
            lemma_closed_after_definition(pool, machine.functions, name, function);
            lemma_closed_after_definition(other, machine.functions, name, function);
        },
        SpecToken::FunctionCall(name, args) => {
            if machine.functions.contains_key(name) && !stack.contains(name) {
                lemma_call_takes_room(pool, stack, name);
                let function = machine.functions[name];
                let frame = Machine {
                    variables: bind_parameters(function.params, args),
                    functions: machine.functions,
                    output: machine.output,
                };
                law_pool_is_immaterial(pool, other, stack.push(name), function.body, 0, frame);
            }
        },
        _ => {},
    }
}

/// The outcome of a run does not depend on the pool, as long as the pool is closed under
/// the function table and covers the text that is run; and the pool then stays closed
/// under the function table that the run leaves.
pub proof fn law_pool_is_immaterial(
    pool: Set<Seq<char>>,
    other: Set<Seq<char>>,
    stack: Seq<Seq<char>>,
    text: Seq<char>,
    pos: int,
    machine: Machine,
)
    requires
        closed_under(pool, machine.functions),
        closed_under(other, machine.functions),
        covers(pool, text),
        covers(other, text),
        0 <= pos <= text.len(),
    ensures
        run_from(pool, stack, text, pos, machine) == run_from(other, stack, text, pos, machine),
        closed_under(pool, run_from(pool, stack, text, pos, machine).machine.functions),
        closed_under(other, run_from(pool, stack, text, pos, machine).machine.functions),
    decreases room(pool, stack), 1int, text.len() - pos,
{
    lemma_closed_bounds_calls(pool, machine.functions);
    lemma_closed_bounds_calls(other, machine.functions);
    lemma_lex_at(text, pos);
    let lexed = lex_at(text, pos);
    match lexed.token {
        Err(_) => {},
        Ok(SpecToken::EOF) => {},
        Ok(token) => {
            if let SpecToken::FunctionDefinition(name, body, _) = token {
                lemma_covers_fragment(pool, text, name);
                lemma_covers_fragment(pool, text, body);
                lemma_covers_fragment(other, text, name);
                lemma_covers_fragment(other, text, body);
            }
            law_pool_is_immaterial_to_token(pool, other, stack, token, machine);
            let outcome = evaluate_token(pool, stack, token, machine);
            if outcome.error is None {
                law_pool_is_immaterial(pool, other, stack, text, lexed.next, outcome.machine);
            }
        },
    }
}

} // verus!
