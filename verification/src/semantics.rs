//! What executing a script means: the state of a run, the effect of each instruction on
//! it, and the outcome of running a text to its end.
//!
//! The functions here are the reference against which the execution engine is verified.

use vstd::prelude::*;
use crate::error::SpecError;
use crate::format::print_text;
use crate::grammar::{lemma_lex_at, lex_at};
use crate::token::SpecToken;
use crate::value::SpecValue;

verus! {

/// A function as the function table holds it: the source text of its body and the names
/// of its parameters.
pub struct SpecFunction {
    pub body: Seq<char>,
    pub params: Seq<Seq<char>>,
}

/// The state that an instruction works on, but for the call stack: the variables of the
/// current frame, the function table, and everything written so far.
pub struct Machine {
    pub variables: Map<Seq<char>, SpecValue>,
    pub functions: Map<Seq<char>, SpecFunction>,
    pub output: Seq<char>,
}

/// How an instruction or a run ended: the state it left, and the failure that stopped
/// it, if one did.
pub struct Outcome {
    pub machine: Machine,
    pub error: Option<SpecError>,
}

/// The outcome of an instruction that succeeded and left the state `machine`.
pub open spec fn done(machine: Machine) -> Outcome {
    Outcome { machine, error: None }
}

/// The outcome of an instruction that failed with `error` in the state `machine`.
pub open spec fn stopped(machine: Machine, error: SpecError) -> Outcome {
    Outcome { machine, error: Some(error) }
}

/// The environment in which the body of a function starts: each parameter is bound to
/// the argument at its position, as a text; a parameter without an argument is bound to
/// the undefined value; arguments without a parameter are ignored. Where a name occurs
/// twice among the parameters, the later one counts.
pub open spec fn bind_parameters(params: Seq<Seq<char>>, args: Seq<Seq<char>>) -> Map<
    Seq<char>,
    SpecValue,
>
    decreases params.len(),
{
    if params.len() == 0 {
        Map::empty()
    } else {
        let last = params.len() - 1;
        bind_parameters(params.drop_last(), args).insert(
            params[last],
            if last < args.len() {
                SpecValue::Text(args[last])
            } else {
                SpecValue::Undefined
            },
        )
    }
}

/// How many names of `pool` are not on the call stack: with every name that can be
/// called in `pool`, a bound on how deep calls can still nest.
pub open spec fn room(pool: Set<Seq<char>>, stack: Seq<Seq<char>>) -> nat {
    pool.difference(stack.to_set()).len()
}

/// Whether `pool` is finite and holds the name of every function of the table.
pub open spec fn bounds_calls(pool: Set<Seq<char>>, functions: Map<Seq<char>, SpecFunction>) -> bool {
    &&& pool.finite()
    &&& forall|name: Seq<char>| functions.contains_key(name) ==> #[trigger] pool.contains(name)
}

/// A call of a function that is in `pool` and not on the stack leaves less room.
pub proof fn lemma_call_takes_room(pool: Set<Seq<char>>, stack: Seq<Seq<char>>, name: Seq<char>)
    requires
        pool.finite(),
        pool.contains(name),
        !stack.contains(name),
    ensures
        room(pool, stack.push(name)) < room(pool, stack),
{
    let before = pool.difference(stack.to_set());
    let after = pool.difference(stack.push(name).to_set());
    assert(after =~= before.remove(name)) by {
        assert forall|x: Seq<char>| after.contains(x) == before.remove(name).contains(x) by {
            if stack.push(name).contains(x) {
                let i = choose|i: int| 0 <= i < stack.push(name).len() && stack.push(name)[i] == x;
                if i < stack.len() {
                    assert(stack[i] == x);
                }
            }
            if stack.contains(x) {
                let i = choose|i: int| 0 <= i < stack.len() && stack[i] == x;
                assert(stack.push(name)[i] == x);
            }
            if x == name {
                assert(stack.push(name)[stack.len() as int] == name);
            }
        }
    }
    vstd::set_lib::lemma_set_subset_finite(pool, before);
    assert(before.contains(name));
}

/// The effect of one instruction.
///
/// `pool` only bounds how deep calls can nest; see `run_from`. `stack` holds the names of
/// the functions that are being executed, the innermost last.
///
/// - `EOF` changes nothing.
/// - A print statement appends what `print_text` gives to the output, or fails.
/// - A variable declaration binds the name in the current environment.
/// - A function definition binds the name in the function table.
/// - A call fails when the function table does not hold the name, or when the name is on
///   the stack. The stack is one for the whole chain of calls, so a function is refused
///   whenever it is being executed, also when it is reached again through other
///   functions. Otherwise the body runs, with the name on the stack, in an environment of
///   its own that `bind_parameters` gives, on the same function table and output. The
///   caller's variables stay as they were; what the body did to the function table and
///   the output stays, also when the body failed, and its failure is the failure of the
///   call.
pub open spec fn evaluate_token(
    pool: Set<Seq<char>>,
    stack: Seq<Seq<char>>,
    token: SpecToken,
    machine: Machine,
) -> Outcome
    decreases room(pool, stack), 0int, 0int,
    when bounds_calls(pool, machine.functions)
{
    match token {
        SpecToken::EOF => done(machine),
        SpecToken::PrintWithArgument(first, args) => match print_text(
            first,
            args,
            machine.variables,
        ) {
            Ok(text) => done(Machine { output: machine.output + text, ..machine }),
            Err(error) => stopped(machine, error),
        },
        SpecToken::Variable(name, value) => done(
            Machine { variables: machine.variables.insert(name, value), ..machine },
        ),
        SpecToken::FunctionDefinition(name, body, params) => done(
            Machine {
                functions: machine.functions.insert(name, SpecFunction { body, params }),
                ..machine
            },
        ),
        SpecToken::FunctionCall(name, args) => if !machine.functions.contains_key(name) {
            stopped(machine, SpecError::FunctionNotFound(name))
        } else if stack.contains(name) {
            stopped(machine, SpecError::RecursiveCallDetected(name))
        } else {
            proof {
                lemma_call_takes_room(pool, stack, name);
            }
            let function = machine.functions[name];
            let inner = run_from(
                pool,
                stack.push(name),
                function.body,
                0,
                Machine {
                    variables: bind_parameters(function.params, args),
                    functions: machine.functions,
                    output: machine.output,
                },
            );
            Outcome {
                machine: Machine {
                    variables: machine.variables,
                    functions: inner.machine.functions,
                    output: inner.machine.output,
                },
                error: inner.error,
            }
        },
    }
}

/// The outcome of running `text` from position `pos` to its end: the tokens are taken one
/// after the other and evaluated, until the end of the text or the first failure, of the
/// tokenizer or of an instruction.
///
/// `pool` has no part in the outcome. It is there to show that a run ends: it is a
/// finite set that holds the name of every function that can be called, and a call is
/// only made for a name that is not yet on the stack.
pub open spec fn run_from(
    pool: Set<Seq<char>>,
    stack: Seq<Seq<char>>,
    text: Seq<char>,
    pos: int,
    machine: Machine,
) -> Outcome
    decreases room(pool, stack), 1int, text.len() - pos,
    when bounds_calls(pool, machine.functions) && 0 <= pos <= text.len()
{
    let lexed = lex_at(text, pos);
    match lexed.token {
        Err(error) => stopped(machine, SpecError::Lexical(error)),
        Ok(SpecToken::EOF) => done(machine),
        Ok(token) => {
            let outcome = evaluate_token(pool, stack, token, machine);
            if outcome.error is Some {
                outcome
            } else {
                proof {
                    lemma_lex_at(text, pos);
                }
                run_from(pool, stack, text, lexed.next, outcome.machine)
            }
        },
    }
}

} // verus!
