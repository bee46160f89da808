//! The execution engine: it takes the tokens of a script one after the other and applies
//! each to the variables, the function table, the call stack and the output.
//!
//! Nothing is written to a stream here: what the script writes is appended to the
//! `output` of the interpreter, statement by statement, for the caller to pass on.

use vstd::prelude::*;
use crate::dictionary::Dictionary;
use crate::error::{Error, RuntimeError};
use crate::format::format_print;
use crate::grammar::lemma_lex_at;
use crate::lexer::Lexer;
use crate::pool::{
    closed_under, covers, lemma_closed_after_definition, lemma_closed_bounds_calls,
    lemma_covers_fragment, lemma_run_pool, lemma_table_pool_closed, run_pool, table_pool,
};
use crate::semantics::{
    bind_parameters, bounds_calls, evaluate_token, lemma_call_takes_room, room, run_from,
    Machine, Outcome, SpecFunction,
};
use crate::text::append_chars;
use crate::token::{texts, SpecToken, Token};
use crate::value::VariableValue;

verus! {

/// A function as the function table holds it: the source text of its body and the names
/// of its parameters.
#[derive(Debug, PartialEq, Eq)]
pub struct Function {
    pub body: String,
    pub params: Vec<String>,
}

impl View for Function {
    type V = SpecFunction;

    open spec fn view(&self) -> SpecFunction {
        SpecFunction { body: self.body@, params: texts(self.params@) }
    }
}

/// The state of a run.
pub struct Interpreter {
    /// The variables of the current frame.
    pub variables: Dictionary<VariableValue>,
    /// The function table.
    pub functions: Dictionary<Function>,
    /// The names of the functions that are being executed, the innermost last.
    pub call_stack: Vec<String>,
    /// Everything that the statements executed so far have written.
    pub output: String,
}

/// The state that the parts of an interpreter make.
pub open spec fn machine_of(
    variables: Dictionary<VariableValue>,
    functions: Dictionary<Function>,
    output: String,
) -> Machine {
    Machine { variables: variables@, functions: functions@, output: output@ }
}

/// The outcome that a state and a result make.
pub open spec fn outcome_of(machine: Machine, r: Result<(), Error>) -> Outcome {
    Outcome {
        machine,
        error: match r {
            Ok(_) => None,
            Err(e) => Some(e@),
        },
    }
}

/// Whether the call stack holds `name`.
fn stack_holds(call_stack: &Vec<String>, name: &String) -> (r: bool)
    ensures
        r == texts(call_stack@).contains(name@),
{
    let mut i: usize = 0;
    while i < call_stack.len()
        invariant
            i <= call_stack.len(),
            forall|k: int| 0 <= k < i ==> texts(call_stack@)[k] != name@,
        decreases call_stack.len() - i,
    {
        if call_stack[i] == *name {
            assert(texts(call_stack@)[i as int] == name@);
            return true;
        }
        i += 1;
    }
    false
}

/// The environment in which the body of a function starts.
fn bind(params: &Vec<String>, args: &Vec<String>) -> (env: Dictionary<VariableValue>)
    ensures
        env@ == bind_parameters(texts(params@), texts(args@)),
{
    let mut env: Dictionary<VariableValue> = Dictionary::new();
    let mut k: usize = 0;
    assert(texts(params@).take(0) == Seq::<Seq<char>>::empty());
    while k < params.len()
        invariant
            k <= params.len(),
            env@ == bind_parameters(texts(params@).take(k as int), texts(args@)),
        decreases params.len() - k,
    {
        let value = if k < args.len() {
            VariableValue::String(args[k].clone())
        } else {
            VariableValue::Undefined
        };
        proof {
            let next = texts(params@).take(k + 1);
            assert(next.drop_last() == texts(params@).take(k as int));
            assert(next[k as int] == params@[k as int]@);
        }
        env.insert(params[k].clone(), value);
        k += 1;
    }
    assert(texts(params@).take(params.len() as int) == texts(params@));
    env
}

/// A copy of a list of strings.
fn copy_texts(v: &Vec<String>) -> (r: Vec<String>)
    ensures
        texts(r@) == texts(v@),
{
    let mut r: Vec<String> = Vec::new();
    let mut i: usize = 0;
    while i < v.len()
        invariant
            i <= v.len(),
            r@.len() == i,
            forall|k: int| 0 <= k < i ==> r@[k]@ == v@[k]@,
        decreases v.len() - i,
    {
        r.push(v[i].clone());
        i += 1;
    }
    assert(texts(r@) =~= texts(v@));
    r
}

/// Applies one token to the parts of an interpreter.
fn apply(
    token: &Token,
    variables: &mut Dictionary<VariableValue>,
    functions: &mut Dictionary<Function>,
    call_stack: &mut Vec<String>,
    output: &mut String,
    Ghost(pool): Ghost<Set<Seq<char>>>,
) -> (r: Result<(), Error>)
    requires
        closed_under(pool, old(functions)@),
    ensures
        outcome_of(machine_of(*final(variables), *final(functions), *final(output)), r)
            == evaluate_token(
            pool,
            texts(old(call_stack)@),
            token@,
            machine_of(*old(variables), *old(functions), *old(output)),
        ),
        texts(final(call_stack)@) == texts(old(call_stack)@),
        match token@ {
            SpecToken::FunctionDefinition(name, body, _) => pool.contains(name) && covers(
                pool,
                body,
            ) ==> closed_under(pool, final(functions)@),
            _ => closed_under(pool, final(functions)@),
        },
    decreases room(pool, texts(old(call_stack)@)), 0int,
{
    match token {
        Token::EOF => Ok(()),
        Token::PrintWithArgument(first, args) => {
            match format_print(first, args, variables) {
                Ok(text) => {
                    append_chars(output, &text);
                    Ok(())
                },
                Err(e) => Err(Error::Runtime(e)),
            }
        },
        Token::Variable(name, value) => {
            variables.insert(name.clone(), value.clone());
            Ok(())
        },
        Token::FunctionDefinition(name, body, params) => {
            let function = Function { body: body.clone(), params: copy_texts(params) };
            proof {
                if pool.contains(name@) && covers(pool, body@) {
                    lemma_closed_after_definition(pool, functions@, name@, function@);
                }
            }
            functions.insert(name.clone(), function);
            Ok(())
        },
        Token::FunctionCall(name, args) => {
            let (body, mut env) = match functions.get(name.as_str()) {
                None => {
                    return Err(Error::Runtime(RuntimeError::FunctionNotFound(name.clone())));
                },
                Some(function) => (function.body.clone(), bind(&function.params, args)),
            };
            if stack_holds(call_stack, name) {
                return Err(Error::Runtime(RuntimeError::RecursiveCallDetected(name.clone())));
            }
            let ghost stack = texts(call_stack@);
            call_stack.push(name.clone());
            proof {
                assert(texts(call_stack@) == stack.push(name@));
                lemma_call_takes_room(pool, stack, name@);
            }
            let r = run_text(body.as_str(), &mut env, functions, call_stack, output, Ghost(pool));
            let ghost pushed = texts(call_stack@);
            call_stack.pop();
            assert(texts(call_stack@) =~= pushed.drop_last());
            assert(stack.push(name@).drop_last() =~= stack);
            r
        },
    }
}

/// Runs a text to its end on the parts of an interpreter.
fn run_text(
    text: &str,
    variables: &mut Dictionary<VariableValue>,
    functions: &mut Dictionary<Function>,
    call_stack: &mut Vec<String>,
    output: &mut String,
    Ghost(pool): Ghost<Set<Seq<char>>>,
) -> (r: Result<(), Error>)
    requires
        closed_under(pool, old(functions)@),
        covers(pool, text@),
    ensures
        outcome_of(machine_of(*final(variables), *final(functions), *final(output)), r)
            == run_from(
            pool,
            texts(old(call_stack)@),
            text@,
            0,
            machine_of(*old(variables), *old(functions), *old(output)),
        ),
        texts(final(call_stack)@) == texts(old(call_stack)@),
        closed_under(pool, final(functions)@),
    decreases room(pool, texts(old(call_stack)@)), 1int,
{
    let mut lexer = Lexer::new(text);
    let ghost stack = texts(call_stack@);
    let ghost start = machine_of(*variables, *functions, *output);
    loop
        invariant
            lexer.source() == text@,
            0 <= lexer.position() <= text@.len(),
            covers(pool, text@),
            closed_under(pool, functions@),
            texts(call_stack@) == stack,
            stack == texts(old(call_stack)@),
            start == machine_of(*old(variables), *old(functions), *old(output)),
            run_from(pool, stack, text@, 0, start) == run_from(
                pool,
                stack,
                text@,
                lexer.position(),
                machine_of(*variables, *functions, *output),
            ),
        decreases text@.len() - lexer.position(),
    {
        let ghost pos = lexer.position();
        proof {
            lemma_lex_at(text@, pos);
            lemma_closed_bounds_calls(pool, functions@);
        }
        let token = match lexer.next_token() {
            Err(e) => {
                return Err(Error::Lexical(e));
            },
            Ok(token) => token,
        };
        if let Token::EOF = token {
            return Ok(());
        }
        proof {
            if let SpecToken::FunctionDefinition(name, body, _) = token@ {
                lemma_covers_fragment(pool, text@, name);
                lemma_covers_fragment(pool, text@, body);
            }
        }
        match apply(&token, variables, functions, call_stack, output, Ghost(pool)) {
            Err(e) => {
                return Err(e);
            },
            Ok(()) => {},
        }
    }
}

impl Interpreter {
    /// The variables, the function table and the output, as the semantics sees them.
    pub open spec fn machine(&self) -> Machine {
        machine_of(self.variables, self.functions, self.output)
    }

    /// The names on the call stack, the innermost last.
    pub open spec fn stack(&self) -> Seq<Seq<char>> {
        texts(self.call_stack@)
    }

    /// An interpreter without variables or functions, that executes nothing and has
    /// written nothing.
    pub fn new() -> (interpreter: Self)
        ensures
            interpreter.machine() == (Machine {
                variables: Map::empty(),
                functions: Map::empty(),
                output: Seq::empty(),
            }),
            interpreter.stack() == Seq::<Seq<char>>::empty(),
    {
        let interpreter = Interpreter {
            variables: Dictionary::new(),
            functions: Dictionary::new(),
            call_stack: Vec::new(),
            output: String::new(),
        };
        assert(interpreter.stack() =~= Seq::<Seq<char>>::empty());
        interpreter
    }

    /// Binds `name` to `value` in the current environment; a value bound to `name`
    /// before is replaced.
    pub fn assign(&mut self, name: &str, value: VariableValue)
        ensures
            final(self).machine() == (Machine {
                variables: old(self).machine().variables.insert(name@, value@),
                ..old(self).machine()
            }),
            final(self).stack() == old(self).stack(),
    {
        self.variables.insert(name.to_owned(), value);
    }

    /// Applies one token to the state.
    ///
    /// The state afterwards and the failure, if there is one, are those that
    /// `evaluate_token` gives, with the pool of the function table, which bounds its
    /// calls. The call stack is the same before and after, whether the token succeeded or
    /// failed.
    pub fn evaluate(&mut self, token: &Token) -> (r: Result<(), Error>)
        ensures
            outcome_of(final(self).machine(), r) == evaluate_token(
                table_pool(old(self).machine().functions),
                old(self).stack(),
                token@,
                old(self).machine(),
            ),
            bounds_calls(table_pool(old(self).machine().functions), old(self).machine().functions),
            final(self).stack() == old(self).stack(),
    {
        let ghost pool = table_pool(self.functions@);
        proof {
            self.functions.lemma_finite();
            lemma_table_pool_closed(self.functions@);
        }
        apply(
            token,
            &mut self.variables,
            &mut self.functions,
            &mut self.call_stack,
            &mut self.output,
            Ghost(pool),
        )
    }

    /// Runs a script: takes its tokens one after the other and applies each, up to the end
    /// of the text or the first failure.
    ///
    /// The state afterwards and the failure, if there is one, are those that `run_from`
    /// gives for the whole text, with the pool of the text and the function table, which
    /// bounds their calls. What the script wrote before a failure stays in the output.
    /// The call stack is the same before and after, whether the run succeeded or failed.
    pub fn run(&mut self, input: String) -> (r: Result<(), Error>)
        ensures
            outcome_of(final(self).machine(), r) == run_from(
                run_pool(input@, old(self).machine().functions),
                old(self).stack(),
                input@,
                0,
                old(self).machine(),
            ),
            bounds_calls(
                run_pool(input@, old(self).machine().functions),
                old(self).machine().functions,
            ),
            final(self).stack() == old(self).stack(),
    {
        let ghost pool = run_pool(input@, self.functions@);
        proof {
            self.functions.lemma_finite();
            lemma_run_pool(input@, self.functions@);
        }
        run_text(
            input.as_str(),
            &mut self.variables,
            &mut self.functions,
            &mut self.call_stack,
            &mut self.output,
            Ghost(pool),
        )
    }
}

} // verus!
