//! The built-in functions of the language.

use vstd::prelude::*;
use vstd::string::StringExecFns;
use crate::token::texts;

verus! {

/// The texts `items`, each followed by a newline.
pub open spec fn lines(items: Seq<Seq<char>>) -> Seq<char>
    decreases items.len(),
{
    if items.len() == 0 {
        Seq::empty()
    } else {
        lines(items.drop_last()) + items.last() + seq!['\n']
    }
}

/// What the built-in `print` writes for `args`: each argument on a line of its own.
/// Writing the text to a stream is left to the caller.
pub fn print(args: Vec<String>) -> (out: String)
    ensures
        out@ == lines(texts(args@)),
{
    let mut out = String::new();
    let mut i: usize = 0;
    assert(texts(args@).take(0) == Seq::<Seq<char>>::empty());
    while i < args.len()
        invariant
            i <= args.len(),
            out@ == lines(texts(args@).take(i as int)),
        decreases args.len() - i,
    {
        proof {
            let next = texts(args@).take(i + 1);
            assert(next.drop_last() == texts(args@).take(i as int));
            assert(next.last() == args@[i as int]@);
        }
        out.append(args[i].as_str());
        out.push('\n');
        i += 1;
    }
    assert(texts(args@).take(args.len() as int) == texts(args@));
    out
}

/// The names of the built-in functions.
pub open spec fn function_names() -> Seq<Seq<char>> {
    seq![seq!['p', 'r', 'i', 'n', 't']]
}

/// The names of the built-in functions.
pub fn functions() -> (names: Vec<String>)
    ensures
        texts(names@) == function_names(),
{
    let mut name = String::new();
    name.push('p');
    name.push('r');
    name.push('i');
    name.push('n');
    name.push('t');
    assert(name@ =~= seq!['p', 'r', 'i', 'n', 't']);
    let names = vec![name];
    assert(texts(names@) =~= function_names());
    names
}

} // verus!
