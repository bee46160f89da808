//! Why a run ends: the names that a run can ever call form a finite set, and a call is
//! only made for a name that is not on the call stack.
//!
//! Every function is defined by a statement of a text that is run, so its name and its
//! body are fragments of that text. The texts that are run are the script and the bodies
//! of the function table. So the fragments of the script, together with the names and the
//! fragments of the bodies that the table holds at the start, hold every name that can be
//! called, and every body that can be run.

use vstd::prelude::*;
use vstd::set_lib::{lemma_int_range, lemma_set_subset_finite, set_int_range};
use crate::semantics::{bounds_calls, SpecFunction};
use crate::text::{is_fragment, is_range_of, lemma_fragment_of_fragment};

verus! {

/// The fragments of `text`.
pub open spec fn fragments(text: Seq<char>) -> Set<Seq<char>> {
    Set::new(|s: Seq<char>| is_fragment(s, text))
}

/// Whether `s` is the name `name` of a function of the table, or a fragment of the body
/// of the function of that name.
pub open spec fn comes_with(
    functions: Map<Seq<char>, SpecFunction>,
    name: Seq<char>,
    s: Seq<char>,
) -> bool {
    functions.contains_key(name) && (s == name || is_fragment(s, functions[name].body))
}

/// The names of the function table and the fragments of its bodies.
pub open spec fn table_pool(functions: Map<Seq<char>, SpecFunction>) -> Set<Seq<char>> {
    Set::new(|s: Seq<char>| exists|name: Seq<char>| comes_with(functions, name, s))
}

/// The names that a run of `text` on the function table `functions` can call.
pub open spec fn run_pool(text: Seq<char>, functions: Map<Seq<char>, SpecFunction>) -> Set<
    Seq<char>,
> {
    fragments(text).union(table_pool(functions))
}

/// Whether `pool` holds every fragment of `text`.
pub open spec fn covers(pool: Set<Seq<char>>, text: Seq<char>) -> bool {
    forall|s: Seq<char>| is_fragment(s, text) ==> #[trigger] pool.contains(s)
}

/// Whether `pool` is finite and holds, of every function of the table, the name and the
/// fragments of the body.
pub open spec fn closed_under(pool: Set<Seq<char>>, functions: Map<Seq<char>, SpecFunction>) -> bool {
    &&& pool.finite()
    &&& forall|name: Seq<char>| #[trigger]
        functions.contains_key(name) ==> pool.contains(name) && covers(pool, functions[name].body)
}

/// A pool that is closed under the function table bounds its calls.
pub proof fn lemma_closed_bounds_calls(pool: Set<Seq<char>>, functions: Map<Seq<char>, SpecFunction>)
    requires
        closed_under(pool, functions),
    ensures
        bounds_calls(pool, functions),
{
}

/// A pool that holds the fragments of a text holds those of each of its fragments.
pub proof fn lemma_covers_fragment(pool: Set<Seq<char>>, text: Seq<char>, part: Seq<char>)
    requires
        covers(pool, text),
        is_fragment(part, text),
    ensures
        covers(pool, part),
        pool.contains(part),
{
    assert forall|s: Seq<char>| is_fragment(s, part) implies #[trigger] pool.contains(s) by {
        lemma_fragment_of_fragment(s, part, text);
    }
}

/// A pool stays closed when a function is defined whose name and body it covers.
pub proof fn lemma_closed_after_definition(
    pool: Set<Seq<char>>,
    functions: Map<Seq<char>, SpecFunction>,
    name: Seq<char>,
    function: SpecFunction,
)
    requires
        closed_under(pool, functions),
        pool.contains(name),
        covers(pool, function.body),
    ensures
        closed_under(pool, functions.insert(name, function)),
{
    let after = functions.insert(name, function);
    assert forall|other: Seq<char>| #[trigger] after.contains_key(other) implies pool.contains(
        other,
    ) && covers(pool, after[other].body) by {
        if other != name {
            assert(functions.contains_key(other));
        }
    }
}

/// A text has finitely many fragments.
pub proof fn lemma_fragments_finite(text: Seq<char>)
    ensures
        fragments(text).finite(),
{
    let n = text.len() as int;
    let ends = set_int_range(0, n + 1);
    lemma_int_range(0, n + 1);
    let row = |from: int| ends.map(|to: int| text.subrange(from, to));
    let rows = ends.map(row);
    ends.lemma_map_finite(row);
    assert forall|r: Set<Seq<char>>| rows.contains(r) implies #[trigger] r.finite() by {
        let from = choose|from: int| ends.contains(from) && row(from) == r;
        ends.lemma_map_finite(|to: int| text.subrange(from, to));
    }
    rows.lemma_flatten_finite();
    assert forall|s: Seq<char>| fragments(text).contains(s) implies rows.flatten().contains(s) by {
        let (from, to) = choose|from: int, to: int| is_range_of(s, text, from, to);
        assert(ends.contains(from));
        assert(ends.contains(to));
        assert(row(from).contains(s));
        assert(rows.contains(row(from)));
    }
    lemma_set_subset_finite(rows.flatten(), fragments(text));
}

/// The names and the body fragments of a finite function table are finitely many.
pub proof fn lemma_table_pool_finite(functions: Map<Seq<char>, SpecFunction>)
    requires
        functions.dom().finite(),
    ensures
        table_pool(functions).finite(),
{
    let share = |name: Seq<char>| fragments(functions[name].body).insert(name);
    let shares = functions.dom().map(share);
    functions.dom().lemma_map_finite(share);
    assert forall|r: Set<Seq<char>>| shares.contains(r) implies #[trigger] r.finite() by {
        let name = choose|name: Seq<char>| functions.dom().contains(name) && share(name) == r;
        lemma_fragments_finite(functions[name].body);
    }
    shares.lemma_flatten_finite();
    assert forall|s: Seq<char>| table_pool(functions).contains(s) implies shares.flatten().contains(
        s,
    ) by {
        let name = choose|name: Seq<char>| comes_with(functions, name, s);
        assert(share(name).contains(s));
        assert(shares.contains(share(name)));
    }
    lemma_set_subset_finite(shares.flatten(), table_pool(functions));
}

/// The pool of a function table is closed under that table.
pub proof fn lemma_table_pool_closed(functions: Map<Seq<char>, SpecFunction>)
    requires
        functions.dom().finite(),
    ensures
        closed_under(table_pool(functions), functions),
{
    lemma_table_pool_finite(functions);
    let pool = table_pool(functions);
    assert forall|name: Seq<char>| #[trigger] functions.contains_key(name) implies pool.contains(
        name,
    ) && covers(pool, functions[name].body) by {
        assert(comes_with(functions, name, name));
        assert forall|s: Seq<char>| is_fragment(s, functions[name].body) implies #[trigger]
            pool.contains(s) by {
            assert(comes_with(functions, name, s));
        }
    }
}

/// The pool of a run is finite, covers the text that is run, and is closed under the
/// function table.
pub proof fn lemma_run_pool(text: Seq<char>, functions: Map<Seq<char>, SpecFunction>)
    requires
        functions.dom().finite(),
    ensures
        covers(run_pool(text, functions), text),
        closed_under(run_pool(text, functions), functions),
{
    lemma_fragments_finite(text);
    lemma_table_pool_closed(functions);
    let pool = run_pool(text, functions);
    assert forall|name: Seq<char>| #[trigger] functions.contains_key(name) implies pool.contains(
        name,
    ) && covers(pool, functions[name].body) by {
        assert(table_pool(functions).contains(name));
        assert(covers(table_pool(functions), functions[name].body));
        assert forall|s: Seq<char>| is_fragment(s, functions[name].body) implies #[trigger]
            pool.contains(s) by {
            assert(table_pool(functions).contains(s));
        }
    }
}

} // verus!
