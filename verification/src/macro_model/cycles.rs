use vstd::prelude::*;
use crate::circuit::instance::macro_of;
use crate::circuit::{Connection, Instance};
use crate::macro_model::catalog::{
    lemma_found_entry, lemma_index_of_macro, lookup_macro, macro_names, macro_names_distinct,
    macros_acyclic, ranks_macros, uses_macro, index_of_macro,
};
use crate::macro_model::model::{MacroModel, MacroPort};
use crate::macro_model::validation::{
    catalog_errors, cycle_error, first_position, lemma_distinct_names_bound, listed_errors, listing_order,
    macro_connection_errors, macro_connection_step, macro_errors, macro_instance_errors,
    macro_instance_step, path_of_catalog_macros, port_errors, port_step, visit_all,
    visit_instances, visit_macro, CycleSearch, MacroErrorText,
};
use crate::primitive::manifest::PrimitiveManifest;
use crate::text::{lemma_text_order_total, text_order};

verus! {

/// Macro `a` of the catalog places an instance of the catalog's macro `b`.
pub open spec fn macro_edge(cat: Seq<MacroModel>, a: Seq<char>, b: Seq<char>) -> bool {
    lookup_macro(cat, a) matches Some(m) && uses_macro(cat, m, b)
}

/// `path` is a dependency cycle: it starts and ends at the same macro and
/// each macro on it places an instance of the next.
pub open spec fn is_cycle(cat: Seq<MacroModel>, path: Seq<Seq<char>>) -> bool {
    &&& path.len() >= 2
    &&& path[0] == path.last()
    &&& forall|k: int| 0 <= k < path.len() - 1 ==> #[trigger] macro_edge(cat, path[k], path[k + 1])
}

/// Some error reports a dependency cycle.
pub open spec fn reports_cycle(errs: Seq<MacroErrorText>) -> bool {
    exists|i: int| 0 <= i < errs.len() && (#[trigger] errs[i]) is CyclicDependency
}

/// Each dependency cycle reported is a cycle of the catalog.
pub open spec fn cycles_genuine(cat: Seq<MacroModel>, errs: Seq<MacroErrorText>) -> bool {
    forall|i: int|
        0 <= i < errs.len() ==> ((#[trigger] errs[i]) matches MacroErrorText::CyclicDependency {
            path,
        } ==> is_cycle(cat, path))
}

/// No error reports a dependency cycle.
pub open spec fn no_cycle_errors(errs: Seq<MacroErrorText>) -> bool {
    forall|i: int| 0 <= i < errs.len() ==> !((#[trigger] errs[i]) is CyclicDependency)
}

// ---------------------------------------------------------------------------
// The checks of single macros report no cycle
// ---------------------------------------------------------------------------
proof fn lemma_port_errors_no_cycle(m: MacroModel, ports: Seq<MacroPort>)
    ensures
        no_cycle_errors(port_errors(m, ports)),
    decreases ports.len(),
{
    if ports.len() > 0 {
        lemma_port_errors_no_cycle(m, ports.drop_last());
        let a = port_errors(m, ports.drop_last());
        let b = port_step(m, ports);
        assert forall|i: int| 0 <= i < (a + b).len() implies !((#[trigger] (a + b)[i]) is CyclicDependency) by {
            if i >= a.len() {
                assert((a + b)[i] == b[i - a.len()]);
            }
        }
    }
}

proof fn lemma_instance_errors_no_cycle(
    m: MacroModel,
    insts: Seq<Instance>,
    pcat: Seq<PrimitiveManifest>,
    mcat: Seq<MacroModel>,
)
    ensures
        no_cycle_errors(macro_instance_errors(m, insts, pcat, mcat)),
    decreases insts.len(),
{
    if insts.len() > 0 {
        lemma_instance_errors_no_cycle(m, insts.drop_last(), pcat, mcat);
        let a = macro_instance_errors(m, insts.drop_last(), pcat, mcat);
        let b = macro_instance_step(m, insts, pcat, mcat);
        assert forall|i: int| 0 <= i < (a + b).len() implies !((#[trigger] (a + b)[i]) is CyclicDependency) by {
            if i >= a.len() {
                assert((a + b)[i] == b[i - a.len()]);
            }
        }
    }
}

proof fn lemma_connection_errors_no_cycle(
    m: MacroModel,
    conns: Seq<Connection>,
    pcat: Seq<PrimitiveManifest>,
    mcat: Seq<MacroModel>,
)
    ensures
        no_cycle_errors(macro_connection_errors(m, conns, pcat, mcat)),
    decreases conns.len(),
{
    if conns.len() > 0 {
        lemma_connection_errors_no_cycle(m, conns.drop_last(), pcat, mcat);
        let a = macro_connection_errors(m, conns.drop_last(), pcat, mcat);
        let b = macro_connection_step(m, conns.last(), pcat, mcat);
        assert forall|i: int| 0 <= i < (a + b).len() implies !((#[trigger] (a + b)[i]) is CyclicDependency) by {
            if i >= a.len() {
                assert((a + b)[i] == b[i - a.len()]);
            }
        }
    }
}

proof fn lemma_concat_no_cycle(a: Seq<MacroErrorText>, b: Seq<MacroErrorText>)
    requires
        no_cycle_errors(a),
        no_cycle_errors(b),
    ensures
        no_cycle_errors(a + b),
{
    assert forall|i: int| 0 <= i < (a + b).len() implies !((#[trigger] (a + b)[i]) is CyclicDependency) by {
        if i >= a.len() {
            assert((a + b)[i] == b[i - a.len()]);
        } else {
            assert((a + b)[i] == a[i]);
        }
    }
}

proof fn lemma_listed_errors_no_cycle(
    pcat: Seq<PrimitiveManifest>,
    cat: Seq<MacroModel>,
    names: Seq<Seq<char>>,
)
    ensures
        no_cycle_errors(listed_errors(pcat, cat, names)),
    decreases names.len(),
{
    if names.len() > 0 {
        lemma_listed_errors_no_cycle(pcat, cat, names.drop_last());
        match lookup_macro(cat, names.last()) {
            Some(m) => {
                lemma_port_errors_no_cycle(m, m.ports@);
                lemma_instance_errors_no_cycle(m, m.circuit.instances@, pcat, cat);
                lemma_connection_errors_no_cycle(m, m.circuit.connections@, pcat, cat);
                lemma_concat_no_cycle(
                    port_errors(m, m.ports@),
                    macro_instance_errors(m, m.circuit.instances@, pcat, cat),
                );
                lemma_concat_no_cycle(
                    port_errors(m, m.ports@) + macro_instance_errors(
                        m,
                        m.circuit.instances@,
                        pcat,
                        cat,
                    ),
                    macro_connection_errors(m, m.circuit.connections@, pcat, cat),
                );
                lemma_concat_no_cycle(
                    listed_errors(pcat, cat, names.drop_last()),
                    macro_errors(m, pcat, cat),
                );
            },
            None => {
                assert(listed_errors(pcat, cat, names) =~= listed_errors(
                    pcat,
                    cat,
                    names.drop_last(),
                ));
            },
        }
    }
}

// ---------------------------------------------------------------------------
// What the cycle search keeps
// ---------------------------------------------------------------------------
/// Each finished macro's used macros finished before it.
pub open spec fn finished_in_order(cat: Seq<MacroModel>, fin: Seq<Seq<char>>) -> bool {
    forall|k: int, c: Seq<char>|
        0 <= k < fin.len() && #[trigger] macro_edge(cat, fin[k], c) ==> exists|k2: int|
            0 <= k2 < k && #[trigger] fin[k2] == c
}

/// What holds of a search state along the path `active`.
pub open spec fn search_ok(cat: Seq<MacroModel>, active: Seq<Seq<char>>, st: CycleSearch) -> bool {
    &&& path_of_catalog_macros(cat, active)
    &&& forall|k: int| 0 <= k < active.len() - 1 ==> #[trigger] macro_edge(cat, active[k], active[k + 1])
    &&& forall|i: int| 0 <= i < active.len() ==> st.visited.contains(#[trigger] active[i])
    &&& st.finished.no_duplicates()
    &&& forall|i: int|
        0 <= i < st.finished.len() ==> {
            &&& st.visited.contains(#[trigger] st.finished[i])
            &&& lookup_macro(cat, st.finished[i]) is Some
            &&& !active.contains(st.finished[i])
        }
    &&& forall|x: Seq<char>|
        #[trigger] st.visited.contains(x) && lookup_macro(cat, x) is Some && !active.contains(x)
            ==> st.finished.contains(x)
    &&& !reports_cycle(st.errors) ==> finished_in_order(cat, st.finished)
    &&& cycles_genuine(cat, st.errors)
}

/// The later state keeps what the earlier one had.
pub open spec fn search_grows(st: CycleSearch, r: CycleSearch) -> bool {
    &&& forall|x: Seq<char>| #[trigger] st.visited.contains(x) ==> r.visited.contains(x)
    &&& st.finished.len() <= r.finished.len()
    &&& r.finished.take(st.finished.len() as int) == st.finished
    &&& reports_cycle(st.errors) ==> reports_cycle(r.errors)
}

proof fn lemma_grows_trans(a: CycleSearch, b: CycleSearch, c: CycleSearch)
    requires
        search_grows(a, b),
        search_grows(b, c),
    ensures
        search_grows(a, c),
{
    assert(c.finished.take(a.finished.len() as int) =~= c.finished.take(b.finished.len() as int).take(
        a.finished.len() as int,
    ));
}

proof fn lemma_first_position(s: Seq<Seq<char>>, x: Seq<char>)
    requires
        s.contains(x),
    ensures
        0 <= first_position(s, x) < s.len(),
        s[first_position(s, x)] == x,
    decreases s.len(),
{
    if s[0] != x {
        let i = choose|i: int| 0 <= i < s.len() && s[i] == x;
        assert(s.drop_first()[i - 1] == x);
        lemma_first_position(s.drop_first(), x);
    }
}

/// The cycle closed by reaching `name` again is a cycle of the catalog.
proof fn lemma_cycle_error_genuine(cat: Seq<MacroModel>, active: Seq<Seq<char>>, name: Seq<char>)
    requires
        active.contains(name),
        forall|k: int| 0 <= k < active.len() - 1 ==> #[trigger] macro_edge(cat, active[k], active[k + 1]),
        macro_edge(cat, active.last(), name),
    ensures
        cycle_error(active, name) matches MacroErrorText::CyclicDependency { path } && is_cycle(
            cat,
            path,
        ),
{
    lemma_first_position(active, name);
    let p = first_position(active, name);
    let path = active.skip(p).push(name);
    assert forall|k: int| 0 <= k < path.len() - 1 implies #[trigger] macro_edge(cat, path[k], path[k + 1]) by {
        if k < path.len() - 2 {
            assert(path[k] == active[p + k]);
            assert(path[k + 1] == active[p + k + 1]);
        } else {
            assert(path[k] == active.last());
        }
    }
}

proof fn lemma_errors_push(errs: Seq<MacroErrorText>, e: MacroErrorText)
    ensures
        reports_cycle(errs) ==> reports_cycle(errs.push(e)),
        e is CyclicDependency ==> reports_cycle(errs.push(e)),
        forall|cat: Seq<MacroModel>|
            cycles_genuine(cat, errs) && (e matches MacroErrorText::CyclicDependency { path }
                ==> is_cycle(cat, path)) ==> #[trigger] cycles_genuine(cat, errs.push(e)),
{
    if reports_cycle(errs) {
        let i = choose|i: int| 0 <= i < errs.len() && (#[trigger] errs[i]) is CyclicDependency;
        assert(errs.push(e)[i] == errs[i]);
    }
    if e is CyclicDependency {
        assert(errs.push(e)[errs.len() as int] == e);
    }
    assert forall|cat: Seq<MacroModel>|
        cycles_genuine(cat, errs) && (e matches MacroErrorText::CyclicDependency { path }
            ==> is_cycle(cat, path)) implies #[trigger] cycles_genuine(cat, errs.push(e)) by {
        assert forall|i: int| 0 <= i < errs.push(e).len() implies ((#[trigger] errs.push(
            e,
        )[i]) matches MacroErrorText::CyclicDependency { path } ==> is_cycle(cat, path)) by {
            if i < errs.len() {
                assert(errs.push(e)[i] == errs[i]);
            }
        }
    }
}

proof fn lemma_push_keeps(s: Seq<Seq<char>>, x: Seq<char>)
    ensures
        s.push(x).contains(x),
        forall|y: Seq<char>| #[trigger] s.push(x).contains(y) <==> (s.contains(y) || y == x),
{
    assert(s.push(x)[s.len() as int] == x);
    assert forall|y: Seq<char>| #[trigger] s.push(x).contains(y) <==> (s.contains(y) || y == x) by {
        if s.contains(y) {
            let i = choose|i: int| 0 <= i < s.len() && s[i] == y;
            assert(s.push(x)[i] == y);
        }
        if s.push(x).contains(y) && y != x {
            let i = choose|i: int| 0 <= i < s.push(x).len() && s.push(x)[i] == y;
            assert(s[i] == y);
        }
    }
}

/// The search from one macro keeps the search state sound and grows it;
/// afterwards the macro was visited and, if it is a catalog macro, either
/// finished or a cycle was reported.
proof fn lemma_visit_macro(
    cat: Seq<MacroModel>,
    name: Seq<char>,
    active: Seq<Seq<char>>,
    st: CycleSearch,
    fuel: nat,
)
    requires
        macro_names_distinct(cat),
        search_ok(cat, active, st),
        active.len() + fuel == cat.len() + 1,
        active.len() > 0 && lookup_macro(cat, name) is Some ==> macro_edge(cat, active.last(), name),
    ensures
        ({
            let r = visit_macro(cat, name, active, st, fuel);
            &&& search_ok(cat, active, r)
            &&& search_grows(st, r)
            &&& r.visited.contains(name)
            &&& lookup_macro(cat, name) is Some ==> (reports_cycle(r.errors) || r.finished.contains(
                name,
            ))
        }),
    decreases fuel, 0nat,
{
    let r = visit_macro(cat, name, active, st, fuel);
    if active.contains(name) {
        let e = cycle_error(active, name);
        let i0 = choose|i: int| 0 <= i < active.len() && active[i] == name;
        assert(lookup_macro(cat, active[i0]) is Some);
        lemma_cycle_error_genuine(cat, active, name);
        lemma_errors_push(st.errors, e);
        let i = choose|i: int| 0 <= i < active.len() && active[i] == name;
        assert(st.visited.contains(active[i]));
        if st.errors.contains(e) {
            let j = choose|j: int| 0 <= j < st.errors.len() && st.errors[j] == e;
            assert(st.errors[j] is CyclicDependency);
        }
        assert(r.finished.take(st.finished.len() as int) =~= st.finished);
    } else if st.visited.contains(name) {
        assert(r.finished.take(st.finished.len() as int) =~= st.finished);
    } else {
        let st1 = CycleSearch {
            visited: st.visited.push(name),
            errors: st.errors,
            finished: st.finished,
        };
        lemma_push_keeps(st.visited, name);
        assert(st1.finished.take(st.finished.len() as int) =~= st.finished);
        assert(search_grows(st, st1));
        match lookup_macro(cat, name) {
            None => {
                assert(st1.finished.take(st.finished.len() as int) =~= st.finished);
                assert forall|i: int| 0 <= i < active.len() implies st1.visited.contains(
                    #[trigger] active[i],
                ) by {
                    assert(st.visited.contains(active[i]));
                }
                assert forall|i: int| 0 <= i < st1.finished.len() implies st1.visited.contains(
                    #[trigger] st1.finished[i],
                ) by {
                    assert(st.visited.contains(st.finished[i]));
                }
                assert forall|x: Seq<char>|
                    #[trigger] st1.visited.contains(x) && lookup_macro(cat, x) is Some
                        && !active.contains(x) implies st1.finished.contains(x) by {
                    assert(x != name);
                    assert(st.visited.contains(x));
                }
            },
            Some(m) => {
                let grown = active.push(name);
                assert(grown.no_duplicates()) by {
                    assert forall|i: int, j: int|
                        0 <= i < grown.len() && 0 <= j < grown.len() && i != j implies grown[i]
                        != grown[j] by {
                        if i == active.len() && j < active.len() {
                            assert(grown[j] == active[j]);
                        } else if j == active.len() && i < active.len() {
                            assert(grown[i] == active[i]);
                        }
                    }
                }
                assert forall|i: int| 0 <= i < grown.len() implies lookup_macro(
                    cat,
                    #[trigger] grown[i],
                ) is Some by {
                    if i < active.len() {
                        assert(grown[i] == active[i]);
                    }
                }
                lemma_distinct_names_bound(cat, grown);
                assert(fuel >= 1);
                // The state before the search from the used macros, along the longer path.
                assert(search_ok(cat, grown, st1)) by {
                    assert forall|k: int| 0 <= k < grown.len() - 1 implies #[trigger] macro_edge(
                        cat,
                        grown[k],
                        grown[k + 1],
                    ) by {
                        if k < active.len() - 1 {
                            assert(grown[k] == active[k] && grown[k + 1] == active[k + 1]);
                        } else {
                            assert(grown[k] == active.last());
                        }
                    }
                    assert forall|i: int| 0 <= i < grown.len() implies st1.visited.contains(
                        #[trigger] grown[i],
                    ) by {
                        if i < active.len() {
                            assert(grown[i] == active[i]);
                            assert(st.visited.contains(active[i]));
                        } else {
                            assert(st1.visited[st.visited.len() as int] == name);
                        }
                    }
                    assert forall|i: int| 0 <= i < st1.finished.len() implies {
                        &&& st1.visited.contains(#[trigger] st1.finished[i])
                        &&& lookup_macro(cat, st1.finished[i]) is Some
                        &&& !grown.contains(st1.finished[i])
                    } by {
                        assert(st.visited.contains(st.finished[i]));
                        assert(!active.contains(st.finished[i]));
                        if grown.contains(st.finished[i]) {
                            let j = choose|j: int| 0 <= j < grown.len() && grown[j] == st.finished[i];
                            if j < active.len() {
                                assert(grown[j] == active[j]);
                            }
                        }
                    }
                    assert forall|x: Seq<char>|
                        #[trigger] st1.visited.contains(x) && lookup_macro(cat, x) is Some
                            && !grown.contains(x) implies st1.finished.contains(x) by {
                        let i = choose|i: int| 0 <= i < st1.visited.len() && st1.visited[i] == x;
                        if i < st.visited.len() {
                            assert(st.visited[i] == x);
                            assert(st.visited.contains(x));
                            if active.contains(x) {
                                let j = choose|j: int| 0 <= j < active.len() && active[j] == x;
                                assert(grown[j] == x);
                            }
                        } else {
                            assert(grown[active.len() as int] == name);
                        }
                    }
                }
                let f1 = (fuel - 1) as nat;
                let insts = m.circuit.instances@;
                let k0 = lemma_found_entry(cat, name);
                assert forall|j: int|
                    0 <= j < insts.len() && (macro_of(#[trigger] insts[j]) matches Some(c)
                        && lookup_macro(cat, c) is Some) implies macro_edge(
                    cat,
                    grown.last(),
                    macro_of(insts[j])->Some_0,
                ) by {
                    let c = macro_of(insts[j])->Some_0;
                    assert(uses_macro(cat, m, c));
                }
                lemma_visit_instances(cat, insts, grown, st1, f1);
                let st2 = visit_instances(cat, insts, grown, st1, f1);
                // Finishing `name`.
                assert(!st2.finished.contains(name)) by {
                    if st2.finished.contains(name) {
                        let i = choose|i: int| 0 <= i < st2.finished.len() && st2.finished[i] == name;
                        assert(grown[active.len() as int] == name);
                    }
                }
                assert(r == CycleSearch {
                    visited: st2.visited,
                    errors: st2.errors,
                    finished: st2.finished.push(name),
                });
                assert(r.finished.take(st.finished.len() as int) =~= st.finished) by {
                    assert(st2.finished.take(st.finished.len() as int) == st.finished);
                }
                assert(r.finished.no_duplicates()) by {
                    assert forall|i: int, j: int|
                        0 <= i < r.finished.len() && 0 <= j < r.finished.len() && i != j implies r.finished[i]
                        != r.finished[j] by {
                        if i == st2.finished.len() && j < st2.finished.len() {
                            assert(r.finished[j] == st2.finished[j]);
                        } else if j == st2.finished.len() && i < st2.finished.len() {
                            assert(r.finished[i] == st2.finished[i]);
                        } else if i < st2.finished.len() && j < st2.finished.len() {
                            assert(r.finished[i] == st2.finished[i]);
                            assert(r.finished[j] == st2.finished[j]);
                        }
                    }
                }
                assert forall|i: int| 0 <= i < active.len() implies r.visited.contains(
                    #[trigger] active[i],
                ) by {
                    assert(grown[i] == active[i]);
                }
                assert forall|i: int| 0 <= i < r.finished.len() implies {
                    &&& r.visited.contains(#[trigger] r.finished[i])
                    &&& lookup_macro(cat, r.finished[i]) is Some
                    &&& !active.contains(r.finished[i])
                } by {
                    if i < st2.finished.len() {
                        assert(r.finished[i] == st2.finished[i]);
                        if active.contains(st2.finished[i]) {
                            let j = choose|j: int| 0 <= j < active.len() && active[j] == st2.finished[i];
                            assert(grown[j] == active[j]);
                        }
                    } else {
                        assert(grown[active.len() as int] == name);
                    }
                }
                assert forall|x: Seq<char>|
                    #[trigger] r.visited.contains(x) && lookup_macro(cat, x) is Some && !active.contains(
                        x,
                    ) implies r.finished.contains(x) by {
                    if x == name {
                        assert(r.finished[st2.finished.len() as int] == name);
                    } else {
                        if grown.contains(x) {
                            let j = choose|j: int| 0 <= j < grown.len() && grown[j] == x;
                            if j < active.len() {
                                assert(active[j] == x);
                            }
                        }
                        assert(st2.finished.contains(x));
                        let i = choose|i: int| 0 <= i < st2.finished.len() && st2.finished[i] == x;
                        assert(r.finished[i] == x);
                    }
                }
                if !reports_cycle(r.errors) {
                    assert forall|k: int, c: Seq<char>|
                        0 <= k < r.finished.len() && #[trigger] macro_edge(cat, r.finished[k], c) implies exists|
                        k2: int,
                    | 0 <= k2 < k && #[trigger] r.finished[k2] == c by {
                        if k < st2.finished.len() {
                            assert(r.finished[k] == st2.finished[k]);
                            let k2 = choose|k2: int| 0 <= k2 < k && #[trigger] st2.finished[k2] == c;
                            assert(r.finished[k2] == c);
                        } else {
                            assert(r.finished[k] == name);
                            assert(uses_macro(cat, m, c));
                            let q = choose|q: int|
                                0 <= q < insts.len() && macro_of(#[trigger] insts[q]) == Some(c);
                            assert(st2.finished.contains(c));
                            let k2 = choose|k2: int| 0 <= k2 < st2.finished.len() && st2.finished[k2] == c;
                            assert(r.finished[k2] == c);
                        }
                    }
                }
                assert(r.finished[st2.finished.len() as int] == name);
                assert(st1.visited[st.visited.len() as int] == name);
                lemma_grows_trans(st, st1, st2);
                assert(st1.finished.take(st.finished.len() as int) =~= st.finished);
            },
        }
    }
}

/// The search from the macros that the instances use keeps the state sound
/// and grows it; afterwards each catalog macro they use is finished or a
/// cycle was reported.
proof fn lemma_visit_instances(
    cat: Seq<MacroModel>,
    insts: Seq<Instance>,
    active: Seq<Seq<char>>,
    st: CycleSearch,
    fuel: nat,
)
    requires
        macro_names_distinct(cat),
        search_ok(cat, active, st),
        active.len() > 0,
        active.len() + fuel == cat.len() + 1,
        forall|j: int|
            0 <= j < insts.len() && (macro_of(#[trigger] insts[j]) matches Some(c) && lookup_macro(
                cat,
                c,
            ) is Some) ==> macro_edge(cat, active.last(), macro_of(insts[j])->Some_0),
    ensures
        ({
            let r = visit_instances(cat, insts, active, st, fuel);
            &&& search_ok(cat, active, r)
            &&& search_grows(st, r)
            &&& forall|j: int|
                0 <= j < insts.len() && (macro_of(#[trigger] insts[j]) matches Some(c)
                    && lookup_macro(cat, c) is Some) ==> (reports_cycle(r.errors)
                    || r.finished.contains(macro_of(insts[j])->Some_0))
        }),
    decreases fuel, insts.len(),
{
    let r = visit_instances(cat, insts, active, st, fuel);
    if insts.len() == 0 {
        assert(r.finished.take(st.finished.len() as int) =~= st.finished);
    } else {
        let init = insts.drop_last();
        assert forall|j: int|
            0 <= j < init.len() && (macro_of(#[trigger] init[j]) matches Some(c) && lookup_macro(
                cat,
                c,
            ) is Some) implies macro_edge(cat, active.last(), macro_of(init[j])->Some_0) by {
            assert(init[j] == insts[j]);
        }
        lemma_visit_instances(cat, init, active, st, fuel);
        let st1 = visit_instances(cat, init, active, st, fuel);
        match macro_of(insts.last()) {
            None => {
                assert forall|j: int|
                    0 <= j < insts.len() && (macro_of(#[trigger] insts[j]) matches Some(c)
                        && lookup_macro(cat, c) is Some) implies (reports_cycle(r.errors)
                    || r.finished.contains(macro_of(insts[j])->Some_0)) by {
                    assert(init[j] == insts[j]);
                }
            },
            Some(c) => {
                if lookup_macro(cat, c) is Some {
                    assert(macro_edge(cat, active.last(), c)) by {
                        assert(macro_of(insts[insts.len() - 1]) == Some(c));
                    }
                }
                lemma_visit_macro(cat, c, active, st1, fuel);
                lemma_grows_trans(st, st1, r);
                assert forall|j: int|
                    0 <= j < insts.len() && (macro_of(#[trigger] insts[j]) matches Some(c2)
                        && lookup_macro(cat, c2) is Some) implies (reports_cycle(r.errors)
                    || r.finished.contains(macro_of(insts[j])->Some_0)) by {
                    if j < init.len() {
                        assert(init[j] == insts[j]);
                        let c2 = macro_of(insts[j])->Some_0;
                        if !reports_cycle(st1.errors) && !reports_cycle(r.errors) {
                            assert(st1.finished.contains(c2));
                            let i = choose|i: int| 0 <= i < st1.finished.len() && st1.finished[i] == c2;
                            assert(r.finished.take(st1.finished.len() as int)[i] == c2);
                        }
                    }
                }
            },
        }
    }
}

proof fn lemma_visit_all(cat: Seq<MacroModel>, names: Seq<Seq<char>>, st: CycleSearch, fuel: nat)
    requires
        macro_names_distinct(cat),
        search_ok(cat, seq![], st),
        fuel == cat.len() + 1,
    ensures
        ({
            let r = visit_all(cat, names, st, fuel);
            &&& search_ok(cat, seq![], r)
            &&& search_grows(st, r)
            &&& forall|k: int|
                0 <= k < names.len() && lookup_macro(cat, #[trigger] names[k]) is Some ==> (
                reports_cycle(r.errors) || r.finished.contains(names[k]))
        }),
    decreases names.len(),
{
    let r = visit_all(cat, names, st, fuel);
    if names.len() == 0 {
        assert(r.finished.take(st.finished.len() as int) =~= st.finished);
    } else {
        let init = names.drop_last();
        lemma_visit_all(cat, init, st, fuel);
        let st1 = visit_all(cat, init, st, fuel);
        lemma_visit_macro(cat, names.last(), seq![], st1, fuel);
        lemma_grows_trans(st, st1, r);
        assert forall|k: int|
            0 <= k < names.len() && lookup_macro(cat, #[trigger] names[k]) is Some implies (
            reports_cycle(r.errors) || r.finished.contains(names[k])) by {
            if k < init.len() {
                assert(init[k] == names[k]);
                if !reports_cycle(st1.errors) && !reports_cycle(r.errors) {
                    assert(st1.finished.contains(names[k]));
                    let i = choose|i: int| 0 <= i < st1.finished.len() && st1.finished[i] == names[k];
                    assert(r.finished.take(st1.finished.len() as int)[i] == names[k]);
                }
            }
        }
    }
}

proof fn lemma_first_position_le(s: Seq<Seq<char>>, x: Seq<char>, i: int)
    requires
        0 <= i < s.len(),
        s[i] == x,
    ensures
        0 <= first_position(s, x) <= i,
    decreases i,
{
    if i > 0 && s[0] != x {
        assert(s.drop_first()[i - 1] == x);
        lemma_first_position_le(s.drop_first(), x, i - 1);
    }
}

/// Macros finished in an order where each uses only macros finished
/// before it can be ranked by that order.
proof fn lemma_rank_from_finished(cat: Seq<MacroModel>, fin: Seq<Seq<char>>)
    requires
        macro_names_distinct(cat),
        finished_in_order(cat, fin),
        forall|j: int| 0 <= j < cat.len() ==> fin.contains(#[trigger] cat[j].name@),
    ensures
        macros_acyclic(cat),
{
    let rank = |name: Seq<char>| first_position(fin, name) as nat;
    assert forall|j: int, child: Seq<char>|
        0 <= j < cat.len() && #[trigger] uses_macro(cat, cat[j], child) implies rank(child) < rank(
            cat[j].name@,
        ) by {
        let u = cat[j].name@;
        assert(fin.contains(u));
        lemma_first_position(fin, u);
        let k = first_position(fin, u);
        crate::macro_model::catalog::lemma_lookup_distinct(cat, j);
        assert(macro_edge(cat, fin[k], child));
        let k2 = choose|k2: int| 0 <= k2 < k && #[trigger] fin[k2] == child;
        lemma_first_position_le(fin, child, k2);
    }
    assert(ranks_macros(cat, rank));
}

proof fn lemma_rank_descends(path: Seq<Seq<char>>, rank: spec_fn(Seq<char>) -> nat, k: int)
    requires
        0 <= k < path.len(),
        forall|q: int| 0 <= q < path.len() - 1 ==> rank(#[trigger] path[q + 1]) < rank(path[q]),
    ensures
        rank(path[k]) + k <= rank(path[0]),
    decreases k,
{
    if k > 0 {
        lemma_rank_descends(path, rank, k - 1);
        assert(rank(path[(k - 1) + 1]) < rank(path[k - 1]));
    }
}

/// A catalog with a dependency cycle has no ranking of its macros.
proof fn lemma_cycle_not_acyclic(cat: Seq<MacroModel>, path: Seq<Seq<char>>)
    requires
        is_cycle(cat, path),
    ensures
        !macros_acyclic(cat),
{
    if macros_acyclic(cat) {
        let rank = choose|rank: spec_fn(Seq<char>) -> nat| #[trigger] ranks_macros(cat, rank);
        assert forall|q: int| 0 <= q < path.len() - 1 implies rank(#[trigger] path[q + 1]) < rank(
            path[q],
        ) by {
            assert(macro_edge(cat, path[q], path[q + 1]));
            let j = lemma_found_entry(cat, path[q]);
            assert(uses_macro(cat, cat[j], path[q + 1]));
        }
        lemma_rank_descends(path, rank, path.len() - 1);
    }
}

/// Validating a catalog reports only genuine dependency cycles, each
/// starting and ending at the same macro and each macro on it placing an
/// instance of the next; and it reports one exactly when some macro of the
/// catalog uses itself, directly or through other macros.
pub proof fn law_catalog_cycles_reported(pcat: Seq<PrimitiveManifest>, cat: Seq<MacroModel>)
    requires
        macro_names_distinct(cat),
    ensures
        cycles_genuine(cat, catalog_errors(pcat, cat)),
        reports_cycle(catalog_errors(pcat, cat)) <==> !macros_acyclic(cat),
{
    let names = listing_order(cat);
    lemma_listed_errors_no_cycle(pcat, cat, names);
    let start = CycleSearch { visited: seq![], errors: listed_errors(pcat, cat, names), finished: seq![] };
    assert(search_ok(cat, seq![], start));
    lemma_visit_all(cat, names, start, cat.len() + 1);
    let r = visit_all(cat, names, start, cat.len() + 1);
    assert(catalog_errors(pcat, cat) == r.errors);
    if reports_cycle(r.errors) {
        let i = choose|i: int| 0 <= i < r.errors.len() && (#[trigger] r.errors[i]) is CyclicDependency;
        let path = r.errors[i]->CyclicDependency_path;
        assert(is_cycle(cat, path));
        lemma_cycle_not_acyclic(cat, path);
    } else {
        lemma_text_order_total();
        macro_names(cat).lemma_sort_by_ensures(text_order());
        macro_names(cat).to_multiset_ensures();
        names.to_multiset_ensures();
        assert forall|j: int| 0 <= j < cat.len() implies r.finished.contains(#[trigger] cat[j].name@) by {
            assert(macro_names(cat)[j] == cat[j].name@);
            assert(macro_names(cat).contains(cat[j].name@));
            assert(macro_names(cat).to_multiset().count(cat[j].name@) > 0);
            assert(names.to_multiset().count(cat[j].name@) > 0);
            assert(names.contains(cat[j].name@));
            let k = choose|k: int| 0 <= k < names.len() && names[k] == cat[j].name@;
            crate::macro_model::catalog::lemma_lookup_distinct(cat, j);
            assert(lookup_macro(cat, names[k]) is Some);
        }
        lemma_rank_from_finished(cat, r.finished);
    }
}

} // verus!
