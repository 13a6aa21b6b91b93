use vstd::prelude::*;
use crate::exploration::hierarchy::{
    event_name, HierarchyDfsChild, HierarchyDfsError, HierarchyDfsEvent, SubmacroCandidateError,
    SubmacroConditionError,
};
use crate::exploration::hierarchy::sanitize_hierarchy_event_name;
use crate::macro_model::render::contains_name;
use crate::text::{push_str, str_eq, string_from, texts};

verus! {

/// A node of the exploration hierarchy as the walk reads it: the macro it
/// explores and its children, each as (instance, child macro).
pub struct DfsNodeView {
    pub name: Seq<char>,
    pub children: Seq<(Seq<char>, Seq<char>)>,
}

/// A node of the exploration hierarchy: the macro it explores and the
/// sub-macro instances below it.
#[derive(Debug, Clone, PartialEq, Eq)]
pub struct HierarchyDfsNodeShape {
    pub macro_name: String,
    pub children: Vec<HierarchyDfsChild>,
}

impl View for HierarchyDfsNodeShape {
    type V = DfsNodeView;

    open spec fn view(&self) -> DfsNodeView {
        DfsNodeView {
            name: self.macro_name@,
            children: self.children@.map_values(
                |c: HierarchyDfsChild| (c.instance_name@, c.macro_name@),
            ),
        }
    }
}

impl HierarchyDfsNodeShape {
    pub fn new(macro_name: &str, children: Vec<HierarchyDfsChild>) -> (r: Self)
        ensures
            r.macro_name@ == macro_name@,
            r.children@ == children@,
    {
        HierarchyDfsNodeShape { macro_name: string_from(macro_name), children }
    }
}

/// The views of nodes, in order.
pub open spec fn views_of(nodes: Seq<HierarchyDfsNodeShape>) -> Seq<DfsNodeView> {
    nodes.map_values(|n: HierarchyDfsNodeShape| n@)
}

/// The macro names of nodes, in order.
pub open spec fn node_names(nodes: Seq<DfsNodeView>) -> Seq<Seq<char>> {
    nodes.map_values(|n: DfsNodeView| n.name)
}

/// The last of `nodes` that explores `name`, if any.
pub open spec fn last_node_named(nodes: Seq<DfsNodeView>, name: Seq<char>) -> Option<DfsNodeView>
    decreases nodes.len(),
{
    if nodes.len() == 0 {
        None
    } else if nodes.last().name == name {
        Some(nodes.last())
    } else {
        last_node_named(nodes.drop_last(), name)
    }
}

proof fn lemma_last_node_named(nodes: Seq<DfsNodeView>, k: int)
    requires
        0 <= k < nodes.len(),
        forall|j: int| k < j < nodes.len() ==> #[trigger] nodes[j].name != nodes[k].name,
    ensures
        last_node_named(nodes, nodes[k].name) == Some(nodes[k]),
    decreases nodes.len(),
{
    if k < nodes.len() - 1 {
        lemma_last_node_named(nodes.drop_last(), k);
    }
}

/// The hierarchy to explore: a top macro and the nodes by macro, one node
/// for each macro.
#[derive(Debug)]
pub struct HierarchyDfsShape {
    top_macro: String,
    nodes: Vec<HierarchyDfsNodeShape>,
}

impl HierarchyDfsShape {
    /// The macro the exploration starts from.
    pub closed spec fn top(self) -> Seq<char> {
        self.top_macro@
    }

    /// The nodes of the hierarchy.
    pub closed spec fn node_views(self) -> Seq<DfsNodeView> {
        views_of(self.nodes@)
    }

    #[verifier::type_invariant]
    spec fn one_node_per_macro(self) -> bool {
        node_names(self.node_views()).no_duplicates()
    }

    /// The hierarchy with the given top macro and nodes; where several nodes
    /// explore one macro, the last of them stands.
    pub fn new(top_macro: &str, nodes: Vec<HierarchyDfsNodeShape>) -> (r: Self)
        ensures
            r.top() == top_macro@,
            node_names(r.node_views()).no_duplicates(),
            forall|i: int|
                0 <= i < r.node_views().len() ==> last_node_named(
                    views_of(nodes@),
                    #[trigger] r.node_views()[i].name,
                ) == Some(r.node_views()[i]),
            forall|k: int|
                0 <= k < nodes@.len() ==> node_names(r.node_views()).contains(
                    #[trigger] nodes@[k].macro_name@,
                ),
    {
        let ghost nv = nodes@;
        let ghost orig = views_of(nodes@);
        let ghost n0 = nodes@.len();
        let mut rest = nodes;
        let mut kept: Vec<HierarchyDfsNodeShape> = Vec::new();
        while rest.len() > 0
            invariant
                rest@.len() <= n0,
                orig.len() == n0,
                forall|k: int| 0 <= k < rest@.len() ==> rest@[k]@ == #[trigger] orig[k],
                node_names(views_of(kept@)).no_duplicates(),
                forall|i: int|
                    0 <= i < kept@.len() ==> last_node_named(orig, (#[trigger] kept@[i])@.name)
                        == Some(kept@[i]@),
                forall|k: int|
                    rest@.len() <= k < n0 ==> node_names(views_of(kept@)).contains(
                        #[trigger] orig[k].name,
                    ),
            decreases rest.len(),
        {
            let ghost before = views_of(kept@);
            let node = rest.pop().unwrap();
            let ghost k0 = rest@.len() as int;
            assert(node@ == orig[k0]);
            let mut found = false;
            let mut j: usize = 0;
            while j < kept.len()
                invariant
                    j <= kept@.len(),
                    before == views_of(kept@),
                    found == exists|q: int| 0 <= q < j && #[trigger] before[q].name == node@.name,
                decreases kept.len() - j,
            {
                let same = str_eq(kept[j].macro_name.as_str(), node.macro_name.as_str());
                proof {
                    assert(before[j as int] == kept@[j as int]@);
                    assert(same == (before[j as int].name == node@.name));
                    if !same {
                        assert forall|q: int| 0 <= q < j + 1 implies #[trigger] before[q].name
                            != node@.name || q < j by {}
                    }
                }
                if same {
                    found = true;
                }
                j = j + 1;
            }
            if !found {
                proof {
                    assert forall|k: int| k0 < k < n0 implies #[trigger] orig[k].name
                        != orig[k0].name by {
                        assert(node_names(before).contains(orig[k].name));
                        let q = choose|q: int|
                            0 <= q < node_names(before).len() && node_names(before)[q]
                                == orig[k].name;
                        assert(before[q].name == orig[k].name);
                        assert(before[q].name != node@.name);
                    }
                    lemma_last_node_named(orig, k0);
                }
                kept.push(node);
                proof {
                    let after = views_of(kept@);
                    assert(after =~= before.push(orig[k0]));
                    assert(node_names(after) =~= node_names(before).push(orig[k0].name));
                    assert forall|k: int| k0 <= k < n0 implies node_names(after).contains(
                        #[trigger] orig[k].name,
                    ) by {
                        if k == k0 {
                            assert(node_names(after)[before.len() as int] == orig[k].name);
                        } else {
                            let q = choose|q: int|
                                0 <= q < node_names(before).len() && node_names(before)[q]
                                    == orig[k].name;
                            assert(node_names(after)[q] == orig[k].name);
                        }
                    }
                    assert forall|i: int| 0 <= i < kept@.len() implies last_node_named(
                        orig,
                        (#[trigger] kept@[i])@.name,
                    ) == Some(kept@[i]@) by {
                        if i < before.len() {
                            assert(kept@[i]@ == before[i]);
                        }
                    }
                }
            } else {
                proof {
                    let q = choose|q: int| 0 <= q < j && #[trigger] before[q].name == node@.name;
                    assert(node_names(before)[q] == orig[k0].name);
                }
            }
        }
        let r = HierarchyDfsShape { top_macro: string_from(top_macro), nodes: kept };
        proof {
            assert(r.node_views() =~= views_of(kept@));
            assert forall|k: int| 0 <= k < nv.len() implies node_names(r.node_views()).contains(
                #[trigger] nv[k].macro_name@,
            ) by {
                assert(orig[k].name == nv[k].macro_name@);
            }
        }
        r
    }
}

/// What a depth-first exploration of the hierarchy needs done outside the
/// library: evaluating a macro's exploration, resolving the conditions a
/// parent places on a child, and turning a child's results into candidates.
/// The tables, conditions and candidate sets are the implementor's own.
pub trait HierarchyDfsOracle {
    type Table;
    type Constraints;
    type CandidateSet;
    type EvaluationFailure;
    type ConditionFailure;
    type CandidateFailure;

    /// The conditions of the top macro, which has no parent.
    fn unconstrained(&mut self) -> Self::Constraints;

    /// Evaluates `macro_name` at `event` with the candidate sets of the
    /// children done so far and the conditions inherited from the parent;
    /// gives the table and its number of rows.
    fn evaluate(
        &mut self,
        macro_name: &str,
        event: &str,
        child_candidate_sets: &Vec<Self::CandidateSet>,
        inherited_constraints: &Self::Constraints,
    ) -> Result<(Self::Table, usize), Self::EvaluationFailure>;

    /// The conditions `parent_macro` places on its instance `instance_name`
    /// of `child_macro`, from the parent's current table; gives them with the
    /// number of pre-build constraints and of filters among them.
    fn resolve_child(
        &mut self,
        parent_macro: &str,
        instance_name: &str,
        child_macro: &str,
        parent_table: &Self::Table,
    ) -> Result<(Self::Constraints, usize, usize), Self::ConditionFailure>;

    /// The candidate set that the results of a child give its parent.
    fn collect_child(
        &mut self,
        instance_name: &str,
        child_macro: &str,
        child_table: &Self::Table,
    ) -> Result<Self::CandidateSet, Self::CandidateFailure>;
}

/// A step of the exploration, without the numbers the oracle reports.
pub enum DfsMove {
    Enter { macro_name: Seq<char>, level: nat },
    Evaluate { macro_name: Seq<char>, event: Seq<char>, candidate_sets: nat },
    Descend { parent_macro: Seq<char>, instance_name: Seq<char>, child_macro: Seq<char>, level: nat },
    RefreshParent { macro_name: Seq<char>, instance_name: Seq<char> },
    Leave { macro_name: Seq<char>, level: nat },
}

/// Why an exploration stopped: the hierarchy's own reasons, or a failure
/// the oracle reported. The oracle's failures are values of its own types,
/// which only the oracle makes, so every such error came from a reply.
#[derive(Debug, Clone, PartialEq, Eq)]
pub enum DfsStop<E, CE, KE> {
    MissingNode { macro_name: String },
    Cycle { macro_name: String },
    Evaluation { macro_name: String, event: String, failure: E },
    Condition(CE),
    Candidate(KE),
}

impl HierarchyDfsError {
    /// The error of a stop whose oracle reports messages, condition errors
    /// and candidate errors: each variant carried over as it is.
    pub fn from_stop(stop: DfsStop<String, SubmacroConditionError, SubmacroCandidateError>) -> (r:
        Self)
        ensures
            match stop {
                DfsStop::MissingNode { macro_name } => r == HierarchyDfsError::MissingNode {
                    macro_name,
                },
                DfsStop::Cycle { macro_name } => r == HierarchyDfsError::Cycle { macro_name },
                DfsStop::Evaluation { macro_name, event, failure } => r
                    == HierarchyDfsError::Evaluation { macro_name, event, message: failure },
                DfsStop::Condition(e) => r == HierarchyDfsError::Condition(e),
                DfsStop::Candidate(e) => r == HierarchyDfsError::Candidate(e),
            },
    {
        match stop {
            DfsStop::MissingNode { macro_name } => HierarchyDfsError::MissingNode { macro_name },
            DfsStop::Cycle { macro_name } => HierarchyDfsError::Cycle { macro_name },
            DfsStop::Evaluation { macro_name, event, failure } => HierarchyDfsError::Evaluation {
                macro_name,
                event,
                message: failure,
            },
            DfsStop::Condition(e) => HierarchyDfsError::Condition(e),
            DfsStop::Candidate(e) => HierarchyDfsError::Candidate(e),
        }
    }
}

/// Why the hierarchy itself stops an exploration.
pub enum DfsFailure {
    MissingNode(Seq<char>),
    Cycle(Seq<char>),
}

/// An event as a step, its numbers dropped.
pub open spec fn event_move(e: HierarchyDfsEvent) -> DfsMove {
    match e {
        HierarchyDfsEvent::Enter { macro_name, level, .. } => DfsMove::Enter {
            macro_name: macro_name@,
            level: level as nat,
        },
        HierarchyDfsEvent::Evaluate { macro_name, event, candidate_sets, .. } => DfsMove::Evaluate {
            macro_name: macro_name@,
            event: event@,
            candidate_sets: candidate_sets as nat,
        },
        HierarchyDfsEvent::Descend { parent_macro, instance_name, child_macro, level, .. } =>
            DfsMove::Descend {
            parent_macro: parent_macro@,
            instance_name: instance_name@,
            child_macro: child_macro@,
            level: level as nat,
        },
        HierarchyDfsEvent::RefreshParent { macro_name, instance_name, .. } =>
            DfsMove::RefreshParent { macro_name: macro_name@, instance_name: instance_name@ },
        HierarchyDfsEvent::Leave { macro_name, level, .. } => DfsMove::Leave {
            macro_name: macro_name@,
            level: level as nat,
        },
    }
}

/// Events as steps.
pub open spec fn moves_of(events: Seq<HierarchyDfsEvent>) -> Seq<DfsMove> {
    events.map_values(|e: HierarchyDfsEvent| event_move(e))
}

/// The node that explores `name`.
pub open spec fn node_index(nodes: Seq<DfsNodeView>, name: Seq<char>) -> Option<int> {
    if exists|i: int| 0 <= i < nodes.len() && (#[trigger] nodes[i]).name == name {
        Some(choose|i: int| 0 <= i < nodes.len() && (#[trigger] nodes[i]).name == name)
    } else {
        None
    }
}

/// The event at which a parent is evaluated again after a child.
pub open spec fn after_child_event(instance: Seq<char>) -> Seq<char> {
    "after_child_"@ + event_name(instance)
}

/// The exploration of `m`, reached by the macros of `path`, at `level`:
/// enter, evaluate at `initial`, each child in turn, evaluate at `final`,
/// leave; a macro reached again on its own path is a cycle.
pub open spec fn visit_walk(
    nodes: Seq<DfsNodeView>,
    m: Seq<char>,
    path: Seq<Seq<char>>,
    level: nat,
    fuel: nat,
) -> (Seq<DfsMove>, Option<DfsFailure>)
    decreases fuel, 1nat, 0nat,
{
    if path.contains(m) {
        (seq![], Some(DfsFailure::Cycle(m)))
    } else {
        match node_index(nodes, m) {
            None => (seq![], Some(DfsFailure::MissingNode(m))),
            Some(i) => if fuel == 0 {
                (seq![], None)
            } else {
                let head = seq![
                    DfsMove::Enter { macro_name: m, level },
                    DfsMove::Evaluate { macro_name: m, event: "initial"@, candidate_sets: 0 },
                ];
                let inner = children_walk(
                    nodes,
                    m,
                    nodes[i].children,
                    path.push(m),
                    level,
                    0,
                    (fuel - 1) as nat,
                );
                if inner.1 is Some {
                    (head + inner.0, inner.1)
                } else {
                    (
                        head + inner.0 + seq![
                            DfsMove::Evaluate {
                                macro_name: m,
                                event: "final"@,
                                candidate_sets: nodes[i].children.len(),
                            },
                            DfsMove::Leave { macro_name: m, level },
                        ],
                        None,
                    )
                }
            },
        }
    }
}

/// The exploration of the children of `m` from the `k`-th on: descend into
/// each, then evaluate `m` again and refresh it.
pub open spec fn children_walk(
    nodes: Seq<DfsNodeView>,
    m: Seq<char>,
    children: Seq<(Seq<char>, Seq<char>)>,
    path: Seq<Seq<char>>,
    level: nat,
    k: nat,
    fuel: nat,
) -> (Seq<DfsMove>, Option<DfsFailure>)
    decreases fuel, 2nat, children.len() - k,
{
    if k >= children.len() {
        (seq![], None)
    } else {
        let inst = children[k as int].0;
        let cm = children[k as int].1;
        if node_index(nodes, cm) is None {
            (seq![], Some(DfsFailure::MissingNode(cm)))
        } else {
            let sub = visit_walk(nodes, cm, path, level + 1, fuel);
            let pre = seq![
                DfsMove::Descend { parent_macro: m, instance_name: inst, child_macro: cm, level },
            ] + sub.0;
            if sub.1 is Some {
                (pre, sub.1)
            } else {
                let rest = children_walk(nodes, m, children, path, level, k + 1, fuel);
                (
                    pre + seq![
                        DfsMove::Evaluate {
                            macro_name: m,
                            event: after_child_event(inst),
                            candidate_sets: k + 1,
                        },
                        DfsMove::RefreshParent { macro_name: m, instance_name: inst },
                    ] + rest.0,
                    rest.1,
                )
            }
        }
    }
}

/// The exploration of a hierarchy from its top macro.
pub open spec fn dfs_walk(top: Seq<char>, nodes: Seq<DfsNodeView>) -> (
    Seq<DfsMove>,
    Option<DfsFailure>,
) {
    visit_walk(nodes, top, seq![], 0, nodes.len())
}

/// The hierarchy's reason in an error, if the error is the hierarchy's.
pub open spec fn failure_of<E, CE, KE>(e: DfsStop<E, CE, KE>) -> Option<DfsFailure> {
    match e {
        DfsStop::MissingNode { macro_name } => Some(DfsFailure::MissingNode(macro_name@)),
        DfsStop::Cycle { macro_name } => Some(DfsFailure::Cycle(macro_name@)),
        _ => None,
    }
}

/// Whether an error came from the oracle rather than from the hierarchy.
pub open spec fn oracle_failed<E, CE, KE>(e: DfsStop<E, CE, KE>) -> bool {
    match e {
        DfsStop::Condition(_) => true,
        DfsStop::Candidate(_) => true,
        DfsStop::Evaluation { .. } => true,
        _ => false,
    }
}

/// The macro names that have a result, in order.
pub open spec fn result_names<T>(results: Seq<(String, T)>) -> Seq<Seq<char>> {
    results.map_values(|p: (String, T)| p.0@)
}

/// Whether an outcome of exploring agrees with the walk `w`: on success the
/// events went from `before` to `after` by the walk's steps; an error is
/// the oracle's, or the hierarchy's reason that the walk ends with.
pub open spec fn outcome_follows<T, E, CE, KE>(
    r: Result<T, DfsStop<E, CE, KE>>,
    w: (Seq<DfsMove>, Option<DfsFailure>),
    before: Seq<HierarchyDfsEvent>,
    after: Seq<HierarchyDfsEvent>,
) -> bool {
    match r {
        Ok(_) => w.1 is None && moves_of(after) == moves_of(before) + w.0,
        Err(e) => oracle_failed(e) || w.1 == failure_of(e),
    }
}

/// Whether every macro entered in `moves` is among `names`.
pub open spec fn entered_among(moves: Seq<DfsMove>, names: Seq<Seq<char>>) -> bool {
    forall|j: int|
        0 <= j < moves.len() ==> (#[trigger] moves[j] matches DfsMove::Enter { macro_name, .. }
            ==> names.contains(macro_name))
}

/// Whether `e` evaluates `name` at `final`.
pub open spec fn is_final_of(e: HierarchyDfsEvent, name: Seq<char>) -> bool {
    &&& e matches HierarchyDfsEvent::Evaluate { macro_name: a, event: b, .. }
    &&& a@ == name
    &&& b@ == "final"@
}

/// The table given by the last evaluation of `name` at `final` among the
/// events, `tables` holding beside each evaluation event the table it gave.
pub open spec fn final_table_of<T>(
    events: Seq<HierarchyDfsEvent>,
    tables: Seq<Option<T>>,
    name: Seq<char>,
) -> Option<T>
    decreases events.len(),
{
    if events.len() == 0 || tables.len() == 0 {
        None
    } else if is_final_of(events.last(), name) {
        tables.last()
    } else {
        final_table_of(events.drop_last(), tables.drop_last(), name)
    }
}

/// Whether each result is the table of its macro's last evaluation at `final`.
pub open spec fn results_are_final_tables<T>(
    results: Seq<(String, T)>,
    events: Seq<HierarchyDfsEvent>,
    tables: Seq<Option<T>>,
) -> bool {
    forall|i: int|
        0 <= i < results.len() ==> final_table_of(events, tables, (#[trigger] results[i]).0@)
            == Some(results[i].1)
}

/// Whether `e` is an evaluation of `name`.
pub open spec fn is_evaluation_of(e: HierarchyDfsEvent, name: Seq<char>) -> bool {
    e matches HierarchyDfsEvent::Evaluate { macro_name: a, .. } && a@ == name
}

/// The table given by the last evaluation of `name` among the events.
pub open spec fn latest_table_of<T>(
    events: Seq<HierarchyDfsEvent>,
    tables: Seq<Option<T>>,
    name: Seq<char>,
) -> Option<T>
    decreases events.len(),
{
    if events.len() == 0 || tables.len() == 0 {
        None
    } else if is_evaluation_of(events.last(), name) {
        tables.last()
    } else {
        latest_table_of(events.drop_last(), tables.drop_last(), name)
    }
}

/// Whether beside each descent stands the table its parent's conditions
/// were resolved from: the table of the parent's latest evaluation.
pub open spec fn descents_use_latest<T>(
    events: Seq<HierarchyDfsEvent>,
    tables: Seq<Option<T>>,
) -> bool {
    forall|i: int|
        0 <= i < events.len() ==> ((#[trigger] events[i]) matches HierarchyDfsEvent::Descend {
            parent_macro: p,
            ..
        } ==> tables[i] == latest_table_of(events.take(i), tables.take(i), p@))
}

proof fn lemma_latest_push<T>(
    events: Seq<HierarchyDfsEvent>,
    tables: Seq<Option<T>>,
    e: HierarchyDfsEvent,
    o: Option<T>,
    name: Seq<char>,
)
    requires
        events.len() == tables.len(),
    ensures
        latest_table_of(events.push(e), tables.push(o), name) == if is_evaluation_of(e, name) {
            o
        } else {
            latest_table_of(events, tables, name)
        },
{
    assert(events.push(e).drop_last() =~= events);
    assert(tables.push(o).drop_last() =~= tables);
}

proof fn lemma_descents_push<T>(
    events: Seq<HierarchyDfsEvent>,
    tables: Seq<Option<T>>,
    e: HierarchyDfsEvent,
    o: Option<T>,
)
    requires
        events.len() == tables.len(),
        descents_use_latest(events, tables),
        e matches HierarchyDfsEvent::Descend { parent_macro: p, .. } ==> o == latest_table_of(
            events,
            tables,
            p@,
        ),
    ensures
        descents_use_latest(events.push(e), tables.push(o)),
{
    let ev = events.push(e);
    let tb = tables.push(o);
    assert forall|i: int| 0 <= i < ev.len() implies ((#[trigger] ev[i]) matches HierarchyDfsEvent::Descend {
        parent_macro: p,
        ..
    } ==> tb[i] == latest_table_of(ev.take(i), tb.take(i), p@)) by {
        if i < events.len() {
            assert(ev.take(i) =~= events.take(i));
            assert(tb.take(i) =~= tables.take(i));
            assert(ev[i] == events[i]);
        } else {
            assert(ev.take(i) =~= events);
            assert(tb.take(i) =~= tables);
        }
    }
}

proof fn lemma_push_keeps<T>(
    events: Seq<HierarchyDfsEvent>,
    tables: Seq<Option<T>>,
    e: HierarchyDfsEvent,
    o: Option<T>,
    path: Seq<Seq<char>>,
)
    requires
        events.len() == tables.len(),
        descents_use_latest(events, tables),
        e matches HierarchyDfsEvent::Descend { parent_macro: p, .. } ==> o == latest_table_of(
            events,
            tables,
            p@,
        ),
        forall|n: Seq<char>| path.contains(n) ==> !is_evaluation_of(e, n),
        refreshes_use_child_tables(events, tables),
        e matches HierarchyDfsEvent::RefreshParent { macro_name: p, instance_name: x, .. } ==> (
        descended_child(events, p@, x@) matches Some(c) && o == final_table_of(events, tables, c)),
        forall|p: Seq<char>, x: Seq<char>| path.contains(p) ==> descent_into(e, p, x) is None,
    ensures
        descents_use_latest(events.push(e), tables.push(o)),
        forall|n: Seq<char>|
            path.contains(n) ==> latest_table_of(events.push(e), tables.push(o), n)
                == latest_table_of(events, tables, n),
        refreshes_use_child_tables(events.push(e), tables.push(o)),
        forall|p: Seq<char>, x: Seq<char>|
            path.contains(p) ==> descended_child(events.push(e), p, x) == descended_child(
                events,
                p,
                x,
            ),
{
    lemma_refreshes_push(events, tables, e, o);
    assert forall|p: Seq<char>, x: Seq<char>| path.contains(p) implies descended_child(
        events.push(e),
        p,
        x,
    ) == descended_child(events, p, x) by {
        lemma_descended_push(events, e, p, x);
    }
    lemma_descents_push(events, tables, e, o);
    assert forall|n: Seq<char>| path.contains(n) implies latest_table_of(
        events.push(e),
        tables.push(o),
        n,
    ) == latest_table_of(events, tables, n) by {
        lemma_latest_push(events, tables, e, o, n);
    }
}

/// The macro `e` descends into, if it descends from `parent` through its
/// instance `instance`.
pub open spec fn descent_into(e: HierarchyDfsEvent, parent: Seq<char>, instance: Seq<char>) -> Option<
    Seq<char>,
> {
    match e {
        HierarchyDfsEvent::Descend { parent_macro, instance_name, child_macro, .. } => if parent_macro@
            == parent && instance_name@ == instance {
            Some(child_macro@)
        } else {
            None
        },
        _ => None,
    }
}

/// The macro of the last descent from `parent` through its instance
/// `instance` among the events.
pub open spec fn descended_child(
    events: Seq<HierarchyDfsEvent>,
    parent: Seq<char>,
    instance: Seq<char>,
) -> Option<Seq<char>>
    decreases events.len(),
{
    if events.len() == 0 {
        None
    } else {
        match descent_into(events.last(), parent, instance) {
            Some(c) => Some(c),
            None => descended_child(events.drop_last(), parent, instance),
        }
    }
}

/// Whether beside each refresh of a parent stands the table its child's
/// candidates were taken from: the child's last table at `final`.
pub open spec fn refreshes_use_child_tables<T>(
    events: Seq<HierarchyDfsEvent>,
    tables: Seq<Option<T>>,
) -> bool {
    forall|i: int|
        0 <= i < events.len() ==> ((#[trigger] events[i]) matches HierarchyDfsEvent::RefreshParent {
            macro_name: p,
            instance_name: x,
            ..
        } ==> (descended_child(events.take(i), p@, x@) matches Some(c) && tables[i]
            == final_table_of(events.take(i), tables.take(i), c)))
}

proof fn lemma_descended_push(
    events: Seq<HierarchyDfsEvent>,
    e: HierarchyDfsEvent,
    parent: Seq<char>,
    instance: Seq<char>,
)
    ensures
        descended_child(events.push(e), parent, instance) == match descent_into(e, parent, instance) {
            Some(c) => Some(c),
            None => descended_child(events, parent, instance),
        },
{
    assert(events.push(e).drop_last() =~= events);
}

proof fn lemma_refreshes_push<T>(
    events: Seq<HierarchyDfsEvent>,
    tables: Seq<Option<T>>,
    e: HierarchyDfsEvent,
    o: Option<T>,
)
    requires
        events.len() == tables.len(),
        refreshes_use_child_tables(events, tables),
        e matches HierarchyDfsEvent::RefreshParent { macro_name: p, instance_name: x, .. } ==> (
        descended_child(events, p@, x@) matches Some(c) && o == final_table_of(events, tables, c)),
    ensures
        refreshes_use_child_tables(events.push(e), tables.push(o)),
{
    let ev = events.push(e);
    let tb = tables.push(o);
    assert forall|i: int| 0 <= i < ev.len() implies ((#[trigger] ev[i]) matches HierarchyDfsEvent::RefreshParent {
        macro_name: p,
        instance_name: x,
        ..
    } ==> (descended_child(ev.take(i), p@, x@) matches Some(c) && tb[i] == final_table_of(
        ev.take(i),
        tb.take(i),
        c,
    ))) by {
        if i < events.len() {
            assert(ev.take(i) =~= events.take(i));
            assert(tb.take(i) =~= tables.take(i));
            assert(ev[i] == events[i]);
        } else {
            assert(ev.take(i) =~= events);
            assert(tb.take(i) =~= tables);
        }
    }
}

/// What a finished exploration gives: the table of each macro explored
/// from its last evaluation at `final`, where the top macro's stands, and
/// the events in order. Beside each event stand the table it went with (the
/// table an evaluation gave, the parent's table a descent resolved its
/// conditions from, the child's table a refresh took its candidates from)
/// and the conditions it went with (those a macro was entered with, those a
/// descent resolved, those an evaluation was handed).
pub struct HierarchyDfsOutcome<T, C> {
    pub results_by_macro: Vec<(String, T)>,
    pub top: usize,
    pub events: Vec<HierarchyDfsEvent>,
    pub tables: Ghost<Seq<Option<T>>>,
    pub constraints: Ghost<Seq<Option<C>>>,
}

struct DfsState<T, C> {
    events: Vec<HierarchyDfsEvent>,
    tables: Ghost<Seq<Option<T>>>,
    constraints: Ghost<Seq<Option<C>>>,
    results: Vec<(String, T)>,
    visiting: Vec<String>,
}

/// Whether `e` is the entry into `name`.
pub open spec fn is_enter_of(e: HierarchyDfsEvent, name: Seq<char>) -> bool {
    e matches HierarchyDfsEvent::Enter { macro_name: a, .. } && a@ == name
}

/// The conditions `name` was last entered with, among the events.
pub open spec fn entered_with<C>(
    events: Seq<HierarchyDfsEvent>,
    constraints: Seq<Option<C>>,
    name: Seq<char>,
) -> Option<C>
    decreases events.len(),
{
    if events.len() == 0 || constraints.len() == 0 {
        None
    } else if is_enter_of(events.last(), name) {
        constraints.last()
    } else {
        entered_with(events.drop_last(), constraints.drop_last(), name)
    }
}

/// Whether each evaluation was handed the conditions its macro was entered
/// with.
#[verifier::opaque]
pub open spec fn evaluations_use_inherited<C>(
    events: Seq<HierarchyDfsEvent>,
    constraints: Seq<Option<C>>,
) -> bool {
    forall|i: int|
        0 <= i < events.len() ==> ((#[trigger] events[i]) matches HierarchyDfsEvent::Evaluate {
            macro_name: a,
            ..
        } ==> constraints[i] == entered_with(events.take(i), constraints.take(i), a@))
}

/// Whether each child right after its descent was entered with the
/// conditions the descent resolved.
#[verifier::opaque]
pub open spec fn children_enter_with_resolved<C>(
    events: Seq<HierarchyDfsEvent>,
    constraints: Seq<Option<C>>,
) -> bool {
    forall|i: int|
        0 < i < events.len() ==> ((#[trigger] events[i]) is Enter && events[i - 1] is Descend
            ==> constraints[i] == constraints[i - 1])
}

proof fn lemma_constraints_push<C>(
    events: Seq<HierarchyDfsEvent>,
    constraints: Seq<Option<C>>,
    e: HierarchyDfsEvent,
    c: Option<C>,
    name: Seq<char>,
    path: Seq<Seq<char>>,
)
    requires
        events.len() == constraints.len(),
        evaluations_use_inherited(events, constraints),
        children_enter_with_resolved(events, constraints),
        e matches HierarchyDfsEvent::Evaluate { macro_name: a, .. } ==> c == entered_with(
            events,
            constraints,
            a@,
        ),
        e is Enter && events.len() > 0 && events.last() is Descend ==> c == constraints.last(),
    ensures
        evaluations_use_inherited(events.push(e), constraints.push(c)),
        children_enter_with_resolved(events.push(e), constraints.push(c)),
        entered_with(events.push(e), constraints.push(c), name) == if is_enter_of(e, name) {
            c
        } else {
            entered_with(events, constraints, name)
        },
        forall|n: Seq<char>|
            path.contains(n) && !is_enter_of(e, n) ==> #[trigger] entered_with(
                events.push(e),
                constraints.push(c),
                n,
            ) == entered_with(events, constraints, n),
{
    reveal(evaluations_use_inherited);
    reveal(children_enter_with_resolved);
    let ev = events.push(e);
    let cs = constraints.push(c);
    assert(ev.drop_last() =~= events);
    assert(cs.drop_last() =~= constraints);
    assert forall|i: int| 0 <= i < ev.len() implies ((#[trigger] ev[i]) matches HierarchyDfsEvent::Evaluate {
        macro_name: a,
        ..
    } ==> cs[i] == entered_with(ev.take(i), cs.take(i), a@)) by {
        if i < events.len() {
            assert(ev.take(i) =~= events.take(i));
            assert(cs.take(i) =~= constraints.take(i));
            assert(ev[i] == events[i]);
        } else {
            assert(ev.take(i) =~= events);
            assert(cs.take(i) =~= constraints);
        }
    }
    assert forall|i: int| 0 < i < ev.len() implies ((#[trigger] ev[i]) is Enter && ev[i - 1] is Descend
        ==> cs[i] == cs[i - 1]) by {
        if i < events.len() {
            assert(ev[i] == events[i]);
            assert(ev[i - 1] == events[i - 1]);
        }
    }
}

proof fn lemma_final_table_push<T>(
    events: Seq<HierarchyDfsEvent>,
    tables: Seq<Option<T>>,
    e: HierarchyDfsEvent,
    o: Option<T>,
    name: Seq<char>,
)
    requires
        events.len() == tables.len(),
    ensures
        final_table_of(events.push(e), tables.push(o), name) == if is_final_of(e, name) {
            o
        } else {
            final_table_of(events, tables, name)
        },
{
    assert(events.push(e).drop_last() =~= events);
    assert(tables.push(o).drop_last() =~= tables);
}

proof fn lemma_results_keep<T>(
    results: Seq<(String, T)>,
    events: Seq<HierarchyDfsEvent>,
    tables: Seq<Option<T>>,
    e: HierarchyDfsEvent,
    o: Option<T>,
)
    requires
        events.len() == tables.len(),
        results_are_final_tables(results, events, tables),
        forall|i: int| 0 <= i < results.len() ==> !is_final_of(e, (#[trigger] results[i]).0@),
    ensures
        results_are_final_tables(results, events.push(e), tables.push(o)),
{
    assert forall|i: int| 0 <= i < results.len() implies final_table_of(
        events.push(e),
        tables.push(o),
        (#[trigger] results[i]).0@,
    ) == Some(results[i].1) by {
        lemma_final_table_push(events, tables, e, o, results[i].0@);
    }
}

proof fn lemma_moves_push(events: Seq<HierarchyDfsEvent>, e: HierarchyDfsEvent)
    ensures
        moves_of(events.push(e)) == moves_of(events).push(event_move(e)),
{
    assert(moves_of(events.push(e)) =~= moves_of(events).push(event_move(e)));
}

proof fn lemma_path_bound(nodes: Seq<DfsNodeView>, p: Seq<Seq<char>>)
    requires
        p.no_duplicates(),
        forall|j: int| 0 <= j < p.len() ==> node_index(nodes, #[trigger] p[j]) is Some,
    ensures
        p.len() <= nodes.len(),
{
    let names = node_names(nodes);
    p.unique_seq_to_set();
    assert forall|x: Seq<char>| p.to_set().contains(x) implies names.to_set().contains(x) by {
        let j = choose|j: int| 0 <= j < p.len() && p[j] == x;
        assert(node_index(nodes, p[j]) is Some);
        let i = choose|i: int| 0 <= i < nodes.len() && (#[trigger] nodes[i]).name == x;
        assert(names[i] == x);
    }
    vstd::seq_lib::seq_to_set_is_finite(names);
    vstd::set_lib::lemma_len_subset(p.to_set(), names.to_set());
    names.lemma_cardinality_of_set();
}

fn find_node(shape: &HierarchyDfsShape, name: &str) -> (r: Option<usize>)
    requires
        node_names(shape.node_views()).no_duplicates(),
    ensures
        match r {
            Some(i) => i < shape.node_views().len() && node_index(shape.node_views(), name@) == Some(
                i as int,
            ),
            None => node_index(shape.node_views(), name@) is None,
        },
{
    let ghost nv = shape.node_views();
    let mut i: usize = 0;
    while i < shape.nodes.len()
        invariant
            i <= shape.nodes@.len(),
            nv == shape.node_views(),
            nv.len() == shape.nodes@.len(),
            node_names(nv).no_duplicates(),
            forall|q: int| 0 <= q < i ==> (#[trigger] nv[q]).name != name@,
        decreases shape.nodes.len() - i,
    {
        proof {
            assert(nv[i as int] == shape.nodes@[i as int]@);
        }
        if str_eq(shape.nodes[i].macro_name.as_str(), name) {
            proof {
                assert(nv[i as int].name == name@);
                let c = choose|c: int| 0 <= c < nv.len() && (#[trigger] nv[c]).name == name@;
                assert(0 <= c < nv.len() && nv[c].name == name@);
                assert(c == i as int) by {
                    if c != i as int {
                        assert(node_names(nv)[c] == nv[c].name);
                        assert(node_names(nv)[i as int] == nv[i as int].name);
                    }
                }
                assert(node_index(nv, name@) == Some(i as int));
            }
            return Some(i);
        }
        i = i + 1;
    }
    None
}

/// Sets the result of `name` to `table`: the entry of that name takes it,
/// or, where there is none, an entry is added at the end; gives the place.
fn insert_result<T>(results: &mut Vec<(String, T)>, name: &str, table: T) -> (k: usize)
    ensures
        k < final(results)@.len(),
        final(results)@[k as int].0@ == name@,
        final(results)@[k as int].1 == table,
        result_names(final(results)@).contains(name@),
        old(results)@.len() <= final(results)@.len() <= old(results)@.len() + 1,
        final(results)@.len() == old(results)@.len() + 1 ==> !result_names(old(results)@).contains(name@) && k == old(results)@.len(),
        forall|i: int|
            0 <= i < old(results)@.len() ==> (#[trigger] final(results)@[i]).0@ == old(results)@[i].0@,
        forall|i: int|
            0 <= i < final(results)@.len() && (#[trigger] final(results)@[i]).0@ != name@ ==> i
                < old(results)@.len() && final(results)@[i] == old(results)@[i],
        result_names(old(results)@).no_duplicates() ==> forall|i: int|
            0 <= i < final(results)@.len() && (#[trigger] final(results)@[i]).0@ == name@ ==> final(results)@[i].1 == table,
        forall|n: Seq<char>|
            result_names(old(results)@).contains(n) ==> result_names(final(results)@).contains(n),
        result_names(old(results)@).no_duplicates() ==> result_names(final(results)@).no_duplicates(),
{
    let ghost before = result_names(results@);
    let mut i: usize = 0;
    while i < results.len()
        invariant
            i <= results@.len(),
            results@ == old(results)@,
            before == result_names(results@),
            forall|q: int| 0 <= q < i ==> before[q] != name@,
        decreases results.len() - i,
    {
        if str_eq(results[i].0.as_str(), name) {
            proof {
                assert(before[i as int] == name@);
            }
            let ghost old_v = results@;
            results.set(i, (string_from(name), table));
            proof {
                let after = result_names(results@);
                assert(after =~= before.update(i as int, name@));
                assert(after[i as int] == name@);
                assert forall|n: Seq<char>| before.contains(n) implies after.contains(n) by {
                    let q = choose|q: int| 0 <= q < before.len() && before[q] == n;
                    assert(after[q] == n);
                }
                if before.no_duplicates() {
                    assert forall|q: int|
                        0 <= q < results@.len() && (#[trigger] results@[q]).0@ == name@ implies results@[q].1
                        == table by {
                        if q != i {
                            assert(results@[q] == old_v[q]);
                            assert(before[q] == name@);
                            assert(before[i as int] == name@);
                        }
                    }
                }
            }
            return i;
        }
        i = i + 1;
    }
    results.push((string_from(name), table));
    proof {
        let after = result_names(results@);
        assert(after =~= before.push(name@));
        assert(after[before.len() as int] == name@);
        assert forall|n: Seq<char>| before.contains(n) implies after.contains(n) by {
            let q = choose|q: int| 0 <= q < before.len() && before[q] == n;
            assert(after[q] == n);
        }
        assert(!before.contains(name@));
        assert forall|q: int|
            0 <= q < results@.len() && (#[trigger] results@[q]).0@ == name@ implies results@[q].1
            == table by {
            if q < before.len() {
                assert(before[q] == results@[q].0@);
            }
        }
    }
    (results.len() - 1) as usize
}

/// Whether `e` is the evaluation of `macro_name` at `event`, given
/// `candidate_sets` candidate sets, giving `rows` rows.
pub open spec fn is_evaluation_event(
    e: HierarchyDfsEvent,
    macro_name: Seq<char>,
    event: Seq<char>,
    candidate_sets: usize,
    rows: usize,
) -> bool {
    &&& e matches HierarchyDfsEvent::Evaluate { macro_name: a, event: b, candidate_sets: n, rows: c }
    &&& a@ == macro_name
    &&& b@ == event
    &&& n == candidate_sets
    &&& c == rows
}

/// Whether `e` is the descent from `parent` into its instance `instance` of
/// `child` at `level`, with the counts of the child's conditions.
pub open spec fn is_descent_event(
    e: HierarchyDfsEvent,
    parent: Seq<char>,
    instance: Seq<char>,
    child: Seq<char>,
    level: usize,
    pre_build_constraints: usize,
    filters: usize,
) -> bool {
    &&& e matches HierarchyDfsEvent::Descend {
        parent_macro: a,
        instance_name: b,
        child_macro: c,
        level: l,
        pre_build_constraints: p,
        filters: f,
    }
    &&& a@ == parent
    &&& b@ == instance
    &&& c@ == child
    &&& l == level
    &&& p == pre_build_constraints
    &&& f == filters
}

/// Records what an evaluation of `macro_name` at `event` gave: a table and
/// its rows are logged as an evaluation event, with the number of
/// candidate sets the evaluation was given, and handed on; a failure
/// becomes an evaluation error.
pub fn record_evaluation<T, E, CE, KE>(
    events: &mut Vec<HierarchyDfsEvent>,
    macro_name: &str,
    event: &str,
    candidate_sets: usize,
    reply: Result<(T, usize), E>,
) -> (r: Result<(T, usize), DfsStop<E, CE, KE>>)
    ensures
        match reply {
            Ok((table, rows)) => {
                &&& r == Ok::<(T, usize), DfsStop<E, CE, KE>>((table, rows))
                &&& final(events)@.len() == old(events)@.len() + 1
                &&& final(events)@.drop_last() == old(events)@
                &&& is_evaluation_event(
                    final(events)@.last(),
                    macro_name@,
                    event@,
                    candidate_sets,
                    rows,
                )
            },
            Err(failure) => {
                &&& final(events)@ == old(events)@
                &&& r matches Err(DfsStop::Evaluation { macro_name: a, event: b, failure: c })
                &&& a@ == macro_name@
                &&& b@ == event@
                &&& c == failure
            },
        },
{
    match reply {
        Ok((table, rows)) => {
            events.push(
                HierarchyDfsEvent::Evaluate {
                    macro_name: string_from(macro_name),
                    event: string_from(event),
                    candidate_sets,
                    rows,
                },
            );
            proof {
                assert(events@.drop_last() =~= old(events)@);
            }
            Ok((table, rows))
        },
        Err(failure) => Err(
            DfsStop::Evaluation {
                macro_name: string_from(macro_name),
                event: string_from(event),
                failure,
            },
        ),
    }
}

/// Records the conditions resolved for a child: they are logged as the
/// descent into the child, with their counts, and handed on; an error
/// becomes a condition error.
pub fn record_descent<C, E, CE, KE>(
    events: &mut Vec<HierarchyDfsEvent>,
    parent_macro: &str,
    instance_name: &str,
    child_macro: &str,
    level: usize,
    reply: Result<(C, usize, usize), CE>,
) -> (r: Result<(C, usize, usize), DfsStop<E, CE, KE>>)
    ensures
        match reply {
            Ok((constraints, pre, filters)) => {
                &&& r == Ok::<(C, usize, usize), DfsStop<E, CE, KE>>((constraints, pre, filters))
                &&& final(events)@.len() == old(events)@.len() + 1
                &&& final(events)@.drop_last() == old(events)@
                &&& is_descent_event(
                    final(events)@.last(),
                    parent_macro@,
                    instance_name@,
                    child_macro@,
                    level,
                    pre,
                    filters,
                )
            },
            Err(e) => final(events)@ == old(events)@ && r == Err::<
                (C, usize, usize),
                DfsStop<E, CE, KE>,
            >(DfsStop::Condition(e)),
        },
{
    match reply {
        Ok((constraints, pre, filters)) => {
            events.push(
                HierarchyDfsEvent::Descend {
                    parent_macro: string_from(parent_macro),
                    instance_name: string_from(instance_name),
                    child_macro: string_from(child_macro),
                    level,
                    pre_build_constraints: pre,
                    filters,
                },
            );
            proof {
                assert(events@.drop_last() =~= old(events)@);
            }
            Ok((constraints, pre, filters))
        },
        Err(e) => Err(DfsStop::Condition(e)),
    }
}

/// Asks the oracle for the conditions of a child from the parent's table,
/// and logs the descent with that table beside it.
fn descend_step<O: HierarchyDfsOracle>(
    parent_macro: &str,
    instance_name: &str,
    child_macro: &str,
    level: usize,
    parent_table: &O::Table,
    oracle: &mut O,
    state: &mut DfsState<O::Table, O::Constraints>,
) -> (r: Result<(O::Constraints, usize, usize), DfsStop<O::EvaluationFailure, O::ConditionFailure, O::CandidateFailure>>)
    ensures
        final(state).visiting@ == old(state).visiting@,
        final(state).results@ == old(state).results@,
        match r {
            Ok((resolved, pre, filters)) => {
                &&& final(state).events@.len() == old(state).events@.len() + 1
                &&& final(state).events@.drop_last() == old(state).events@
                &&& is_descent_event(
                    final(state).events@.last(),
                    parent_macro@,
                    instance_name@,
                    child_macro@,
                    level,
                    pre,
                    filters,
                )
                &&& final(state).tables@ == old(state).tables@.push(Some(*parent_table))
                &&& final(state).constraints@ == old(state).constraints@.push(Some(resolved))
            },
            Err(e) => oracle_failed(e),
        },
{
    let reply = oracle.resolve_child(parent_macro, instance_name, child_macro, parent_table);
    let r = record_descent(&mut state.events, parent_macro, instance_name, child_macro, level, reply);
    match r {
        Ok((resolved, pre, filters)) => {
            proof {
                state.tables@ = state.tables@.push(Some(*parent_table));
                state.constraints@ = state.constraints@.push(Some(resolved));
            }
            Ok((resolved, pre, filters))
        },
        Err(e) => Err(e),
    }
}

proof fn lemma_moves_last(before: Seq<HierarchyDfsEvent>, after: Seq<HierarchyDfsEvent>)
    requires
        after.len() == before.len() + 1,
        after.drop_last() == before,
    ensures
        moves_of(after) == moves_of(before).push(event_move(after.last())),
{
    assert(after =~= before.push(after.last()));
    lemma_moves_push(before, after.last());
}

fn evaluate_step<O: HierarchyDfsOracle>(
    macro_name: &str,
    event: &str,
    child_candidate_sets: &Vec<O::CandidateSet>,
    inherited_constraints: &O::Constraints,
    oracle: &mut O,
    state: &mut DfsState<O::Table, O::Constraints>,
) -> (r: Result<(O::Table, usize), DfsStop<O::EvaluationFailure, O::ConditionFailure, O::CandidateFailure>>)
    ensures
        final(state).visiting@ == old(state).visiting@,
        final(state).results@ == old(state).results@,
        match r {
            Ok((table, _)) => {
                &&& moves_of(final(state).events@) == moves_of(old(state).events@).push(
                    DfsMove::Evaluate {
                        macro_name: macro_name@,
                        event: event@,
                        candidate_sets: child_candidate_sets@.len(),
                    },
                )
                &&& final(state).events@ == old(state).events@.push(final(state).events@.last())
                &&& is_final_of(final(state).events@.last(), macro_name@) == (event@ == "final"@)
                &&& (forall|n: Seq<char>| n != macro_name@ ==> !is_final_of(final(state).events@.last(), n))
                &&& final(state).events@.last() is Evaluate
                &&& is_evaluation_of(final(state).events@.last(), macro_name@)
                &&& (forall|n: Seq<char>| n != macro_name@ ==> !is_evaluation_of(final(state).events@.last(), n))
                &&& final(state).tables@ == old(state).tables@.push(Some(table))
                &&& final(state).constraints@ == old(state).constraints@.push(
                    Some(*inherited_constraints),
                )
            },
            Err(e) => oracle_failed(e),
        },
{
    let reply = oracle.evaluate(macro_name, event, child_candidate_sets, inherited_constraints);
    let r = record_evaluation(
        &mut state.events,
        macro_name,
        event,
        child_candidate_sets.len(),
        reply,
    );
    match r {
        Ok((table, rows)) => {
            proof {
                lemma_moves_last(old(state).events@, state.events@);
                assert(state.events@ =~= old(state).events@.push(state.events@.last()));
                state.tables@ = state.tables@.push(Some(table));
                state.constraints@ = state.constraints@.push(Some(*inherited_constraints));
            }
            Ok((table, rows))
        },
        Err(e) => Err(e),
    }
}

fn after_child_name(instance: &str) -> (r: String)
    ensures
        r@ == after_child_event(instance@),
{
    let mut r = string_from("after_child_");
    let tail = sanitize_hierarchy_event_name(instance);
    push_str(&mut r, tail.as_str());
    proof {
        reveal_strlit("after_child_");
    }
    r
}

/// The moves of `children_walk` from the `k`-th child, for the loop below.
spec fn rest_walk(
    nodes: Seq<DfsNodeView>,
    m: Seq<char>,
    idx: int,
    path: Seq<Seq<char>>,
    level: nat,
    k: nat,
    fuel: nat,
) -> (Seq<DfsMove>, Option<DfsFailure>) {
    children_walk(nodes, m, nodes[idx].children, path, level, k, fuel)
}

proof fn lemma_visit_fails_in_children(
    nodes: Seq<DfsNodeView>,
    m: Seq<char>,
    path: Seq<Seq<char>>,
    level: nat,
    fuel: nat,
    idx: int,
    f: DfsFailure,
)
    requires
        !path.contains(m),
        node_index(nodes, m) == Some(idx),
        fuel >= 1,
        rest_walk(nodes, m, idx, path.push(m), level, 0, (fuel - 1) as nat).1 == Some(f),
    ensures
        visit_walk(nodes, m, path, level, fuel).1 == Some(f),
{
}

#[verifier::rlimit(30)]
fn visit<O: HierarchyDfsOracle>(
    shape: &HierarchyDfsShape,
    macro_name: &str,
    inherited: O::Constraints,
    pre_build_constraints: usize,
    filters: usize,
    oracle: &mut O,
    state: &mut DfsState<O::Table, O::Constraints>,
    Ghost(fuel): Ghost<nat>,
) -> (r: Result<usize, DfsStop<O::EvaluationFailure, O::ConditionFailure, O::CandidateFailure>>)
    requires
        node_names(shape.node_views()).no_duplicates(),
        old(state).tables@.len() == old(state).events@.len(),
        result_names(old(state).results@).no_duplicates(),
        results_are_final_tables(old(state).results@, old(state).events@, old(state).tables@),
        descents_use_latest(old(state).events@, old(state).tables@),
        refreshes_use_child_tables(old(state).events@, old(state).tables@),
        old(state).constraints@.len() == old(state).events@.len(),
        evaluations_use_inherited(old(state).events@, old(state).constraints@),
        children_enter_with_resolved(old(state).events@, old(state).constraints@),
        old(state).events@.len() > 0 && old(state).events@.last() is Descend
            ==> old(state).constraints@.last() == Some(inherited),
        texts(old(state).visiting@).no_duplicates(),
        forall|j: int|
            0 <= j < old(state).visiting@.len() ==> node_index(
                shape.node_views(),
                #[trigger] texts(old(state).visiting@)[j],
            ) is Some,
        fuel + old(state).visiting@.len() >= shape.node_views().len(),
    ensures
        outcome_follows(
            r,
            visit_walk(
                shape.node_views(),
                macro_name@,
                texts(old(state).visiting@),
                old(state).visiting@.len() as nat,
                fuel,
            ),
            old(state).events@,
            final(state).events@,
        ),
        r is Ok ==> texts(final(state).visiting@) == texts(old(state).visiting@),
        r is Ok ==> result_names(final(state).results@).contains(macro_name@),
        r is Ok ==> final(state).tables@.len() == final(state).events@.len(),
        r is Ok ==> result_names(final(state).results@).no_duplicates(),
        r is Ok ==> results_are_final_tables(
            final(state).results@,
            final(state).events@,
            final(state).tables@,
        ),
        r matches Ok(k) ==> k < final(state).results@.len() && final(state).results@[k as int].0@
            == macro_name@,
        r is Ok ==> descents_use_latest(final(state).events@, final(state).tables@),
        r is Ok ==> refreshes_use_child_tables(final(state).events@, final(state).tables@),
        r is Ok ==> final(state).constraints@.len() == final(state).events@.len(),
        r is Ok ==> evaluations_use_inherited(final(state).events@, final(state).constraints@),
        r is Ok ==> children_enter_with_resolved(final(state).events@, final(state).constraints@),
        r is Ok ==> forall|n: Seq<char>|
            texts(old(state).visiting@).contains(n) ==> entered_with(
                final(state).events@,
                final(state).constraints@,
                n,
            ) == entered_with(old(state).events@, old(state).constraints@, n),
        r is Ok ==> forall|p: Seq<char>, x: Seq<char>|
            texts(old(state).visiting@).contains(p) ==> descended_child(final(state).events@, p, x)
                == descended_child(old(state).events@, p, x),
        r is Ok ==> forall|n: Seq<char>|
            texts(old(state).visiting@).contains(n) ==> latest_table_of(
                final(state).events@,
                final(state).tables@,
                n,
            ) == latest_table_of(old(state).events@, old(state).tables@, n),
        r is Ok ==> entered_among(
            visit_walk(
                shape.node_views(),
                macro_name@,
                texts(old(state).visiting@),
                old(state).visiting@.len() as nat,
                fuel,
            ).0,
            result_names(final(state).results@),
        ),
        r is Ok ==> forall|n: Seq<char>|
            result_names(old(state).results@).contains(n) ==> result_names(
                final(state).results@,
            ).contains(n),
    decreases fuel,
{
    let ghost nodes = shape.node_views();
    let ghost path0 = texts(state.visiting@);
    let ghost events0 = state.events@;
    let ghost tables0 = state.tables@;
    let ghost cons0 = state.constraints@;
    let ghost results0 = result_names(state.results@);
    let ghost m = macro_name@;
    let level = state.visiting.len();
    if contains_name(&state.visiting, macro_name) {
        return Err(DfsStop::Cycle { macro_name: string_from(macro_name) });
    }
    let idx = match find_node(shape, macro_name) {
        Some(i) => i,
        None => {
            return Err(DfsStop::MissingNode { macro_name: string_from(macro_name) });
        },
    };
    proof {
        let p = path0.push(m);
        assert forall|j: int| 0 <= j < p.len() implies node_index(nodes, #[trigger] p[j]) is Some by {
            if j < path0.len() {
                assert(p[j] == path0[j]);
            }
        }
        lemma_path_bound(nodes, p);
    }
    state.visiting.push(string_from(macro_name));
    proof {
        assert(texts(state.visiting@) =~= path0.push(m));
    }
    let enter = HierarchyDfsEvent::Enter {
        macro_name: string_from(macro_name),
        level,
        pre_build_constraints,
        filters,
    };
    proof {
        lemma_moves_push(state.events@, enter);
        lemma_results_keep(state.results@, state.events@, state.tables@, enter, None);
        lemma_push_keeps(state.events@, state.tables@, enter, None, path0);
        lemma_constraints_push(state.events@, state.constraints@, enter, Some(inherited), m, path0);
        state.tables@ = state.tables@.push(None);
        state.constraints@ = state.constraints@.push(Some(inherited));
    }
    state.events.push(enter);
    let ghost events_entered = state.events@;
    let ghost cons_entered = state.constraints@;
    let mut child_sets: Vec<O::CandidateSet> = Vec::new();
    let (mut current, _) = match evaluate_step(
        macro_name,
        "initial",
        &child_sets,
        &inherited,
        oracle,
        state,
    ) {
        Ok(t) => t,
        Err(e) => {
            return Err(e);
        },
    };
    proof {
        reveal_strlit("initial");
        reveal_strlit("final");
        assert("initial"@.len() == 7);
        assert("final"@.len() == 5);
        assert("initial"@ != "final"@);
        lemma_results_keep(
            state.results@,
            old(state).events@.push(enter),
            old(state).tables@.push(None),
            state.events@.last(),
            Some(current),
        );
        assert(state.events@ =~= old(state).events@.push(enter).push(state.events@.last()));
        lemma_push_keeps(
            old(state).events@.push(enter),
            old(state).tables@.push(None),
            state.events@.last(),
            Some(current),
            path0,
        );
        lemma_latest_push(
            old(state).events@.push(enter),
            old(state).tables@.push(None),
            state.events@.last(),
            Some(current),
            m,
        );
        lemma_constraints_push(
            events_entered,
            cons_entered,
            state.events@.last(),
            Some(inherited),
            m,
            path0,
        );
    }
    let ghost head = seq![
        DfsMove::Enter { macro_name: m, level: level as nat },
        DfsMove::Evaluate { macro_name: m, event: "initial"@, candidate_sets: 0 },
    ];
    let ghost inner_fuel = (fuel - 1) as nat;
    let ghost path1 = path0.push(m);
    let ghost mut acc: Seq<DfsMove> = seq![];
    proof {
        assert(moves_of(state.events@) =~= moves_of(events0) + head);
        let w0 = rest_walk(nodes, m, idx as int, path1, level as nat, 0, inner_fuel);
        assert(acc + w0.0 =~= w0.0);
    }
    let n_children = shape.nodes[idx].children.len();
    let mut k: usize = 0;
    while k < n_children
        invariant
            nodes == shape.node_views(),
            node_names(nodes).no_duplicates(),
            idx < nodes.len(),
            nodes[idx as int].name == m,
            node_index(nodes, m) == Some(idx as int),
            !path0.contains(m),
            n_children == nodes[idx as int].children.len(),
            n_children == shape.nodes@[idx as int].children@.len(),
            k <= n_children,
            child_sets@.len() == k,
            fuel >= 1,
            inner_fuel == fuel - 1,
            level == path0.len(),
            path0 == texts(old(state).visiting@),
            m == macro_name@,
            path1 == path0.push(m),
            path1.no_duplicates(),
            forall|j: int| 0 <= j < path1.len() ==> node_index(nodes, #[trigger] path1[j]) is Some,
            inner_fuel + path1.len() >= nodes.len(),
            texts(state.visiting@) == path1,
            moves_of(state.events@) == moves_of(events0) + head + acc,
            rest_walk(nodes, m, idx as int, path1, level as nat, 0, inner_fuel) == (
                acc + rest_walk(nodes, m, idx as int, path1, level as nat, k as nat, inner_fuel).0,
                rest_walk(nodes, m, idx as int, path1, level as nat, k as nat, inner_fuel).1,
            ),
            forall|n: Seq<char>| results0.contains(n) ==> result_names(state.results@).contains(n),
            entered_among(acc, result_names(state.results@)),
            state.tables@.len() == state.events@.len(),
            result_names(state.results@).no_duplicates(),
            results_are_final_tables(state.results@, state.events@, state.tables@),
            descents_use_latest(state.events@, state.tables@),
            latest_table_of(state.events@, state.tables@, m) == Some(current),
            tables0 == old(state).tables@,
            events0 == old(state).events@,
            forall|n: Seq<char>|
                path0.contains(n) ==> latest_table_of(state.events@, state.tables@, n)
                    == latest_table_of(events0, tables0, n),
            refreshes_use_child_tables(state.events@, state.tables@),
            forall|p: Seq<char>, x: Seq<char>|
                path0.contains(p) ==> descended_child(state.events@, p, x) == descended_child(
                    events0,
                    p,
                    x,
                ),
            cons0 == old(state).constraints@,
            state.constraints@.len() == state.events@.len(),
            evaluations_use_inherited(state.events@, state.constraints@),
            children_enter_with_resolved(state.events@, state.constraints@),
            entered_with(state.events@, state.constraints@, m) == Some(inherited),
            forall|n: Seq<char>|
                path0.contains(n) ==> entered_with(state.events@, state.constraints@, n)
                    == entered_with(events0, cons0, n),
        decreases n_children - k,
    {
        let ghost children = nodes[idx as int].children;
        proof {
            assert(children[k as int] == (
                shape.nodes@[idx as int].children@[k as int].instance_name@,
                shape.nodes@[idx as int].children@[k as int].macro_name@,
            ));
        }
        let inst = string_from(shape.nodes[idx].children[k].instance_name.as_str());
        let cm = string_from(shape.nodes[idx].children[k].macro_name.as_str());
        let ghost wk = rest_walk(nodes, m, idx as int, path1, level as nat, k as nat, inner_fuel);
        let ghost wn = rest_walk(
            nodes,
            m,
            idx as int,
            path1,
            level as nat,
            (k + 1) as nat,
            inner_fuel,
        );
        let ghost sub = visit_walk(nodes, cm@, path1, (level + 1) as nat, inner_fuel);
        if find_node(shape, cm.as_str()).is_none() {
            proof {
                assert(wk.1 == Some(DfsFailure::MissingNode(cm@)));
                lemma_visit_fails_in_children(
                    nodes,
                    m,
                    path0,
                    level as nat,
                    fuel,
                    idx as int,
                    DfsFailure::MissingNode(cm@),
                );
            }
            return Err(DfsStop::MissingNode { macro_name: cm });
        }
        let ghost events_before = state.events@;
        let ghost tables_before = state.tables@;
        let ghost cons_before = state.constraints@;
        let (constraints, pre, filt) = match descend_step(
            macro_name,
            inst.as_str(),
            cm.as_str(),
            level,
            &current,
            oracle,
            state,
        ) {
            Ok(t) => t,
            Err(e) => {
                return Err(e);
            },
        };
        proof {
            lemma_moves_last(events_before, state.events@);
            assert(state.events@ =~= events_before.push(state.events@.last()));
            lemma_results_keep(
                state.results@,
                events_before,
                tables_before,
                state.events@.last(),
                Some(current),
            );
            lemma_push_keeps(events_before, tables_before, state.events@.last(), Some(current), path0);
            lemma_latest_push(events_before, tables_before, state.events@.last(), Some(current), m);
            lemma_descended_push(events_before, state.events@.last(), m, inst@);
            lemma_constraints_push(
                events_before,
                cons_before,
                state.events@.last(),
                Some(constraints),
                m,
                path0,
            );
            assert forall|n: Seq<char>| path0.contains(n) implies path1.contains(n) by {
                let q = choose|q: int| 0 <= q < path0.len() && path0[q] == n;
                assert(path1[q] == n);
            }
            assert(path1[path0.len() as int] == m);
        }
        let ghost names_before_child = result_names(state.results@);
        let child_index = match visit(
            shape,
            cm.as_str(),
            constraints,
            pre,
            filt,
            oracle,
            state,
            Ghost(inner_fuel),
        ) {
            Ok(t) => t,
            Err(e) => {
                proof {
                    if !oracle_failed(e) {
                        assert(sub.1 == failure_of(e));
                        assert(wk.1 == sub.1);
                        lemma_visit_fails_in_children(
                            nodes,
                            m,
                            path0,
                            level as nat,
                            fuel,
                            idx as int,
                            sub.1.unwrap(),
                        );
                    }
                }
                return Err(e);
            },
        };
        let ghost child_table = state.results@[child_index as int].1;
        proof {
            assert(path1.contains(m));
            assert(entered_with(state.events@, state.constraints@, m) == Some(inherited));
            assert(descended_child(state.events@, m, inst@) == Some(cm@));
            assert(final_table_of(state.events@, state.tables@, cm@) == Some(child_table));
        }
        let set = match oracle.collect_child(
            inst.as_str(),
            cm.as_str(),
            &state.results[child_index].1,
        ) {
            Ok(c) => c,
            Err(e) => {
                return Err(DfsStop::Candidate(e));
            },
        };
        child_sets.push(set);
        let event = after_child_name(inst.as_str());
        let ghost ev_b = state.events@;
        let ghost tb_b = state.tables@;
        let ghost cs_b = state.constraints@;
        let (table, rows) = match evaluate_step(
            macro_name,
            event.as_str(),
            &child_sets,
            &inherited,
            oracle,
            state,
        ) {
            Ok(t) => t,
            Err(e) => {
                return Err(e);
            },
        };
        proof {
            reveal_strlit("after_child_");
            reveal_strlit("final");
            assert(after_child_event(inst@).len() >= 12);
            assert(event@ != "final"@);
            lemma_results_keep(state.results@, ev_b, tb_b, state.events@.last(), Some(table));
            lemma_push_keeps(ev_b, tb_b, state.events@.last(), Some(table), path0);
            lemma_latest_push(ev_b, tb_b, state.events@.last(), Some(table), m);
            lemma_final_table_push(ev_b, tb_b, state.events@.last(), Some(table), cm@);
            lemma_descended_push(ev_b, state.events@.last(), m, inst@);
            lemma_constraints_push(ev_b, cs_b, state.events@.last(), Some(inherited), m, path0);
        }
        current = table;
        let refresh = HierarchyDfsEvent::RefreshParent {
            macro_name: string_from(macro_name),
            instance_name: string_from(inst.as_str()),
            rows,
        };
        proof {
            lemma_moves_push(state.events@, refresh);
            lemma_results_keep(state.results@, state.events@, state.tables@, refresh, Some(child_table));
            lemma_push_keeps(state.events@, state.tables@, refresh, Some(child_table), path0);
            lemma_latest_push(state.events@, state.tables@, refresh, Some(child_table), m);
            lemma_constraints_push(state.events@, state.constraints@, refresh, None, m, path0);
            state.tables@ = state.tables@.push(Some(child_table));
            state.constraints@ = state.constraints@.push(None);
        }
        state.events.push(refresh);
        proof {
            let here = seq![
                DfsMove::Descend {
                    parent_macro: m,
                    instance_name: inst@,
                    child_macro: cm@,
                    level: level as nat,
                },
            ] + sub.0 + seq![
                DfsMove::Evaluate {
                    macro_name: m,
                    event: after_child_event(inst@),
                    candidate_sets: (k + 1) as nat,
                },
                DfsMove::RefreshParent { macro_name: m, instance_name: inst@ },
            ];
            assert(wk == (here + wn.0, wn.1));
            assert(moves_of(state.events@) =~= moves_of(events0) + head + (acc + here));
            assert(acc + wk.0 =~= (acc + here) + wn.0);
            let names_now = result_names(state.results@);
            assert forall|j: int| 0 <= j < (acc + here).len() implies (#[trigger] (acc + here)[j] matches DfsMove::Enter { macro_name, .. }
                ==> names_now.contains(macro_name)) by {
                if j < acc.len() {
                    assert((acc + here)[j] == acc[j]);
                    if let DfsMove::Enter { macro_name, .. } = acc[j] {
                        assert(names_before_child.contains(macro_name));
                    }
                } else if j > acc.len() && j < acc.len() + 1 + sub.0.len() {
                    assert((acc + here)[j] == sub.0[j - acc.len() - 1]);
                }
            }
            acc = acc + here;
        }
        k = k + 1;
    }
    let ghost ev_f = state.events@;
    let ghost tb_f = state.tables@;
    let ghost cs_f = state.constraints@;
    let ghost res_f = state.results@;
    let (final_table, rows) = match evaluate_step(
        macro_name,
        "final",
        &child_sets,
        &inherited,
        oracle,
        state,
    ) {
        Ok(t) => t,
        Err(e) => {
            return Err(e);
        },
    };
    let leave = HierarchyDfsEvent::Leave { macro_name: string_from(macro_name), level, rows };
    proof {
        lemma_moves_push(state.events@, leave);
        lemma_push_keeps(ev_f, tb_f, state.events@.last(), Some(final_table), path0);
        assert(state.events@ =~= ev_f.push(state.events@.last()));
        lemma_push_keeps(state.events@, state.tables@, leave, None, path0);
        lemma_constraints_push(ev_f, cs_f, state.events@.last(), Some(inherited), m, path0);
        lemma_constraints_push(state.events@, state.constraints@, leave, None, m, path0);
        state.tables@ = state.tables@.push(None);
        state.constraints@ = state.constraints@.push(None);
    }
    state.events.push(leave);
    let ghost names_before_insert = result_names(state.results@);
    let k = insert_result(&mut state.results, macro_name, final_table);
    proof {
        reveal_strlit("final");
        let ef = state.events@[ev_f.len() as int];
        assert(state.events@ =~= ev_f.push(ef).push(leave));
        assert(state.tables@ =~= tb_f.push(Some(final_table)).push(None));
        assert forall|i: int| 0 <= i < state.results@.len() implies final_table_of(
            state.events@,
            state.tables@,
            (#[trigger] state.results@[i]).0@,
        ) == Some(state.results@[i].1) by {
            let n = state.results@[i].0@;
            lemma_final_table_push(ev_f, tb_f, ef, Some(final_table), n);
            lemma_final_table_push(ev_f.push(ef), tb_f.push(Some(final_table)), leave, None, n);
            if n != m {
                assert(state.results@[i] == res_f[i]);
                assert(res_f[i].0@ == n);
            }
        }
    }
    let ghost before_pop = state.visiting@;
    state.visiting.pop();
    proof {
        assert(state.visiting@ =~= before_pop.drop_last());
        assert(texts(state.visiting@) =~= texts(before_pop).drop_last());
        assert(path1.drop_last() =~= path0);
        let w = visit_walk(nodes, m, path0, level as nat, fuel);
        assert(acc + seq![] =~= acc);
        assert(moves_of(state.events@) =~= moves_of(events0) + w.0);
        let names_now = result_names(state.results@);
        assert forall|j: int| 0 <= j < w.0.len() implies (#[trigger] w.0[j] matches DfsMove::Enter { macro_name, .. }
            ==> names_now.contains(macro_name)) by {
            if 2 <= j < 2 + acc.len() {
                assert(w.0[j] == acc[j - 2]);
                if let DfsMove::Enter { macro_name, .. } = acc[j - 2] {
                    assert(names_before_insert.contains(macro_name));
                }
            }
        }
    }
    Ok(k)
}

/// Explores the hierarchy depth first from its top macro. Each macro is
/// entered, evaluated at `initial`, then for each child in order: the
/// child's conditions are resolved from the parent's table, the child is
/// explored, its results become a candidate set, and the parent is
/// evaluated again at `after_child_{instance}` with the candidate sets so
/// far; finally the macro is evaluated at `final` and left. A macro reached
/// again below itself is a cycle; a child with no node is missing. The
/// events are those steps in order, with the numbers the oracle reports;
/// every macro entered has an entry among the results, the table of its
/// last evaluation at `final`. Every evaluation of a macro is handed the
/// conditions it was entered with, and a child is entered with the
/// conditions resolved for it; a child's candidates are taken from its
/// table at `final`.
pub fn run_hierarchical_dfs<O: HierarchyDfsOracle>(shape: &HierarchyDfsShape, oracle: &mut O) -> (r:
    Result<HierarchyDfsOutcome<O::Table, O::Constraints>, DfsStop<O::EvaluationFailure, O::ConditionFailure, O::CandidateFailure>>)
    ensures
        match r {
            Ok(run) => {
                &&& dfs_walk(shape.top(), shape.node_views()).1 is None
                &&& moves_of(run.events@) == dfs_walk(shape.top(), shape.node_views()).0
                &&& run.tables@.len() == run.events@.len()
                &&& run.top < run.results_by_macro@.len()
                &&& run.results_by_macro@[run.top as int].0@ == shape.top()
                &&& result_names(run.results_by_macro@).no_duplicates()
                &&& results_are_final_tables(run.results_by_macro@, run.events@, run.tables@)
                &&& descents_use_latest(run.events@, run.tables@)
                &&& refreshes_use_child_tables(run.events@, run.tables@)
                &&& run.constraints@.len() == run.events@.len()
                &&& evaluations_use_inherited(run.events@, run.constraints@)
                &&& children_enter_with_resolved(run.events@, run.constraints@)
                &&& entered_among(
                    dfs_walk(shape.top(), shape.node_views()).0,
                    result_names(run.results_by_macro@),
                )
            },
            Err(e) => {
                &&& dfs_walk(shape.top(), shape.node_views()).1 is Some ==> (oracle_failed(e)
                    || dfs_walk(shape.top(), shape.node_views()).1 == failure_of(e))
                &&& dfs_walk(shape.top(), shape.node_views()).1 is None ==> oracle_failed(e)
                &&& failure_of(e) is Some ==> dfs_walk(shape.top(), shape.node_views()).1
                    == failure_of(e)
            },
        },
{
    proof {
        use_type_invariant(shape);
    }
    let mut state: DfsState<O::Table, O::Constraints> = DfsState {
        events: Vec::new(),
        tables: Ghost(Seq::empty()),
        constraints: Ghost(Seq::empty()),
        results: Vec::new(),
        visiting: Vec::new(),
    };
    proof {
        reveal(evaluations_use_inherited);
        reveal(children_enter_with_resolved);
        assert(texts(state.visiting@) =~= Seq::<Seq<char>>::empty());
        assert(moves_of(state.events@) =~= Seq::<DfsMove>::empty());
        assert(result_names(state.results@) =~= Seq::<Seq<char>>::empty());
    }
    let inherited = oracle.unconstrained();
    match visit(
        shape,
        shape.top_macro.as_str(),
        inherited,
        0,
        0,
        oracle,
        &mut state,
        Ghost(shape.node_views().len()),
    ) {
        Ok(top) => {
            proof {
                assert(moves_of(state.events@) =~= dfs_walk(shape.top(), shape.node_views()).0);
            }
            Ok(
                HierarchyDfsOutcome {
                    results_by_macro: state.results,
                    top,
                    events: state.events,
                    tables: state.tables,
                    constraints: state.constraints,
                },
            )
        },
        Err(e) => Err(e),
    }
}

/// Whether the node that explores `parent` has an instance of `child`.
pub open spec fn child_link(nodes: Seq<DfsNodeView>, parent: Seq<char>, child: Seq<char>) -> bool {
    exists|i: int, j: int|
        0 <= i < nodes.len() && nodes[i].name == parent && 0 <= j < nodes[i].children.len()
            && (#[trigger] nodes[i].children[j]).1 == child
}

/// Whether `p` goes from `top` down child links, one macro at a time.
pub open spec fn is_chain(nodes: Seq<DfsNodeView>, top: Seq<char>, p: Seq<Seq<char>>) -> bool {
    &&& p.len() > 0
    &&& p[0] == top
    &&& forall|k: int| 0 <= k < p.len() - 1 ==> child_link(nodes, #[trigger] p[k], p[k + 1])
}

/// Whether a failure is one the hierarchy has: a cycle is a chain from the
/// top that reaches a macro already on it; a missing node is a macro that
/// a chain from the top reaches and no node explores.
pub open spec fn failure_is_genuine(nodes: Seq<DfsNodeView>, top: Seq<char>, f: DfsFailure) -> bool {
    match f {
        DfsFailure::Cycle(x) => exists|p: Seq<Seq<char>>|
            #[trigger] is_chain(nodes, top, p) && p.last() == x && p.drop_last().contains(x),
        DfsFailure::MissingNode(x) => node_index(nodes, x) is None && exists|p: Seq<Seq<char>>|
            #[trigger] is_chain(nodes, top, p) && p.last() == x,
    }
}

proof fn lemma_chain_extends(nodes: Seq<DfsNodeView>, top: Seq<char>, p: Seq<Seq<char>>, i: int, j: int)
    requires
        is_chain(nodes, top, p),
        0 <= i < nodes.len(),
        nodes[i].name == p.last(),
        0 <= j < nodes[i].children.len(),
    ensures
        is_chain(nodes, top, p.push(nodes[i].children[j].1)),
{
    let q = p.push(nodes[i].children[j].1);
    assert forall|k: int| 0 <= k < q.len() - 1 implies child_link(nodes, #[trigger] q[k], q[k + 1]) by {
        if k < p.len() - 1 {
            assert(q[k] == p[k] && q[k + 1] == p[k + 1]);
        } else {
            assert(q[k] == nodes[i].name);
            assert(q[k + 1] == nodes[i].children[j].1);
        }
    }
}

proof fn lemma_visit_failure_genuine(
    nodes: Seq<DfsNodeView>,
    top: Seq<char>,
    m: Seq<char>,
    path: Seq<Seq<char>>,
    level: nat,
    fuel: nat,
)
    requires
        is_chain(nodes, top, path.push(m)),
    ensures
        visit_walk(nodes, m, path, level, fuel).1 matches Some(f) ==> failure_is_genuine(
            nodes,
            top,
            f,
        ),
    decreases fuel, 1nat, 0nat,
{
    let p = path.push(m);
    if path.contains(m) {
        assert(p.drop_last() =~= path);
        assert(is_chain(nodes, top, p) && p.last() == m && p.drop_last().contains(m));
    } else {
        match node_index(nodes, m) {
            None => {
                assert(is_chain(nodes, top, p) && p.last() == m);
            },
            Some(i) => {
                if fuel > 0 {
                    lemma_children_failure_genuine(
                        nodes,
                        top,
                        m,
                        i,
                        p,
                        level,
                        0,
                        (fuel - 1) as nat,
                    );
                }
            },
        }
    }
}

proof fn lemma_children_failure_genuine(
    nodes: Seq<DfsNodeView>,
    top: Seq<char>,
    m: Seq<char>,
    i: int,
    path: Seq<Seq<char>>,
    level: nat,
    k: nat,
    fuel: nat,
)
    requires
        is_chain(nodes, top, path),
        path.last() == m,
        node_index(nodes, m) == Some(i),
    ensures
        children_walk(nodes, m, nodes[i].children, path, level, k, fuel).1 matches Some(f)
            ==> failure_is_genuine(nodes, top, f),
    decreases fuel, 2nat, nodes[i].children.len() - k,
{
    let children = nodes[i].children;
    assert(0 <= i < nodes.len() && nodes[i].name == m);
    if k < children.len() {
        let cm = children[k as int].1;
        lemma_chain_extends(nodes, top, path, i, k as int);
        let q = path.push(cm);
        if node_index(nodes, cm) is None {
            assert(is_chain(nodes, top, q) && q.last() == cm);
        } else {
            lemma_visit_failure_genuine(nodes, top, cm, path, level + 1, fuel);
            let sub = visit_walk(nodes, cm, path, level + 1, fuel);
            if sub.1 is None {
                lemma_children_failure_genuine(nodes, top, m, i, path, level, k + 1, fuel);
            }
        }
    }
}

/// An exploration stops on the hierarchy itself only for a real defect: a
/// reported cycle is a chain of child links from the top that comes back
/// to a macro on it, and a reported missing node is a macro that the top
/// reaches and no node explores.
pub proof fn law_dfs_failures_are_genuine(top: Seq<char>, nodes: Seq<DfsNodeView>)
    ensures
        dfs_walk(top, nodes).1 matches Some(f) ==> failure_is_genuine(nodes, top, f),
{
    assert(seq![top] =~= Seq::<Seq<char>>::empty().push(top));
    assert(is_chain(nodes, top, seq![top]));
    lemma_visit_failure_genuine(nodes, top, top, seq![], 0, nodes.len());
}

/// Whether every macro reachable from the top down child links has a node.
pub open spec fn hierarchy_complete(nodes: Seq<DfsNodeView>, top: Seq<char>) -> bool {
    forall|p: Seq<Seq<char>>| #[trigger] is_chain(nodes, top, p) ==> node_index(nodes, p.last()) is Some
}

/// Whether no chain of child links from the top comes back to a macro on it.
pub open spec fn hierarchy_acyclic(nodes: Seq<DfsNodeView>, top: Seq<char>) -> bool {
    forall|p: Seq<Seq<char>>|
        #[trigger] is_chain(nodes, top, p) ==> !p.drop_last().contains(p.last())
}

/// A hierarchy whose every reachable macro has a node and that has no
/// cycle below its top is explored without a failure of its own.
pub proof fn law_dfs_succeeds_on_sound_hierarchies(top: Seq<char>, nodes: Seq<DfsNodeView>)
    requires
        hierarchy_complete(nodes, top),
        hierarchy_acyclic(nodes, top),
    ensures
        dfs_walk(top, nodes).1 is None,
{
    law_dfs_failures_are_genuine(top, nodes);
    if dfs_walk(top, nodes).1 is Some {
        let f = dfs_walk(top, nodes).1.unwrap();
        match f {
            DfsFailure::Cycle(x) => {
                let p = choose|p: Seq<Seq<char>>|
                    #[trigger] is_chain(nodes, top, p) && p.last() == x && p.drop_last().contains(x);
                assert(!p.drop_last().contains(p.last()));
            },
            DfsFailure::MissingNode(x) => {
                let p = choose|p: Seq<Seq<char>>| #[trigger] is_chain(nodes, top, p) && p.last() == x;
                assert(node_index(nodes, p.last()) is Some);
            },
        }
    }
}

/// The evaluations of `m` among steps, in order: each as its event and its
/// number of candidate sets.
pub open spec fn evaluations_of(moves: Seq<DfsMove>, m: Seq<char>) -> Seq<(Seq<char>, nat)>
    decreases moves.len(),
{
    if moves.len() == 0 {
        seq![]
    } else {
        let prev = evaluations_of(moves.drop_last(), m);
        match moves.last() {
            DfsMove::Evaluate { macro_name, event, candidate_sets } => if macro_name == m {
                prev.push((event, candidate_sets))
            } else {
                prev
            },
            _ => prev,
        }
    }
}

/// The evaluations a macro with `children` owes: at `initial` with no
/// candidate set, after each child in order with one set per child done,
/// and at `final` with all of them.
pub open spec fn evaluation_plan(children: Seq<(Seq<char>, Seq<char>)>) -> Seq<(Seq<char>, nat)> {
    seq![("initial"@, 0nat)] + Seq::new(
        children.len(),
        |k: int| (after_child_event(children[k].0), (k + 1) as nat),
    ) + seq![("final"@, children.len())]
}

spec fn move_evaluations(e: DfsMove, m: Seq<char>) -> Seq<(Seq<char>, nat)> {
    match e {
        DfsMove::Evaluate { macro_name, event, candidate_sets } => if macro_name == m {
            seq![(event, candidate_sets)]
        } else {
            seq![]
        },
        _ => seq![],
    }
}

proof fn lemma_evaluations_pair(a: DfsMove, b: DfsMove, m: Seq<char>)
    ensures
        evaluations_of(seq![a], m) == move_evaluations(a, m),
        evaluations_of(seq![a, b], m) == move_evaluations(a, m) + move_evaluations(b, m),
{
    reveal_with_fuel(evaluations_of, 3);
    assert(seq![a].drop_last() =~= Seq::<DfsMove>::empty());
    assert(seq![a, b].drop_last() =~= seq![a]);
    assert(move_evaluations(a, m) + move_evaluations(b, m) =~= match b {
        DfsMove::Evaluate { macro_name, event, candidate_sets } => if macro_name == m {
            move_evaluations(a, m).push((event, candidate_sets))
        } else {
            move_evaluations(a, m)
        },
        _ => move_evaluations(a, m),
    });
}

proof fn lemma_evaluations_concat(a: Seq<DfsMove>, b: Seq<DfsMove>, m: Seq<char>)
    ensures
        evaluations_of(a + b, m) == evaluations_of(a, m) + evaluations_of(b, m),
    decreases b.len(),
{
    if b.len() == 0 {
        assert(a + b =~= a);
        assert(evaluations_of(a, m) + evaluations_of(b, m) =~= evaluations_of(a, m));
    } else {
        lemma_evaluations_concat(a, b.drop_last(), m);
        assert((a + b).drop_last() =~= a + b.drop_last());
        assert((a + b).last() == b.last());
        let ea = evaluations_of(a, m);
        let eb = evaluations_of(b.drop_last(), m);
        assert((ea + eb).push((b.last()->event, b.last()->candidate_sets)) =~= ea + eb.push(
            (b.last()->event, b.last()->candidate_sets),
        ));
    }
}

proof fn lemma_visit_no_evaluations(
    nodes: Seq<DfsNodeView>,
    x: Seq<char>,
    path: Seq<Seq<char>>,
    level: nat,
    fuel: nat,
    m: Seq<char>,
)
    requires
        path.contains(m),
        visit_walk(nodes, x, path, level, fuel).1 is None,
    ensures
        evaluations_of(visit_walk(nodes, x, path, level, fuel).0, m) == Seq::<(Seq<char>, nat)>::empty(),
    decreases fuel, 1nat, 0nat,
{
    if !path.contains(x) && node_index(nodes, x) is Some && fuel > 0 {
        let i = node_index(nodes, x)->Some_0;
        assert(x != m);
        let head = seq![
            DfsMove::Enter { macro_name: x, level },
            DfsMove::Evaluate { macro_name: x, event: "initial"@, candidate_sets: 0 },
        ];
        let inner = children_walk(nodes, x, nodes[i].children, path.push(x), level, 0, (fuel - 1) as nat);
        let tail = seq![
            DfsMove::Evaluate { macro_name: x, event: "final"@, candidate_sets: nodes[i].children.len() },
            DfsMove::Leave { macro_name: x, level },
        ];
        assert(path.push(x).contains(m)) by {
            let q = choose|q: int| 0 <= q < path.len() && path[q] == m;
            assert(path.push(x)[q] == m);
        }
        lemma_children_no_evaluations(nodes, x, nodes[i].children, path.push(x), level, 0, (fuel - 1) as nat, m);
        lemma_evaluations_concat(head, inner.0, m);
        lemma_evaluations_concat(head + inner.0, tail, m);
        lemma_evaluations_pair(head[0], head[1], m);
        lemma_evaluations_pair(tail[0], tail[1], m);
        assert(head =~= seq![head[0], head[1]]);
        assert(tail =~= seq![tail[0], tail[1]]);
        assert(evaluations_of(head, m) =~= Seq::<(Seq<char>, nat)>::empty());
        assert(evaluations_of(tail, m) =~= Seq::<(Seq<char>, nat)>::empty());
        assert(visit_walk(nodes, x, path, level, fuel).0 == head + inner.0 + tail);
    }
}

proof fn lemma_children_no_evaluations(
    nodes: Seq<DfsNodeView>,
    x: Seq<char>,
    children: Seq<(Seq<char>, Seq<char>)>,
    path: Seq<Seq<char>>,
    level: nat,
    k: nat,
    fuel: nat,
    m: Seq<char>,
)
    requires
        path.contains(m),
        x != m,
        children_walk(nodes, x, children, path, level, k, fuel).1 is None,
    ensures
        evaluations_of(children_walk(nodes, x, children, path, level, k, fuel).0, m) == Seq::<
            (Seq<char>, nat),
        >::empty(),
    decreases fuel, 2nat, children.len() - k,
{
    if k < children.len() {
        let inst = children[k as int].0;
        let cm = children[k as int].1;
        let sub = visit_walk(nodes, cm, path, level + 1, fuel);
        lemma_visit_no_evaluations(nodes, cm, path, level + 1, fuel, m);
        lemma_children_no_evaluations(nodes, x, children, path, level, k + 1, fuel, m);
        let rest = children_walk(nodes, x, children, path, level, k + 1, fuel);
        let d = seq![DfsMove::Descend { parent_macro: x, instance_name: inst, child_macro: cm, level }];
        let mid = seq![
            DfsMove::Evaluate { macro_name: x, event: after_child_event(inst), candidate_sets: k + 1 },
            DfsMove::RefreshParent { macro_name: x, instance_name: inst },
        ];
        lemma_evaluations_concat(d, sub.0, m);
        lemma_evaluations_concat(d + sub.0, mid, m);
        lemma_evaluations_concat(d + sub.0 + mid, rest.0, m);
        lemma_evaluations_pair(d[0], mid[1], m);
        lemma_evaluations_pair(mid[0], mid[1], m);
        assert(d =~= seq![d[0]]);
        assert(mid =~= seq![mid[0], mid[1]]);
        assert(evaluations_of(d, m) =~= Seq::<(Seq<char>, nat)>::empty());
        assert(evaluations_of(mid, m) =~= Seq::<(Seq<char>, nat)>::empty());
    }
}

proof fn lemma_children_evaluations(
    nodes: Seq<DfsNodeView>,
    m: Seq<char>,
    children: Seq<(Seq<char>, Seq<char>)>,
    path: Seq<Seq<char>>,
    level: nat,
    k: nat,
    fuel: nat,
)
    requires
        path.contains(m),
        k <= children.len(),
        children_walk(nodes, m, children, path, level, k, fuel).1 is None,
    ensures
        evaluations_of(children_walk(nodes, m, children, path, level, k, fuel).0, m) == Seq::new(
            (children.len() - k) as nat,
            |j: int| (after_child_event(children[k + j].0), (k + j + 1) as nat),
        ),
    decreases children.len() - k,
{
    if k < children.len() {
        let inst = children[k as int].0;
        let cm = children[k as int].1;
        let sub = visit_walk(nodes, cm, path, level + 1, fuel);
        lemma_visit_no_evaluations(nodes, cm, path, level + 1, fuel, m);
        lemma_children_evaluations(nodes, m, children, path, level, k + 1, fuel);
        let rest = children_walk(nodes, m, children, path, level, k + 1, fuel);
        let d = seq![DfsMove::Descend { parent_macro: m, instance_name: inst, child_macro: cm, level }];
        let mid = seq![
            DfsMove::Evaluate { macro_name: m, event: after_child_event(inst), candidate_sets: k + 1 },
            DfsMove::RefreshParent { macro_name: m, instance_name: inst },
        ];
        lemma_evaluations_concat(d, sub.0, m);
        lemma_evaluations_concat(d + sub.0, mid, m);
        lemma_evaluations_concat(d + sub.0 + mid, rest.0, m);
        lemma_evaluations_pair(d[0], mid[1], m);
        lemma_evaluations_pair(mid[0], mid[1], m);
        assert(d =~= seq![d[0]]);
        assert(mid =~= seq![mid[0], mid[1]]);
        assert(evaluations_of(d, m) =~= Seq::<(Seq<char>, nat)>::empty());
        assert(evaluations_of(mid, m) =~= seq![(after_child_event(inst), (k + 1) as nat)]);
        assert(Seq::new(
            (children.len() - k) as nat,
            |j: int| (after_child_event(children[k + j].0), (k + j + 1) as nat),
        ) =~= seq![(after_child_event(inst), (k + 1) as nat)] + Seq::new(
            (children.len() - (k + 1)) as nat,
            |j: int| (after_child_event(children[k + 1 + j].0), (k + 1 + j + 1) as nat),
        ));
    } else {
        assert(Seq::new(
            (children.len() - k) as nat,
            |j: int| (after_child_event(children[k + j].0), (k + j + 1) as nat),
        ) =~= Seq::<(Seq<char>, nat)>::empty());
    }
}

/// Each macro explored is evaluated, in order, at `initial` with no
/// candidate set, after each of its children in turn with one candidate
/// set per child done, and at `final` with one per child; the evaluations
/// of the macros below it are of other macros.
pub proof fn law_visit_evaluation_order(
    nodes: Seq<DfsNodeView>,
    m: Seq<char>,
    path: Seq<Seq<char>>,
    level: nat,
    fuel: nat,
)
    requires
        fuel > 0,
        visit_walk(nodes, m, path, level, fuel).1 is None,
    ensures
        node_index(nodes, m) matches Some(i) && evaluations_of(
            visit_walk(nodes, m, path, level, fuel).0,
            m,
        ) == evaluation_plan(nodes[i].children),
{
    let i = node_index(nodes, m)->Some_0;
    let children = nodes[i].children;
    let head = seq![
        DfsMove::Enter { macro_name: m, level },
        DfsMove::Evaluate { macro_name: m, event: "initial"@, candidate_sets: 0 },
    ];
    let inner = children_walk(nodes, m, children, path.push(m), level, 0, (fuel - 1) as nat);
    let tail = seq![
        DfsMove::Evaluate { macro_name: m, event: "final"@, candidate_sets: children.len() },
        DfsMove::Leave { macro_name: m, level },
    ];
    assert(path.push(m)[path.len() as int] == m);
    lemma_children_evaluations(nodes, m, children, path.push(m), level, 0, (fuel - 1) as nat);
    lemma_evaluations_concat(head, inner.0, m);
    lemma_evaluations_concat(head + inner.0, tail, m);
    lemma_evaluations_pair(head[0], head[1], m);
    lemma_evaluations_pair(tail[0], tail[1], m);
    assert(head =~= seq![head[0], head[1]]);
    assert(tail =~= seq![tail[0], tail[1]]);
    assert(evaluations_of(head, m) =~= seq![("initial"@, 0nat)]);
    assert(evaluations_of(tail, m) =~= seq![("final"@, children.len())]);
    assert(Seq::new(
        (children.len() - 0) as nat,
        |j: int| (after_child_event(children[0 + j].0), (0 + j + 1) as nat),
    ) =~= Seq::new(children.len(), |k: int| (after_child_event(children[k].0), (k + 1) as nat)));
    assert(visit_walk(nodes, m, path, level, fuel).0 == head + inner.0 + tail);
}

/// A whole exploration evaluates its top macro at `initial`, after each
/// child in turn with one more candidate set each time, and at `final`.
pub proof fn law_dfs_evaluation_order(top: Seq<char>, nodes: Seq<DfsNodeView>)
    requires
        dfs_walk(top, nodes).1 is None,
    ensures
        node_index(nodes, top) matches Some(i) && evaluations_of(dfs_walk(top, nodes).0, top)
            == evaluation_plan(nodes[i].children),
{
    let i = node_index(nodes, top)->Some_0;
    assert(nodes[i].name == top);
    law_visit_evaluation_order(nodes, top, seq![], 0, nodes.len());
}

} // verus!

