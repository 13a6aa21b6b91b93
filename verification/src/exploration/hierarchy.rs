use vstd::prelude::*;
use crate::macro_model::validation::first_position;
use crate::netlist::names::sanitized;
use crate::exploration::candidate::{CandidateEvaluationError, CandidateSetBuildError};
use crate::text::{chars_of, push_str, replace_char_str, str_eq, string_from, texts, trim_str};

verus! {

/// A child macro of a node in the exploration hierarchy, by the instance
/// that places it.
#[derive(Debug, Clone, PartialEq, Eq)]
pub struct HierarchyDfsChild {
    pub instance_name: String,
    pub macro_name: String,
}

impl HierarchyDfsChild {
    pub fn new(instance_name: &str, macro_name: &str) -> (r: Self)
        ensures
            r.instance_name@ == instance_name@,
            r.macro_name@ == macro_name@,
    {
        HierarchyDfsChild { instance_name: string_from(instance_name), macro_name: string_from(macro_name) }
    }
}

/// A step of a depth-first exploration of the macro hierarchy.
#[derive(Debug, Clone, PartialEq, Eq)]
pub enum HierarchyDfsEvent {
    Enter { macro_name: String, level: usize, pre_build_constraints: usize, filters: usize },
    Evaluate { macro_name: String, event: String, candidate_sets: usize, rows: usize },
    Descend {
        parent_macro: String,
        instance_name: String,
        child_macro: String,
        level: usize,
        pre_build_constraints: usize,
        filters: usize,
    },
    RefreshParent { macro_name: String, instance_name: String, rows: usize },
    Leave { macro_name: String, level: usize, rows: usize },
}

/// A named output of an exploration and the column it is read from.
#[derive(Debug, Clone, PartialEq, Eq)]
pub struct ExplorationOutput {
    pub name: String,
    pub source_column: String,
}

impl ExplorationOutput {
    pub fn new(name: &str, source_column: &str) -> (r: Self)
        ensures
            r.name@ == name@,
            r.source_column@ == source_column@,
    {
        ExplorationOutput { name: string_from(name), source_column: string_from(source_column) }
    }
}

/// A variable a macro shows to its parent and the column it is read from.
#[derive(Debug, Clone, PartialEq, Eq)]
pub struct InterfaceVariable {
    pub name: String,
    pub source_column: String,
}

impl InterfaceVariable {
    pub fn new(name: &str, source_column: &str) -> (r: Self)
        ensures
            r.name@ == name@,
            r.source_column@ == source_column@,
    {
        InterfaceVariable { name: string_from(name), source_column: string_from(source_column) }
    }
}

/// A condition a parent places on a column of a sub-macro instance.
#[derive(Debug, Clone, PartialEq, Eq)]
pub struct SubmacroConditionRule {
    pub instance: String,
    pub target_column: String,
    pub source: SubmacroConditionSource,
}

impl SubmacroConditionRule {
    pub fn new(instance: &str, target_column: &str, source: SubmacroConditionSource) -> (r: Self)
        ensures
            r.instance@ == instance@,
            r.target_column@ == target_column@,
            r.source == source,
    {
        SubmacroConditionRule {
            instance: string_from(instance),
            target_column: string_from(target_column),
            source,
        }
    }
}

/// Where the values of a sub-macro condition come from.
#[derive(Debug, Clone, PartialEq, Eq)]
pub enum SubmacroConditionSource {
    AllowedValuesFromParent { column: String },
    RangeFromParent { column: String },
    FixedRange { min: Option<String>, max: Option<String> },
    Expression { expression: String },
}

/// Why the results of a sub-macro could not be turned into candidates.
#[derive(Debug, Clone, PartialEq, Eq)]
pub enum SubmacroCandidateError {
    EmptyBindings,
    MissingColumn { column: String },
    CandidateSetBuild(CandidateSetBuildError),
}

/// Why the conditions a parent places on a sub-macro could not be resolved.
#[derive(Debug, Clone, PartialEq, Eq)]
pub enum SubmacroConditionError {
    MissingParentColumn { column: String },
    InvalidNumber { value: String },
    CandidateEvaluation(CandidateEvaluationError),
}

/// Why a depth-first exploration of the hierarchy stopped.
#[derive(Debug, Clone, PartialEq, Eq)]
pub enum HierarchyDfsError {
    MissingNode { macro_name: String },
    Cycle { macro_name: String },
    Condition(SubmacroConditionError),
    Candidate(SubmacroCandidateError),
    Evaluation { macro_name: String, event: String, message: String },
}

/// Whether a character may stand in an event name as it is.
pub open spec fn event_char_ok(c: char) -> bool {
    ('a' <= c <= 'z') || ('A' <= c <= 'Z') || ('0' <= c <= '9') || c == '_' || c == '-'
}

/// An event name: ASCII letters, digits, `_` and `-` kept, every other
/// character `_`; `event` when the name is empty.
pub open spec fn event_name(name: Seq<char>) -> Seq<char> {
    if name.len() == 0 {
        "event"@
    } else {
        Seq::new(name.len(), |i: int| if event_char_ok(name[i]) { name[i] } else { '_' })
    }
}

/// The name of an exploration event derived from an instance name.
pub fn sanitize_hierarchy_event_name(name: &str) -> (r: String)
    ensures
        r@ == event_name(name@),
{
    let v = chars_of(name);
    if v.len() == 0 {
        return string_from("event");
    }
    let mut out = String::new();
    let mut i: usize = 0;
    while i < v.len()
        invariant
            i <= v.len(),
            v@ == name@,
            out@ == Seq::new(i as nat, |k: int| if event_char_ok(v@[k]) { v@[k] } else { '_' }),
        decreases v.len() - i,
    {
        let c = v[i];
        let ok = ('a' <= c && c <= 'z') || ('A' <= c && c <= 'Z') || ('0' <= c && c <= '9') || c
            == '_' || c == '-';
        if ok {
            out.push(c);
        } else {
            out.push('_');
        }
        assert(out@ =~= Seq::new((i + 1) as nat, |k: int| if event_char_ok(v@[k]) { v@[k] } else { '_' }));
        i = i + 1;
    }
    out
}

/// `{parameter}__{instance}`, each part trimmed and with `-` turned to `_`.
pub open spec fn compact_column(parameter: Seq<char>, instance: Seq<char>) -> Seq<char> {
    sanitized(parameter) + seq!['_', '_'] + sanitized(instance)
}

/// The column that holds a compact parameter of a sub-macro instance.
pub fn compact_parameter_column_name(compact_parameter: &str, instance: &str) -> (r: String)
    ensures
        r@ == compact_column(compact_parameter@, instance@),
{
    let p = trim_str(compact_parameter);
    let mut out = replace_char_str(p.as_str(), '-', '_');
    push_str(&mut out, "__");
    let t = trim_str(instance);
    let i = replace_char_str(t.as_str(), '-', '_');
    push_str(&mut out, i.as_str());
    proof {
        reveal_strlit("__");
    }
    out
}

/// The part of a column name after its last `.`, the whole name without one.
pub open spec fn local_column_name(name: Seq<char>) -> Seq<char>
    decreases name.len(),
{
    if name.len() == 0 {
        name
    } else if name.last() == '.' {
        seq![]
    } else {
        local_column_name(name.drop_last()).push(name.last())
    }
}

/// Whether `prefix` starts `s`.
pub open spec fn starts_with(s: Seq<char>, prefix: Seq<char>) -> bool {
    prefix.len() <= s.len() && s.take(prefix.len() as int) == prefix
}

/// Whether a column holds a device width or length: its local name starts
/// with `width_` or `length_`.
pub open spec fn sizing_column(name: Seq<char>) -> bool {
    let local = local_column_name(name);
    starts_with(local, "width_"@) || starts_with(local, "width__"@) || starts_with(local, "length_"@)
        || starts_with(local, "length__"@)
}

fn has_prefix(v: &Vec<char>, from: usize, prefix: &str) -> (r: bool)
    requires
        from <= v.len(),
    ensures
        r == starts_with(v@.skip(from as int), prefix@),
{
    let p = chars_of(prefix);
    if p.len() > v.len() - from {
        return false;
    }
    let mut i: usize = 0;
    while i < p.len()
        invariant
            i <= p.len(),
            p.len() <= v.len() - from,
            p@ == prefix@,
            forall|k: int| 0 <= k < i ==> v@[from + k] == p@[k],
        decreases p.len() - i,
    {
        if v[from + i] != p[i] {
            assert(v@.skip(from as int).take(p.len() as int)[i as int] != p@[i as int]);
            return false;
        }
        i = i + 1;
    }
    assert(v@.skip(from as int).take(p.len() as int) =~= p@);
    true
}

proof fn lemma_local_column_name(name: Seq<char>, k: int)
    requires
        -1 <= k < name.len(),
        k == -1 || name[k] == '.',
        forall|j: int| k < j < name.len() ==> name[j] != '.',
    ensures
        local_column_name(name) == name.skip(k + 1),
    decreases name.len(),
{
    if name.len() > 0 {
        if k == name.len() - 1 {
            assert(name.skip(k + 1) =~= Seq::<char>::empty());
        } else {
            lemma_local_column_name(name.drop_last(), k);
            assert(name.skip(k + 1) =~= name.drop_last().skip(k + 1).push(name.last()));
        }
    } else {
        assert(name.skip(k + 1) =~= name);
    }
}

/// Whether a column holds a device width or length.
pub fn is_sizing_column(name: &str) -> (r: bool)
    ensures
        r == sizing_column(name@),
{
    let v = chars_of(name);
    let mut start: usize = v.len();
    while start > 0 && v[start - 1] != '.'
        invariant
            start <= v.len(),
            forall|j: int| start <= j < v.len() ==> v@[j] != '.',
        decreases start,
    {
        start = start - 1;
    }
    proof {
        lemma_local_column_name(v@, start - 1);
    }
    has_prefix(&v, start, "width_") || has_prefix(&v, start, "width__") || has_prefix(
        &v,
        start,
        "length_",
    ) || has_prefix(&v, start, "length__")
}

/// The column an instance shows for a column of its own: `{instance}.{column}`.
pub open spec fn instance_column(instance: Seq<char>, column: Seq<char>) -> Seq<char> {
    instance + seq!['.'] + column
}

/// The column of a sub-macro instance that holds `column` of the sub-macro.
pub fn candidate_column_name(instance: &str, column: &str) -> (r: String)
    ensures
        r@ == instance_column(instance@, column@),
{
    let mut r = string_from(instance);
    r.push('.');
    push_str(&mut r, column);
    r
}

/// Interface variables as (name, source column).
pub open spec fn interface_views(vars: Seq<InterfaceVariable>) -> Seq<(Seq<char>, Seq<char>)> {
    vars.map_values(|v: InterfaceVariable| (v.name@, v.source_column@))
}

/// The column a condition on `target` applies to: the source column of the
/// first interface variable named `target`, `target` itself if none is.
pub open spec fn interface_source(vars: Seq<(Seq<char>, Seq<char>)>, target: Seq<char>) -> Seq<char>
    decreases vars.len(),
{
    if vars.len() == 0 {
        target
    } else if vars[0].0 == target {
        vars[0].1
    } else {
        interface_source(vars.drop_first(), target)
    }
}

/// The column of a child that a condition on `target_column` applies to.
pub fn child_interface_source_column(interface_variables: &Vec<InterfaceVariable>, target_column: &str) -> (r:
    String)
    ensures
        r@ == interface_source(interface_views(interface_variables@), target_column@),
{
    let ghost vs = interface_views(interface_variables@);
    let mut i: usize = 0;
    assert(vs.skip(0) =~= vs);
    while i < interface_variables.len()
        invariant
            i <= interface_variables@.len(),
            vs == interface_views(interface_variables@),
            interface_source(vs, target_column@) == interface_source(vs.skip(i as int), target_column@),
        decreases interface_variables.len() - i,
    {
        let v = &interface_variables[i];
        proof {
            assert(vs.skip(i as int)[0] == (v.name@, v.source_column@));
            assert(vs.skip(i as int).drop_first() =~= vs.skip(i + 1));
        }
        if str_eq(v.name.as_str(), target_column) {
            return string_from(v.source_column.as_str());
        }
        i = i + 1;
    }
    proof {
        assert(vs.skip(i as int) =~= Seq::<(Seq<char>, Seq<char>)>::empty());
    }
    string_from(target_column)
}

/// A condition on a sub-macro column before its values are read: the rule
/// it comes from, the column it applies to, and whether it constrains the
/// build of candidates (else it filters them).
#[derive(Debug, Clone, PartialEq, Eq)]
pub struct PlannedSubmacroCondition {
    pub rule: usize,
    pub target_column: String,
    pub pre_build: bool,
}

/// Rules as (instance, target column).
pub open spec fn rule_views(rules: Seq<SubmacroConditionRule>) -> Seq<(Seq<char>, Seq<char>)> {
    rules.map_values(|r: SubmacroConditionRule| (r.instance@, r.target_column@))
}

/// Planned conditions as (rule, column, pre-build).
pub open spec fn plan_views(plan: Seq<PlannedSubmacroCondition>) -> Seq<(nat, Seq<char>, bool)> {
    plan.map_values(|c: PlannedSubmacroCondition| (c.rule as nat, c.target_column@, c.pre_build))
}

/// The conditions of the first `n` rules that apply to `instance`, in
/// order: each on the interface source of its target, a build constraint
/// where that column is among `pre_build`.
pub open spec fn planned_conditions(
    instance: Seq<char>,
    rules: Seq<(Seq<char>, Seq<char>)>,
    vars: Seq<(Seq<char>, Seq<char>)>,
    pre_build: Seq<Seq<char>>,
    n: nat,
) -> Seq<(nat, Seq<char>, bool)>
    decreases n,
{
    if n == 0 {
        seq![]
    } else {
        let prev = planned_conditions(instance, rules, vars, pre_build, (n - 1) as nat);
        let rule = rules[n - 1];
        if rule.0 == instance {
            let column = interface_source(vars, rule.1);
            prev.push(((n - 1) as nat, column, pre_build.contains(column)))
        } else {
            prev
        }
    }
}

/// The conditions that `rules` place on `instance`, in order of the rules:
/// each on the child column its target names, and a build constraint where
/// that column is among `pre_build_columns`, a filter otherwise.
pub fn plan_submacro_conditions(
    instance: &str,
    rules: &Vec<SubmacroConditionRule>,
    interface_variables: &Vec<InterfaceVariable>,
    pre_build_columns: &Vec<String>,
) -> (r: Vec<PlannedSubmacroCondition>)
    ensures
        plan_views(r@) == planned_conditions(
            instance@,
            rule_views(rules@),
            interface_views(interface_variables@),
            texts(pre_build_columns@),
            rules@.len(),
        ),
{
    let ghost rv = rule_views(rules@);
    let mut out: Vec<PlannedSubmacroCondition> = Vec::new();
    let mut k: usize = 0;
    while k < rules.len()
        invariant
            k <= rules@.len(),
            rv == rule_views(rules@),
            plan_views(out@) == planned_conditions(
                instance@,
                rv,
                interface_views(interface_variables@),
                texts(pre_build_columns@),
                k as nat,
            ),
        decreases rules.len() - k,
    {
        let rule = &rules[k];
        proof {
            assert(rv[k as int] == (rule.instance@, rule.target_column@));
        }
        if str_eq(rule.instance.as_str(), instance) {
            let column = child_interface_source_column(interface_variables, rule.target_column.as_str());
            let pre_build = crate::macro_model::render::contains_name(pre_build_columns, column.as_str());
            let planned = PlannedSubmacroCondition { rule: k, target_column: column, pre_build };
            proof {
                assert(plan_views(out@.push(planned)) =~= plan_views(out@).push(
                    (k as nat, planned.target_column@, pre_build),
                ));
            }
            out.push(planned);
        }
        k = k + 1;
    }
    out
}

/// A compact parameter of a sub-macro and the column of the sub-macro's
/// results that gives its values.
#[derive(Debug, Clone, PartialEq, Eq)]
pub struct CompactOutputBinding {
    pub compact_parameter: String,
    pub source_column: String,
}

impl CompactOutputBinding {
    pub fn new(source_column: &str, compact_parameter: &str) -> (r: Self)
        ensures
            r.source_column@ == source_column@,
            r.compact_parameter@ == compact_parameter@,
    {
        CompactOutputBinding {
            compact_parameter: string_from(compact_parameter),
            source_column: string_from(source_column),
        }
    }
}

/// The columns wanted from a table, each as (name it gets, column it is read from).
pub open spec fn wanted_columns(
    instance: Seq<char>,
    bindings: Seq<CompactOutputBinding>,
    vars: Seq<(Seq<char>, Seq<char>)>,
) -> Seq<(Seq<char>, Seq<char>)> {
    bindings.map_values(
        |b: CompactOutputBinding| (compact_column(b.compact_parameter@, instance), b.source_column@),
    ) + vars.map_values(
        |v: (Seq<char>, Seq<char>)| (instance_column(instance, v.0), v.1),
    )
}

/// The wanted columns found among `names`, each with the position of the
/// first column of its source name; the first source name not found.
pub open spec fn found_columns(wanted: Seq<(Seq<char>, Seq<char>)>, names: Seq<Seq<char>>) -> Result<
    Seq<(Seq<char>, int)>,
    Seq<char>,
>
    decreases wanted.len(),
{
    if wanted.len() == 0 {
        Ok(seq![])
    } else {
        match found_columns(wanted.drop_last(), names) {
            Err(c) => Err(c),
            Ok(prev) => {
                let w = wanted.last();
                if names.contains(w.1) {
                    Ok(prev.push((w.0, first_position(names, w.1))))
                } else {
                    Err(w.1)
                }
            },
        }
    }
}

/// The sizing columns among the first `n` of `names`, as the instance shows
/// them, with their positions.
pub open spec fn sizing_columns(instance: Seq<char>, names: Seq<Seq<char>>, n: nat) -> Seq<
    (Seq<char>, int),
>
    decreases n,
{
    if n == 0 {
        seq![]
    } else {
        let prev = sizing_columns(instance, names, (n - 1) as nat);
        if sizing_column(names[n - 1]) {
            prev.push((instance_column(instance, names[n - 1]), n - 1))
        } else {
            prev
        }
    }
}

/// Columns as (name, position).
pub open spec fn column_plan_views(v: Seq<(String, usize)>) -> Seq<(Seq<char>, int)> {
    v.map_values(|p: (String, usize)| (p.0@, p.1 as int))
}

proof fn lemma_first_position_at(s: Seq<Seq<char>>, x: Seq<char>, i: int)
    requires
        0 <= i < s.len(),
        s[i] == x,
        forall|q: int| 0 <= q < i ==> s[q] != x,
    ensures
        first_position(s, x) == i,
    decreases i,
{
    if i > 0 {
        lemma_first_position_at(s.drop_first(), x, i - 1);
    }
}

fn column_index(names: &Vec<String>, name: &str) -> (r: Option<usize>)
    ensures
        match r {
            Some(i) => texts(names@).contains(name@) && i as int == first_position(
                texts(names@),
                name@,
            ) && i < names@.len(),
            None => !texts(names@).contains(name@),
        },
{
    let ghost t = texts(names@);
    let mut i: usize = 0;
    while i < names.len()
        invariant
            i <= names@.len(),
            t == texts(names@),
            forall|q: int| 0 <= q < i ==> t[q] != name@,
        decreases names.len() - i,
    {
        if str_eq(names[i].as_str(), name) {
            proof {
                assert(t[i as int] == name@);
                lemma_first_position_at(t, name@, i as int);
            }
            return Some(i);
        }
        i = i + 1;
    }
    None
}

/// Which columns of a sub-macro's results become the candidate columns its
/// parent sees, and under which names: each compact parameter as
/// `{parameter}__{instance}`, each interface variable as
/// `{instance}.{variable}`, then each sizing column as `{instance}.{column}`.
/// Each is given with the position of the column it is read from, the first
/// of that name.
pub fn plan_submacro_candidate_columns(
    instance: &str,
    bindings: &Vec<CompactOutputBinding>,
    interface_variables: &Vec<InterfaceVariable>,
    column_names: &Vec<String>,
) -> (r: Result<Vec<(String, usize)>, SubmacroCandidateError>)
    ensures
        ({
            let names = texts(column_names@);
            let found = found_columns(
                wanted_columns(instance@, bindings@, interface_views(interface_variables@)),
                names,
            );
            match r {
                Ok(v) => {
                    &&& bindings@.len() > 0
                    &&& found is Ok
                    &&& column_plan_views(v@) == found->Ok_0 + sizing_columns(
                        instance@,
                        names,
                        names.len(),
                    )
                },
                Err(SubmacroCandidateError::EmptyBindings) => bindings@.len() == 0,
                Err(SubmacroCandidateError::MissingColumn { column }) => bindings@.len() > 0
                    && found == Err::<Seq<(Seq<char>, int)>, Seq<char>>(column@),
                Err(SubmacroCandidateError::CandidateSetBuild(_)) => false,
            }
        }),
{
    if bindings.len() == 0 {
        return Err(SubmacroCandidateError::EmptyBindings);
    }
    let ghost names = texts(column_names@);
    let ghost wanted = wanted_columns(instance@, bindings@, interface_views(interface_variables@));
    let ghost nb = bindings@.len();
    let mut out: Vec<(String, usize)> = Vec::new();
    let mut k: usize = 0;
    proof {
        assert(wanted.take(0) =~= Seq::<(Seq<char>, Seq<char>)>::empty());
        assert(column_plan_views(out@) =~= Seq::<(Seq<char>, int)>::empty());
    }
    while k < bindings.len()
        invariant
            k <= bindings@.len(),
            nb == bindings@.len(),
            names == texts(column_names@),
            wanted == wanted_columns(instance@, bindings@, interface_views(interface_variables@)),
            found_columns(wanted.take(k as int), names) == Ok::<Seq<(Seq<char>, int)>, Seq<char>>(
                column_plan_views(out@),
            ),
        decreases bindings.len() - k,
    {
        let b = &bindings[k];
        proof {
            assert(wanted[k as int] == (compact_column(b.compact_parameter@, instance@), b.source_column@));
            assert(wanted.take(k + 1).drop_last() =~= wanted.take(k as int));
        }
        match column_index(column_names, b.source_column.as_str()) {
            None => {
                proof {
                    lemma_found_prefix_err(wanted, names, k + 1);
                }
                return Err(SubmacroCandidateError::MissingColumn { column: string_from(b.source_column.as_str()) });
            },
            Some(j) => {
                let name = compact_parameter_column_name(b.compact_parameter.as_str(), instance);
                proof {
                    assert(column_plan_views(out@.push((name, j))) =~= column_plan_views(out@).push(
                        (name@, j as int),
                    ));
                }
                out.push((name, j));
            },
        }
        k = k + 1;
    }
    let mut v: usize = 0;
    while v < interface_variables.len()
        invariant
            v <= interface_variables@.len(),
            nb == bindings@.len(),
            nb > 0,
            names == texts(column_names@),
            wanted == wanted_columns(instance@, bindings@, interface_views(interface_variables@)),
            wanted.len() == nb + interface_variables@.len(),
            found_columns(wanted.take(nb + v), names) == Ok::<Seq<(Seq<char>, int)>, Seq<char>>(
                column_plan_views(out@),
            ),
        decreases interface_variables.len() - v,
    {
        let iv = &interface_variables[v];
        proof {
            assert(interface_views(interface_variables@)[v as int] == (iv.name@, iv.source_column@));
            assert(wanted[nb + v] == (instance_column(instance@, iv.name@), iv.source_column@));
            assert(wanted.take(nb + v + 1).drop_last() =~= wanted.take(nb + v));
        }
        match column_index(column_names, iv.source_column.as_str()) {
            None => {
                proof {
                    lemma_found_prefix_err(wanted, names, nb + v + 1);
                }
                return Err(SubmacroCandidateError::MissingColumn { column: string_from(iv.source_column.as_str()) });
            },
            Some(j) => {
                let name = candidate_column_name(instance, iv.name.as_str());
                proof {
                    assert(column_plan_views(out@.push((name, j))) =~= column_plan_views(out@).push(
                        (name@, j as int),
                    ));
                }
                out.push((name, j));
            },
        }
        v = v + 1;
    }
    proof {
        assert(wanted.take(wanted.len() as int) =~= wanted);
    }
    let ghost found = column_plan_views(out@);
    let mut j: usize = 0;
    proof {
        assert(found + sizing_columns(instance@, names, 0) =~= found);
    }
    while j < column_names.len()
        invariant
            j <= column_names@.len(),
            names == texts(column_names@),
            column_plan_views(out@) == found + sizing_columns(instance@, names, j as nat),
        decreases column_names.len() - j,
    {
        if is_sizing_column(column_names[j].as_str()) {
            let name = candidate_column_name(instance, column_names[j].as_str());
            proof {
                assert(column_plan_views(out@.push((name, j))) =~= column_plan_views(out@).push(
                    (name@, j as int),
                ));
            }
            out.push((name, j));
        }
        j = j + 1;
    }
    Ok(out)
}

/// Once a prefix of the wanted columns fails, so does every longer one.
proof fn lemma_found_prefix_err(wanted: Seq<(Seq<char>, Seq<char>)>, names: Seq<Seq<char>>, n: int)
    requires
        0 < n <= wanted.len(),
        found_columns(wanted.take(n), names) is Err,
    ensures
        found_columns(wanted, names) == found_columns(wanted.take(n), names),
    decreases wanted.len() - n,
{
    if n < wanted.len() {
        assert(wanted.take(n + 1).drop_last() =~= wanted.take(n));
        lemma_found_prefix_err(wanted, names, n + 1);
    } else {
        assert(wanted.take(n) =~= wanted);
    }
}

} // verus!
