use vstd::prelude::*;
use crate::analysis::circuit_mna::{path_display, CircuitMnaAnalysis};
use crate::mna::expr::Expr;
use crate::mna::mna::{
    lemma_solution_le_total, node_variable_texts, solution_entries, solution_le,
    solution_names_distinct, sorted_solutions, variables_of, NodeVariableText,
};
use crate::mna::spice_parser::{lemma_node_entry_le_total, node_entries, node_entry_le, node_report};
use crate::text::{dec, join, join_strings, push_str, push_usize, str_eq, text_le, texts};

verus! {

/// The result of a circuit analysis, ready to be written out.
#[derive(Debug, Clone, PartialEq, Eq)]
pub struct CircuitMnaOutput {
    pub spice_path: String,
    pub cir_path: String,
    pub reports: CircuitMnaReportsOutput,
    pub nodes: Vec<NodeOutput>,
    pub variables: Vec<NodeVariableOutput>,
    pub equations: Vec<EquationOutput>,
    pub solution: Option<Vec<SolutionOutput>>,
}

/// The reports of the two conversion steps.
#[derive(Debug, Clone, PartialEq, Eq)]
pub struct CircuitMnaReportsOutput {
    pub spice_parser: String,
    pub netlist: String,
}

/// A net and its node number.
#[derive(Debug, Clone, PartialEq, Eq)]
pub struct NodeOutput {
    pub name: String,
    pub number: usize,
}

/// A node voltage unknown.
#[derive(Debug, Clone, PartialEq, Eq)]
pub struct NodeVariableOutput {
    pub variable: String,
    pub node_name: String,
    pub node_number: usize,
}

/// One equation of the system, numbered from 1.
#[derive(Debug, Clone, PartialEq, Eq)]
pub struct EquationOutput {
    pub index: usize,
    pub lhs: String,
    pub rhs: String,
    pub text: String,
}

/// The expression solved for one unknown.
#[derive(Debug, Clone, PartialEq, Eq)]
pub struct SolutionOutput {
    pub variable: String,
    pub expression: String,
}

/// An equation, by its text.
pub struct EquationText {
    pub index: nat,
    pub lhs: Seq<char>,
    pub rhs: Seq<char>,
    pub text: Seq<char>,
}

impl View for EquationOutput {
    type V = EquationText;

    open spec fn view(&self) -> EquationText {
        EquationText { index: self.index as nat, lhs: self.lhs@, rhs: self.rhs@, text: self.text@ }
    }
}

pub open spec fn equation_texts(v: Seq<EquationOutput>) -> Seq<EquationText> {
    v.map_values(|e: EquationOutput| e@)
}

pub open spec fn node_output_entries(v: Seq<NodeOutput>) -> Seq<(Seq<char>, nat)> {
    v.map_values(|n: NodeOutput| (n.name@, n.number as nat))
}

pub open spec fn variable_output_texts(v: Seq<NodeVariableOutput>) -> Seq<NodeVariableText> {
    v.map_values(
        |n: NodeVariableOutput|
            NodeVariableText {
                variable: n.variable@,
                node_name: n.node_name@,
                node_number: n.node_number as nat,
            },
    )
}

pub open spec fn solution_output_entries(v: Seq<SolutionOutput>) -> Seq<(Seq<char>, Seq<char>)> {
    v.map_values(|s: SolutionOutput| (s.variable@, s.expression@))
}

/// The term of one coefficient and unknown: nothing for a zero coefficient,
/// the unknown for one, its negation for minus one, else `(coeff)·var`.
pub open spec fn term_text(coeff: Seq<char>, var: Seq<char>) -> Option<Seq<char>> {
    if coeff == "0"@ || coeff == "0.0"@ {
        None
    } else if coeff == "1"@ || coeff == "1.0"@ {
        Some(var)
    } else if coeff == "-1"@ || coeff == "-1.0"@ {
        Some(seq!['-'] + var)
    } else {
        Some(seq!['('] + coeff + ")·"@ + var)
    }
}

/// The terms of a row against the unknowns, in column order; columns past
/// the last unknown are left out.
pub open spec fn row_terms(row: Seq<Seq<char>>, x: Seq<Seq<char>>) -> Seq<Seq<char>>
    decreases row.len(),
{
    if row.len() == 0 {
        seq![]
    } else {
        let prev = row_terms(row.drop_last(), x);
        let col = row.len() - 1;
        if col < x.len() {
            match term_text(row.last(), x[col]) {
                Some(t) => prev.push(t),
                None => prev,
            }
        } else {
            prev
        }
    }
}

/// The left-hand side of an equation: its terms joined by ` + `, or `0`.
pub open spec fn lhs_text(row: Seq<Seq<char>>, x: Seq<Seq<char>>) -> Seq<char> {
    let t = row_terms(row, x);
    if t.len() == 0 {
        "0"@
    } else {
        join(t, " + "@)
    }
}

/// The right-hand side of equation `i`.
pub open spec fn rhs_text(z: Seq<Seq<char>>, i: int) -> Seq<char> {
    if 0 <= i < z.len() {
        z[i]
    } else {
        "<missing rhs>"@
    }
}

/// `eq_<index>: <lhs> = <rhs>`.
pub open spec fn equation_line(index: nat, lhs: Seq<char>, rhs: Seq<char>) -> Seq<char> {
    "eq_"@ + dec(index) + ": "@ + lhs + " = "@ + rhs
}

/// One equation per row of `a`.
pub open spec fn equations_spec(
    a: Seq<Seq<Seq<char>>>,
    x: Seq<Seq<char>>,
    z: Seq<Seq<char>>,
) -> Seq<EquationText> {
    Seq::new(
        a.len(),
        |i: int|
            EquationText {
                index: (i + 1) as nat,
                lhs: lhs_text(a[i], x),
                rhs: rhs_text(z, i),
                text: equation_line((i + 1) as nat, lhs_text(a[i], x), rhs_text(z, i)),
            },
    )
}

fn term_of(coeff: &Expr, var: &Expr) -> (r: Option<String>)
    ensures
        match r {
            Some(t) => term_text(coeff@, var@) == Some(t@),
            None => term_text(coeff@, var@) is None,
        },
{
    let c = coeff.as_str();
    if str_eq(c, "0") || str_eq(c, "0.0") {
        None
    } else if str_eq(c, "1") || str_eq(c, "1.0") {
        Some(var.to_string())
    } else if str_eq(c, "-1") || str_eq(c, "-1.0") {
        let mut t = String::new();
        t.push('-');
        push_str(&mut t, var.as_str());
        Some(t)
    } else {
        let mut t = String::new();
        t.push('(');
        push_str(&mut t, c);
        push_str(&mut t, ")·");
        push_str(&mut t, var.as_str());
        Some(t)
    }
}

/// The left-hand side of the equation of `row`.
pub(crate) fn equation_lhs(row: &Vec<Expr>, x: &Vec<Expr>) -> (r: String)
    ensures
        r@ == lhs_text(row.deep_view(), x.deep_view()),
{
    let ghost rv = row.deep_view();
    let ghost xv = x.deep_view();
    let mut terms: Vec<String> = Vec::new();
    let mut col: usize = 0;
    assert(rv.take(0) =~= Seq::<Seq<char>>::empty());
    assert(texts(terms@) =~= Seq::<Seq<char>>::empty());
    while col < row.len()
        invariant
            col <= row.len(),
            rv == row.deep_view(),
            xv == x.deep_view(),
            texts(terms@) == row_terms(rv.take(col as int), xv),
        decreases row.len() - col,
    {
        assert(rv.take(col + 1).drop_last() =~= rv.take(col as int));
        assert(rv.take(col + 1).last() == row@[col as int]@);
        if col < x.len() {
            assert(xv[col as int] == x@[col as int]@);
            match term_of(&row[col], &x[col]) {
                Some(t) => {
                    let ghost before = texts(terms@);
                    terms.push(t);
                    assert(texts(terms@) =~= before.push(t@));
                },
                None => {},
            }
        }
        col = col + 1;
    }
    assert(rv.take(row.len() as int) =~= rv);
    if terms.len() == 0 {
        let mut z = String::new();
        push_str(&mut z, "0");
        z
    } else {
        join_strings(&terms, " + ")
    }
}

fn equation_of(a: &Vec<Vec<Expr>>, x: &Vec<Expr>, z: &Vec<Expr>, i: usize) -> (r: EquationOutput)
    requires
        i < a.len(),
        i + 1 <= usize::MAX,
    ensures
        r@ == equations_spec(a.deep_view(), x.deep_view(), z.deep_view())[i as int],
{
    let lhs = equation_lhs(&a[i], x);
    let rhs = if i < z.len() {
        z[i].to_string()
    } else {
        let mut m = String::new();
        push_str(&mut m, "<missing rhs>");
        m
    };
    let index = i + 1;
    let mut text = String::new();
    push_str(&mut text, "eq_");
    push_usize(&mut text, index);
    push_str(&mut text, ": ");
    push_str(&mut text, lhs.as_str());
    push_str(&mut text, " = ");
    push_str(&mut text, rhs.as_str());
    assert(a.deep_view()[i as int] == a@[i as int].deep_view());
    EquationOutput { index, lhs, rhs, text }
}

/// The equations of the system `a·x = z`, one per row of `a`.
pub(crate) fn mna_equations(a: &Vec<Vec<Expr>>, x: &Vec<Expr>, z: &Vec<Expr>) -> (r: Vec<
    EquationOutput,
>)
    ensures
        equation_texts(r@) == equations_spec(a.deep_view(), x.deep_view(), z.deep_view()),
{
    let ghost target = equations_spec(a.deep_view(), x.deep_view(), z.deep_view());
    let mut out: Vec<EquationOutput> = Vec::new();
    let mut i: usize = 0;
    while i < a.len()
        invariant
            i <= a.len(),
            target == equations_spec(a.deep_view(), x.deep_view(), z.deep_view()),
            out@.len() == i,
            forall|k: int| 0 <= k < i ==> (#[trigger] out@[k])@ == target[k],
        decreases a.len() - i,
    {
        let e = equation_of(a, x, z, i);
        out.push(e);
        i = i + 1;
    }
    assert(equation_texts(out@) =~= target);
    out
}

/// The nodes of the output are the node map's entries rearranged, by
/// number from low to high.
pub proof fn law_nodes_sorted_permutation(entries: Seq<(Seq<char>, nat)>)
    ensures
        entries.sort_by(node_entry_le()).to_multiset() == entries.to_multiset(),
        forall|i: int, j: int|
            0 <= i < j < entries.sort_by(node_entry_le()).len() ==> (#[trigger] entries.sort_by(
                node_entry_le(),
            )[i]).1 <= (#[trigger] entries.sort_by(node_entry_le())[j]).1,
{
    lemma_node_entry_le_total();
    entries.lemma_sort_by_ensures(node_entry_le());
    let t = entries.sort_by(node_entry_le());
    assert forall|i: int, j: int| 0 <= i < j < t.len() implies (#[trigger] t[i]).1 <= (
    #[trigger] t[j]).1 by {
        assert((node_entry_le())(t[i], t[j]));
    }
}

/// The solutions of the output are the solver's pairs rearranged, by name
/// in text order.
pub proof fn law_solutions_sorted_permutation(s: Seq<(Seq<char>, Seq<char>)>)
    ensures
        s.sort_by(solution_le()).to_multiset() == s.to_multiset(),
        forall|i: int, j: int|
            0 <= i < j < s.sort_by(solution_le()).len() ==> (#[trigger] s.sort_by(solution_le())[i]).0
                == (#[trigger] s.sort_by(solution_le())[j]).0 || text_le(
                s.sort_by(solution_le())[i].0,
                s.sort_by(solution_le())[j].0,
            ),
{
    lemma_solution_le_total();
    s.lemma_sort_by_ensures(solution_le());
    let t = s.sort_by(solution_le());
    assert forall|i: int, j: int| 0 <= i < j < t.len() implies (#[trigger] t[i]).0 == (
    #[trigger] t[j]).0 || text_le(t[i].0, t[j].0) by {
        assert((solution_le())(t[i], t[j]));
    }
}

/// Where no name is solved twice, the solutions come out by strictly
/// increasing name: each name once, in text order.
pub proof fn law_solutions_strictly_ascend(s: Seq<(Seq<char>, Seq<char>)>)
    requires
        solution_names_distinct(s),
    ensures
        forall|i: int, j: int|
            0 <= i < j < s.sort_by(solution_le()).len() ==> (#[trigger] s.sort_by(solution_le())[i]).0
                != (#[trigger] s.sort_by(solution_le())[j]).0 && text_le(
                s.sort_by(solution_le())[i].0,
                s.sort_by(solution_le())[j].0,
            ),
{
    broadcast use vstd::seq_lib::group_to_multiset_ensures;

    let le = solution_le();
    lemma_solution_le_total();
    s.lemma_sort_by_ensures(le);
    let t = s.sort_by(le);
    assert(s.no_duplicates()) by {
        assert forall|p: int, q: int| 0 <= p < s.len() && 0 <= q < s.len() && p != q implies s[p]
            != s[q] by {
            if p < q {
                assert(s[p].0 != s[q].0);
            } else {
                assert(s[q].0 != s[p].0);
            }
        }
    }
    s.lemma_multiset_has_no_duplicates();
    assert forall|x: (Seq<char>, Seq<char>)| t.to_multiset().contains(x) implies t.to_multiset().count(
        x,
    ) == 1 by {
        assert(s.to_multiset().contains(x));
    }
    t.lemma_multiset_has_no_duplicates_conv();
    assert forall|i: int, j: int| 0 <= i < j < t.len() implies (#[trigger] t[i]).0 != (
    #[trigger] t[j]).0 && text_le(t[i].0, t[j].0) by {
        assert(t[i] != t[j]);
        assert(t.contains(t[i]));
        assert(t.contains(t[j]));
        assert(t.to_multiset().count(t[i]) > 0);
        assert(t.to_multiset().count(t[j]) > 0);
        assert(s.contains(t[i]));
        assert(s.contains(t[j]));
        let p = choose|p: int| 0 <= p < s.len() && s[p] == t[i];
        let q = choose|q: int| 0 <= q < s.len() && s[q] == t[j];
        assert(p != q);
        if p < q {
            assert(s[p].0 != s[q].0);
        } else {
            assert(s[q].0 != s[p].0);
        }
        assert(le(t[i], t[j]));
    }
}

impl CircuitMnaOutput {
    /// The output of an analysis: the nodes and node unknowns by number, the
    /// equations in row order and the solutions by name.
    pub fn from_analysis(analysis: &CircuitMnaAnalysis) -> (r: Self)
        ensures
            node_output_entries(r.nodes@) == analysis.mna.nodes@.sort_by(node_entry_le()),
            variable_output_texts(r.variables@) == variables_of(
                analysis.mna.nodes@.sort_by(node_entry_le()),
            ),
            equation_texts(r.equations@) == equations_spec(
                analysis.mna.a.deep_view(),
                analysis.mna.x.deep_view(),
                analysis.mna.z.deep_view(),
            ),
            r.reports.spice_parser@ == node_report(analysis.mna.nodes@),
            r.reports.netlist@ == analysis.mna.report@,
            match analysis.solution {
                Some(s) => r.solution matches Some(v) && solution_output_entries(v@)
                    == s@.sort_by(solution_le()) && (forall|i: int, j: int|
                    0 <= i < j < v@.len() ==> (#[trigger] solution_output_entries(v@)[i]).0
                        != (#[trigger] solution_output_entries(v@)[j]).0 && text_le(
                        solution_output_entries(v@)[i].0,
                        solution_output_entries(v@)[j].0,
                    )),
                None => r.solution is None,
            },
    {
        let sorted = analysis.mna.nodes.sorted_entries();
        let mut nodes: Vec<NodeOutput> = Vec::new();
        let mut i: usize = 0;
        while i < sorted.len()
            invariant
                i <= sorted.len(),
                nodes@.len() == i,
                forall|k: int|
                    0 <= k < i ==> (#[trigger] nodes@[k]).name@ == sorted@[k].0@ && nodes@[k].number
                        == sorted@[k].1,
            decreases sorted.len() - i,
        {
            nodes.push(NodeOutput { name: sorted[i].0.clone(), number: sorted[i].1 });
            i = i + 1;
        }
        assert(node_output_entries(nodes@) =~= node_entries(sorted@));
        let vars = analysis.mna.node_variables();
        let mut variables: Vec<NodeVariableOutput> = Vec::new();
        let mut j: usize = 0;
        while j < vars.len()
            invariant
                j <= vars.len(),
                variables@.len() == j,
                forall|k: int|
                    0 <= k < j ==> (#[trigger] variables@[k]).variable@ == vars@[k].variable@
                        && variables@[k].node_name@ == vars@[k].node_name@
                        && variables@[k].node_number == vars@[k].node_number,
            decreases vars.len() - j,
        {
            variables.push(
                NodeVariableOutput {
                    variable: vars[j].variable.clone(),
                    node_name: vars[j].node_name.clone(),
                    node_number: vars[j].node_number,
                },
            );
            j = j + 1;
        }
        assert(variable_output_texts(variables@) =~= node_variable_texts(vars@));
        let solution = match &analysis.solution {
            Some(s) => {
                let entries = sorted_solutions(s.solutions());
                let mut out: Vec<SolutionOutput> = Vec::new();
                let mut k: usize = 0;
                while k < entries.len()
                    invariant
                        k <= entries.len(),
                        out@.len() == k,
                        forall|q: int|
                            0 <= q < k ==> (#[trigger] out@[q]).variable@ == entries@[q].0@
                                && out@[q].expression@ == entries@[q].1@,
                    decreases entries.len() - k,
                {
                    out.push(
                        SolutionOutput {
                            variable: entries[k].0.clone(),
                            expression: entries[k].1.clone(),
                        },
                    );
                    k = k + 1;
                }
                assert(solution_output_entries(out@) =~= solution_entries(entries@));
                proof {
                    law_solutions_strictly_ascend(s@);
                }
                Some(out)
            },
            None => None,
        };
        CircuitMnaOutput {
            spice_path: path_display(&analysis.spice_path),
            cir_path: path_display(&analysis.cir_path),
            reports: CircuitMnaReportsOutput {
                spice_parser: analysis.mna.nodes.to_string(),
                netlist: analysis.mna.report.clone(),
            },
            nodes,
            variables,
            equations: mna_equations(&analysis.mna.a, &analysis.mna.x, &analysis.mna.z),
            solution,
        }
    }
}

} // verus!
