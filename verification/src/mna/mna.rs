use vstd::prelude::*;
use vstd::relations::{sorted_by, total_ordering};
use crate::mna::expr::Expr;
use crate::mna::spice_parser::{
    law_nodes_strictly_ascend, lemma_node_entry_le_total, lemma_node_numbers_fit, names_distinct, node_entries,
    node_entry_le, node_number_of, numbers_distinct, NodeMap, SpiceError,
};
use crate::mna::symmna::{smna, smna_in_range, Matrix, SmnaError, Vector};
use crate::mna::netlist_spec::{smna_out_of_range, smna_spec, SmnaErrorText, SmnaText};
use crate::text::{
    chars_of, dec, is_blank, join, parse_usize, parse_usize_spec, push_str, push_usize,
    string_of_range, string_from, texts, trim, lines_of, std_lines, str_eq, text_le, text_leq,
    lemma_text_le_antisymmetric, lemma_text_le_reflexive, lemma_text_le_total,
    lemma_text_le_transitive, lemma_parse_dec,
};

verus! {

/// The symbolic system of a circuit together with the numbers of its nodes.
#[derive(Debug)]
pub struct MnaResult {
    pub report: String,
    pub a: Matrix,
    pub x: Vector,
    pub z: Vector,
    pub nodes: NodeMap,
}

/// A node voltage unknown: `v<number>` and the net it belongs to.
#[derive(Debug, Clone, PartialEq, Eq)]
pub struct NodeVariable {
    pub variable: String,
    pub node_name: String,
    pub node_number: usize,
}

/// A node voltage unknown, by its text.
pub struct NodeVariableText {
    pub variable: Seq<char>,
    pub node_name: Seq<char>,
    pub node_number: nat,
}

impl View for NodeVariable {
    type V = NodeVariableText;

    open spec fn view(&self) -> NodeVariableText {
        NodeVariableText {
            variable: self.variable@,
            node_name: self.node_name@,
            node_number: self.node_number as nat,
        }
    }
}

/// The expression solved for each unknown, by the unknown's name; no name
/// appears twice.
#[derive(Debug, PartialEq, Eq)]
pub struct MnaSolveResult {
    solutions: Vec<(String, String)>,
}

/// The text of each `(name, expression)` pair.
pub open spec fn solution_entries(v: Seq<(String, String)>) -> Seq<(Seq<char>, Seq<char>)> {
    v.map_values(|e: (String, String)| (e.0@, e.1@))
}

impl View for MnaSolveResult {
    type V = Seq<(Seq<char>, Seq<char>)>;

    closed spec fn view(&self) -> Seq<(Seq<char>, Seq<char>)> {
        solution_entries(self.solutions@)
    }
}

impl Clone for MnaSolveResult {
    fn clone(&self) -> (r: Self)
        ensures
            r@ == self@,
    {
        proof {
            use_type_invariant(self);
        }
        let mut solutions: Vec<(String, String)> = Vec::new();
        let mut i: usize = 0;
        while i < self.solutions.len()
            invariant
                i <= self.solutions.len(),
                solution_entries(solutions@) == solution_entries(self.solutions@).take(i as int),
            decreases self.solutions.len() - i,
        {
            let ghost before = solutions@;
            let name = string_from(self.solutions[i].0.as_str());
            let value = string_from(self.solutions[i].1.as_str());
            solutions.push((name, value));
            assert(solutions@ =~= before.push((name, value)));
            assert(solution_entries(solutions@) =~= solution_entries(before).push(
                (self.solutions@[i as int].0@, self.solutions@[i as int].1@),
            ));
            assert(solution_entries(solutions@) =~= solution_entries(self.solutions@).take(i + 1));
            i = i + 1;
        }
        assert(solution_entries(self.solutions@).take(self.solutions.len() as int)
            =~= solution_entries(self.solutions@));
        MnaSolveResult { solutions }
    }
}

impl MnaSolveResult {
    #[verifier::type_invariant]
    spec fn names_are_distinct(self) -> bool {
        solution_names_distinct(solution_entries(self.solutions@))
    }

    /// The solutions of the given pairs, none where two share a name.
    pub fn from_pairs(pairs: Vec<(String, String)>) -> (r: Option<MnaSolveResult>)
        ensures
            r is Some <==> solution_names_distinct(solution_entries(pairs@)),
            r matches Some(s) ==> s@ == solution_entries(pairs@),
    {
        let ghost ev = solution_entries(pairs@);
        let mut i: usize = 0;
        while i < pairs.len()
            invariant
                i <= pairs.len(),
                ev == solution_entries(pairs@),
                forall|a: int, b: int| 0 <= a < b < i ==> (#[trigger] ev[a]).0 != (#[trigger] ev[b]).0,
            decreases pairs.len() - i,
        {
            let mut j: usize = 0;
            while j < i
                invariant
                    j <= i < pairs.len(),
                    ev == solution_entries(pairs@),
                    forall|a: int, b: int| 0 <= a < b < i ==> (#[trigger] ev[a]).0 != (#[trigger] ev[b]).0,
                    forall|a: int| 0 <= a < j ==> (#[trigger] ev[a]).0 != ev[i as int].0,
                decreases i - j,
            {
                if str_eq(pairs[j].0.as_str(), pairs[i].0.as_str()) {
                    proof {
                        assert(ev[j as int].0 == ev[i as int].0);
                    }
                    return None;
                }
                j = j + 1;
            }
            i = i + 1;
        }
        Some(MnaSolveResult { solutions: pairs })
    }

    /// The `(name, expression)` pairs, in the solver's order; no two share a
    /// name.
    pub fn solutions(&self) -> (r: &Vec<(String, String)>)
        ensures
            solution_entries(r@) == self@,
            solution_names_distinct(self@),
    {
        proof {
            use_type_invariant(self);
        }
        &self.solutions
    }
}

/// Why a circuit could not be analysed.
#[derive(Debug)]
pub enum MnaError {
    Io(std::io::Error),
    SpiceConversion(SpiceError),
    SymMna(SmnaError),
    PythonSolve(String),
    MissingNode(String),
}

// ---------------------------------------------------------------------------
// Node names and unknowns
// ---------------------------------------------------------------------------
/// The node number that a variable `v<number>` names.
pub open spec fn variable_number(variable: Seq<char>) -> Option<nat> {
    if variable.len() > 0 && variable[0] == 'v' {
        parse_usize_spec(variable.drop_first())
    } else {
        None
    }
}

/// The name of the first entry numbered `number`.
pub open spec fn name_with_number(entries: Seq<(Seq<char>, nat)>, number: nat) -> Option<
    Seq<char>,
>
    decreases entries.len(),
{
    if entries.len() == 0 {
        None
    } else if entries[0].1 == number {
        Some(entries[0].0)
    } else {
        name_with_number(entries.drop_first(), number)
    }
}

/// The variable name of node `number`.
pub open spec fn variable_text(number: nat) -> Seq<char> {
    seq!['v'] + dec(number)
}

/// The variable of a node, none for the ground node 0 or an unknown name.
pub open spec fn variable_for_name(entries: Seq<(Seq<char>, nat)>, name: Seq<char>) -> Option<
    Seq<char>,
> {
    match node_number_of(entries, name) {
        Some(k) => if k == 0 {
            None
        } else {
            Some(variable_text(k))
        },
        None => None,
    }
}

/// The node variables of entries in order, leaving out node 0.
pub open spec fn variables_of(entries: Seq<(Seq<char>, nat)>) -> Seq<NodeVariableText>
    decreases entries.len(),
{
    if entries.len() == 0 {
        seq![]
    } else {
        let prev = variables_of(entries.drop_last());
        let e = entries.last();
        if e.1 == 0 {
            prev
        } else {
            prev.push(NodeVariableText { variable: variable_text(e.1), node_name: e.0, node_number: e.1 })
        }
    }
}

pub open spec fn node_variable_texts(v: Seq<NodeVariable>) -> Seq<NodeVariableText> {
    v.map_values(|n: NodeVariable| n@)
}

pub open spec fn opt_str_text(o: Option<&str>) -> Option<Seq<char>> {
    match o {
        Some(s) => Some(s@),
        None => None,
    }
}

pub open spec fn opt_string_text(o: Option<String>) -> Option<Seq<char>> {
    match o {
        Some(s) => Some(s@),
        None => None,
    }
}

fn variable_string(number: usize) -> (r: String)
    ensures
        r@ == variable_text(number as nat),
{
    let mut s = String::new();
    s.push('v');
    push_usize(&mut s, number);
    s
}

impl MnaResult {
    /// The net whose voltage a variable `v<number>` is, if some node has
    /// that number.
    pub fn node_name_for_variable(&self, variable: &str) -> (r: Option<&str>)
        ensures
            opt_str_text(r) == match variable_number(variable@) {
                Some(k) => name_with_number(self.nodes@, k),
                None => None,
            },
    {
        let v = chars_of(variable);
        if v.len() == 0 || v[0] != 'v' {
            return None;
        }
        let rest = string_of_range(&v, 1, v.len());
        assert(rest@ =~= variable@.drop_first());
        let number = match parse_usize(rest.as_str()) {
            Some(n) => n,
            None => {
                return None;
            },
        };
        let ghost all = self.nodes@;
        let entries = self.nodes.entries();
        let mut i: usize = 0;
        assert(all.skip(0) =~= all);
        while i < entries.len()
            invariant
                i <= entries.len(),
                all == self.nodes@,
                node_entries(entries@) == all,
                variable_number(variable@) == Some(number as nat),
                name_with_number(all, number as nat) == name_with_number(
                    all.skip(i as int),
                    number as nat,
                ),
            decreases entries.len() - i,
        {
            assert(all.skip(i as int)[0] == all[i as int]);
            assert(all[i as int] == (entries@[i as int].0@, entries@[i as int].1 as nat));
            if entries[i].1 == number {
                return Some(entries[i].0.as_str());
            }
            assert(all.skip(i as int).drop_first() =~= all.skip(i + 1));
            i = i + 1;
        }
        None
    }

    /// The variable `v<number>` of a net, none for the ground node or a net
    /// that is not in the map.
    pub fn variable_for_node_name(&self, node_name: &str) -> (r: Option<String>)
        ensures
            opt_string_text(r) == variable_for_name(self.nodes@, node_name@),
    {
        let ghost all = self.nodes@;
        let entries = self.nodes.entries();
        let mut i: usize = 0;
        assert(all.skip(0) =~= all);
        while i < entries.len()
            invariant
                i <= entries.len(),
                all == self.nodes@,
                node_entries(entries@) == all,
                node_number_of(all, node_name@) == node_number_of(all.skip(i as int), node_name@),
            decreases entries.len() - i,
        {
            assert(all.skip(i as int)[0] == all[i as int]);
            assert(all[i as int] == (entries@[i as int].0@, entries@[i as int].1 as nat));
            if crate::text::str_eq(entries[i].0.as_str(), node_name) {
                let number = entries[i].1;
                if number == 0 {
                    return None;
                }
                return Some(variable_string(number));
            }
            assert(all.skip(i as int).drop_first() =~= all.skip(i + 1));
            i = i + 1;
        }
        None
    }

    /// The node voltage unknowns, ordered by node number (ties by name),
    /// leaving out the ground node 0.
    pub fn node_variables(&self) -> (r: Vec<NodeVariable>)
        ensures
            node_variable_texts(r@) == variables_of(self.nodes@.sort_by(node_entry_le())),
            forall|j: int|
                0 <= j < r@.len() ==> variable_for_name(self.nodes@, (#[trigger] r@[j]).node_name@)
                    == Some(r@[j].variable@),
    {
        // Reading the entries brings in the map's invariant: no name twice.
        let _ = self.nodes.entries();
        let sorted = self.nodes.sorted_entries();
        let ghost all = node_entries(sorted@);
        let mut out: Vec<NodeVariable> = Vec::new();
        let mut i: usize = 0;
        while i < sorted.len()
            invariant
                i <= sorted.len(),
                all == node_entries(sorted@),
                node_variable_texts(out@) == variables_of(all.take(i as int)),
            decreases sorted.len() - i,
        {
            assert(all.take(i + 1).drop_last() =~= all.take(i as int));
            let number = sorted[i].1;
            if number != 0 {
                let ghost before = node_variable_texts(out@);
                let nv = NodeVariable {
                    variable: variable_string(number),
                    node_name: sorted[i].0.clone(),
                    node_number: number,
                };
                out.push(nv);
                assert(node_variable_texts(out@) =~= before.push(nv@));
            }
            i = i + 1;
        }
        assert(all.take(sorted.len() as int) =~= all);
        proof {
            assert forall|j: int| 0 <= j < out@.len() implies variable_for_name(
                self.nodes@,
                (#[trigger] out@[j]).node_name@,
            ) == Some(out@[j].variable@) by {
                assert(node_variable_texts(out@)[j] == out@[j]@);
                law_node_variables_round_trip(self.nodes@, j);
            }
        }
        out
    }
}

/// The system of the netlist `cir_content` with the node map it was written
/// with, or the analysis error.
pub fn mna_from_netlist(nodes: NodeMap, cir_content: &str) -> (r: Result<MnaResult, MnaError>)
    requires
        cir_content@.len() < usize::MAX / 2,
        !smna_out_of_range(cir_content@),
    ensures
        match r {
            Ok(m) => smna_spec(cir_content@) matches Ok(t) && t.report == m.report@ && t.a
                == m.a.deep_view() && t.x == m.x.deep_view() && t.z == m.z.deep_view() && m.nodes@
                == nodes@,
            Err(e) => (e matches MnaError::SymMna(se) && smna_spec(cir_content@) == Err::<
                SmnaText,
                SmnaErrorText,
            >(se@)),
        },
{
    match smna(cir_content) {
        Ok(out) => Ok(MnaResult { report: out.report, a: out.a, x: out.x, z: out.z, nodes }),
        Err(e) => Err(MnaError::SymMna(e)),
    }
}

/// The system of `cir_content` where its stamps stay within the matrices,
/// as `mna_from_netlist` gives it; `None` where an op amp output or a
/// controlling node lies beyond the node count.
pub fn mna_from_netlist_in_range(nodes: NodeMap, cir_content: &str) -> (r: Option<
    Result<MnaResult, MnaError>,
>)
    requires
        cir_content@.len() < usize::MAX / 2,
    ensures
        r is None <==> smna_out_of_range(cir_content@),
        match r {
            Some(Ok(m)) => smna_spec(cir_content@) matches Ok(t) && t.report == m.report@ && t.a
                == m.a.deep_view() && t.x == m.x.deep_view() && t.z == m.z.deep_view() && m.nodes@
                == nodes@,
            Some(Err(e)) => (e matches MnaError::SymMna(se) && smna_spec(cir_content@) == Err::<
                SmnaText,
                SmnaErrorText,
            >(se@)),
            None => true,
        },
{
    if smna_in_range(cir_content) {
        Some(mna_from_netlist(nodes, cir_content))
    } else {
        None
    }
}

// ---------------------------------------------------------------------------
// Literals for the solver
// ---------------------------------------------------------------------------
/// `s` with each backslash doubled and each single quote preceded by a
/// backslash.
pub open spec fn py_escape(s: Seq<char>) -> Seq<char>
    decreases s.len(),
{
    if s.len() == 0 {
        seq![]
    } else {
        let c = s.last();
        py_escape(s.drop_last()) + if c == '\\' {
            seq!['\\', '\\']
        } else if c == '\'' {
            seq!['\\', '\'']
        } else {
            seq![c]
        }
    }
}

/// A single-quoted Python string literal with the text `s`.
pub open spec fn py_string(s: Seq<char>) -> Seq<char> {
    seq!['\''] + py_escape(s) + seq!['\'']
}

/// A Python list of the string literals of `items`.
pub open spec fn py_list(items: Seq<Seq<char>>) -> Seq<char> {
    seq!['['] + join(items.map_values(|t: Seq<char>| py_string(t)), seq![',', ' ']) + seq![']']
}

/// A Python list of lists of string literals, one list per row.
pub open spec fn py_matrix(rows: Seq<Seq<Seq<char>>>) -> Seq<char> {
    seq!['['] + join(rows.map_values(|r: Seq<Seq<char>>| py_list(r)), seq![',', ' ']) + seq![']']
}

fn python_string_literal(value: &str) -> (r: String)
    ensures
        r@ == py_string(value@),
{
    let v = chars_of(value);
    let mut out = String::new();
    out.push('\'');
    let mut i: usize = 0;
    while i < v.len()
        invariant
            i <= v.len(),
            v@ == value@,
            out@ == seq!['\''] + py_escape(v@.take(i as int)),
        decreases v.len() - i,
    {
        assert(v@.take(i + 1).drop_last() =~= v@.take(i as int));
        let c = v[i];
        if c == '\\' {
            out.push('\\');
            out.push('\\');
        } else if c == '\'' {
            out.push('\\');
            out.push('\'');
        } else {
            out.push(c);
        }
        assert(out@ =~= seq!['\''] + py_escape(v@.take(i + 1)));
        i = i + 1;
    }
    assert(v@.take(v.len() as int) =~= v@);
    out.push('\'');
    out
}

fn vector_to_python_literal(vector: &Vector) -> (r: String)
    ensures
        r@ == py_list(vector.deep_view()),
{
    let ghost items = vector.deep_view().map_values(|t: Seq<char>| py_string(t));
    let mut out = String::new();
    out.push('[');
    let mut i: usize = 0;
    while i < vector.len()
        invariant
            i <= vector.len(),
            items == vector.deep_view().map_values(|t: Seq<char>| py_string(t)),
            out@ == seq!['['] + join(items.take(i as int), seq![',', ' ']),
        decreases vector.len() - i,
    {
        assert(items.take(i + 1).drop_last() =~= items.take(i as int));
        assert(items[i as int] == py_string(vector@[i as int]@));
        if i != 0 {
            push_str(&mut out, ", ");
            proof {
                reveal_strlit(", ");
            }
            assert(", "@ =~= seq![',', ' ']);
        } else {
            assert(items.take(1) =~= seq![items[0]]);
        }
        let lit = python_string_literal(vector[i].as_str());
        push_str(&mut out, lit.as_str());
        assert(out@ =~= seq!['['] + join(items.take(i + 1), seq![',', ' ']));
        i = i + 1;
    }
    assert(items.take(vector.len() as int) =~= items);
    out.push(']');
    out
}

fn matrix_to_python_literal(matrix: &Matrix) -> (r: String)
    ensures
        r@ == py_matrix(matrix.deep_view()),
{
    let ghost items = matrix.deep_view().map_values(|r: Seq<Seq<char>>| py_list(r));
    let mut out = String::new();
    out.push('[');
    let mut i: usize = 0;
    while i < matrix.len()
        invariant
            i <= matrix.len(),
            items == matrix.deep_view().map_values(|r: Seq<Seq<char>>| py_list(r)),
            out@ == seq!['['] + join(items.take(i as int), seq![',', ' ']),
        decreases matrix.len() - i,
    {
        assert(items.take(i + 1).drop_last() =~= items.take(i as int));
        assert(items[i as int] == py_list(matrix@[i as int].deep_view()));
        if i != 0 {
            push_str(&mut out, ", ");
            proof {
                reveal_strlit(", ");
            }
            assert(", "@ =~= seq![',', ' ']);
        } else {
            assert(items.take(1) =~= seq![items[0]]);
        }
        let lit = vector_to_python_literal(&matrix[i]);
        push_str(&mut out, lit.as_str());
        assert(out@ =~= seq!['['] + join(items.take(i + 1), seq![',', ' ']));
        i = i + 1;
    }
    assert(items.take(matrix.len() as int) =~= items);
    out.push(']');
    out
}

/// The three arguments handed to the solver script: the literals of `a`,
/// `x` and `z`.
pub fn solver_arguments(a: &Matrix, x: &Vector, z: &Vector) -> (r: (String, String, String))
    ensures
        r.0@ == py_matrix(a.deep_view()),
        r.1@ == py_list(x.deep_view()),
        r.2@ == py_list(z.deep_view()),
{
    (matrix_to_python_literal(a), vector_to_python_literal(x), vector_to_python_literal(z))
}

// ---------------------------------------------------------------------------
// Reading the solver's answer
// ---------------------------------------------------------------------------
/// Index of the first `\t` in `s`.
pub open spec fn tab_index(s: Seq<char>) -> Option<nat>
    decreases s.len(),
{
    if s.len() == 0 {
        None
    } else {
        match tab_index(s.drop_last()) {
            Some(k) => Some(k),
            None => if s.last() == '\t' {
                Some((s.len() - 1) as nat)
            } else {
                None
            },
        }
    }
}

/// Index of the first entry named `name`.
pub open spec fn solution_index(entries: Seq<(Seq<char>, Seq<char>)>, name: Seq<char>) -> Option<
    nat,
>
    decreases entries.len(),
{
    if entries.len() == 0 {
        None
    } else {
        match solution_index(entries.drop_last(), name) {
            Some(k) => Some(k),
            None => if entries.last().0 == name {
                Some((entries.len() - 1) as nat)
            } else {
                None
            },
        }
    }
}

/// The expression of the first entry named `name`.
pub open spec fn solution_of(entries: Seq<(Seq<char>, Seq<char>)>, name: Seq<char>) -> Option<
    Seq<char>,
> {
    match solution_index(entries, name) {
        Some(k) => Some(entries[k as int].1),
        None => None,
    }
}

/// The entries with `name` set to `value`: an entry of that name keeps its
/// place and takes the value, otherwise the pair is added at the end.
pub open spec fn set_solution(
    entries: Seq<(Seq<char>, Seq<char>)>,
    name: Seq<char>,
    value: Seq<char>,
) -> Seq<(Seq<char>, Seq<char>)> {
    match solution_index(entries, name) {
        Some(k) => entries.update(k as int, (name, value)),
        None => entries.push((name, value)),
    }
}

/// The solutions read from the solver's lines: blank lines are skipped, each
/// other line is a name, a tab and an expression; a line without a tab is
/// an error that quotes it.
pub open spec fn read_solutions(lines: Seq<Seq<char>>) -> Result<
    Seq<(Seq<char>, Seq<char>)>,
    Seq<char>,
>
    decreases lines.len(),
{
    if lines.len() == 0 {
        Ok(seq![])
    } else {
        match read_solutions(lines.drop_last()) {
            Err(e) => Err(e),
            Ok(sol) => {
                let l = lines.last();
                if trim(l).len() == 0 {
                    Ok(sol)
                } else {
                    match tab_index(l) {
                        None => Err("invalid SymPy solver output line: "@ + l),
                        Some(k) => Ok(set_solution(sol, l.take(k as int), l.skip(k as int + 1))),
                    }
                }
            },
        }
    }
}

fn find_tab(v: &Vec<char>) -> (r: Option<usize>)
    ensures
        opt_nat(r) == tab_index(v@),
        r matches Some(k) ==> k < v.len(),
{
    let mut i: usize = 0;
    assert(v@.take(0) =~= Seq::<char>::empty());
    while i < v.len()
        invariant
            i <= v.len(),
            tab_index(v@.take(i as int)) is None,
        decreases v.len() - i,
    {
        assert(v@.take(i + 1).drop_last() =~= v@.take(i as int));
        if v[i] == '\t' {
            proof {
                lemma_tab_index_prefix(v@, i + 1);
            }
            return Some(i);
        }
        i = i + 1;
    }
    assert(v@.take(v.len() as int) =~= v@);
    None
}

pub open spec fn opt_nat(o: Option<usize>) -> Option<nat> {
    match o {
        Some(k) => Some(k as nat),
        None => None,
    }
}

proof fn lemma_tab_index_prefix(s: Seq<char>, j: int)
    requires
        0 <= j <= s.len(),
        tab_index(s.take(j)) is Some,
    ensures
        tab_index(s) == tab_index(s.take(j)),
    decreases s.len() - j,
{
    if j < s.len() {
        assert(s.take(j + 1).drop_last() =~= s.take(j));
        lemma_tab_index_prefix(s, j + 1);
    } else {
        assert(s.take(j) =~= s);
    }
}

proof fn lemma_solution_index_prefix(s: Seq<(Seq<char>, Seq<char>)>, name: Seq<char>, j: int)
    requires
        0 <= j <= s.len(),
        solution_index(s.take(j), name) is Some,
    ensures
        solution_index(s, name) == solution_index(s.take(j), name),
    decreases s.len() - j,
{
    if j < s.len() {
        assert(s.take(j + 1).drop_last() =~= s.take(j));
        lemma_solution_index_prefix(s, name, j + 1);
    } else {
        assert(s.take(j) =~= s);
    }
}

proof fn lemma_solution_index_bound(s: Seq<(Seq<char>, Seq<char>)>, name: Seq<char>)
    ensures
        solution_index(s, name) matches Some(k) ==> k < s.len() && s[k as int].0 == name,
    decreases s.len(),
{
    if s.len() > 0 {
        lemma_solution_index_bound(s.drop_last(), name);
    }
}

/// No two solutions are for the same unknown.
pub open spec fn solution_names_distinct(entries: Seq<(Seq<char>, Seq<char>)>) -> bool {
    forall|i: int, j: int|
        0 <= i < j < entries.len() ==> (#[trigger] entries[i]).0 != (#[trigger] entries[j]).0
}

proof fn lemma_solution_index_none(s: Seq<(Seq<char>, Seq<char>)>, name: Seq<char>, i: int)
    requires
        solution_index(s, name) is None,
        0 <= i < s.len(),
    ensures
        s[i].0 != name,
    decreases s.len(),
{
    if i < s.len() - 1 {
        lemma_solution_index_none(s.drop_last(), name, i);
    }
}

proof fn lemma_set_solution_distinct(
    entries: Seq<(Seq<char>, Seq<char>)>,
    name: Seq<char>,
    value: Seq<char>,
)
    requires
        solution_names_distinct(entries),
    ensures
        solution_names_distinct(set_solution(entries, name, value)),
{
    lemma_solution_index_bound(entries, name);
    let after = set_solution(entries, name, value);
    match solution_index(entries, name) {
        Some(k) => {
            assert forall|i: int, j: int| 0 <= i < j < after.len() implies (#[trigger] after[i]).0
                != (#[trigger] after[j]).0 by {
                assert(entries[i].0 != entries[j].0);
            }
        },
        None => {
            assert forall|i: int, j: int| 0 <= i < j < after.len() implies (#[trigger] after[i]).0
                != (#[trigger] after[j]).0 by {
                if j == entries.len() {
                    lemma_solution_index_none(entries, name, i);
                } else {
                    assert(entries[i].0 != entries[j].0);
                }
            }
        },
    }
}

/// The solutions the solver's lines give name each unknown once.
pub proof fn lemma_read_solutions_distinct(lines: Seq<Seq<char>>)
    ensures
        read_solutions(lines) matches Ok(sol) ==> solution_names_distinct(sol),
    decreases lines.len(),
{
    if lines.len() > 0 {
        lemma_read_solutions_distinct(lines.drop_last());
        if let Ok(sol) = read_solutions(lines.drop_last()) {
            let l = lines.last();
            if trim(l).len() != 0 {
                if let Some(k) = tab_index(l) {
                    lemma_set_solution_distinct(sol, l.take(k as int), l.skip(k as int + 1));
                }
            }
        }
    }
}

fn find_solution(solutions: &Vec<(String, String)>, name: &str) -> (r: Option<usize>)
    ensures
        opt_nat(r) == solution_index(solution_entries(solutions@), name@),
{
    let ghost all = solution_entries(solutions@);
    let mut i: usize = 0;
    assert(all.take(0) =~= Seq::<(Seq<char>, Seq<char>)>::empty());
    while i < solutions.len()
        invariant
            i <= solutions.len(),
            all == solution_entries(solutions@),
            solution_index(all.take(i as int), name@) is None,
        decreases solutions.len() - i,
    {
        assert(all.take(i + 1).drop_last() =~= all.take(i as int));
        assert(all[i as int] == (solutions@[i as int].0@, solutions@[i as int].1@));
        if str_eq(solutions[i].0.as_str(), name) {
            proof {
                lemma_solution_index_prefix(all, name@, i + 1);
            }
            return Some(i);
        }
        i = i + 1;
    }
    assert(all.take(solutions.len() as int) =~= all);
    None
}

impl MnaSolveResult {
    /// The expression solved for `name`, if any.
    pub fn get(&self, name: &str) -> (r: Option<&String>)
        ensures
            match r {
                Some(s) => solution_of(self@, name@) == Some(s@),
                None => solution_of(self@, name@) is None,
            },
    {
        match find_solution(&self.solutions, name) {
            Some(k) => {
                proof {
                    lemma_solution_index_bound(self@, name@);
                }
                Some(&self.solutions[k].1)
            },
            None => None,
        }
    }
}

/// Reads the solver's standard output: one `name\texpression` line per
/// unknown, a later line for the same name replacing the earlier one.
pub fn parse_solver_output(stdout: &str) -> (r: Result<MnaSolveResult, MnaError>)
    ensures
        match r {
            Ok(s) => read_solutions(std_lines(stdout@)) == Ok::<
                Seq<(Seq<char>, Seq<char>)>,
                Seq<char>,
            >(s@) && solution_names_distinct(s@),
            Err(e) => (e matches MnaError::PythonSolve(m) && read_solutions(std_lines(stdout@))
                == Err::<Seq<(Seq<char>, Seq<char>)>, Seq<char>>(m@)),
        },
{
    let lines = lines_of(stdout);
    let ghost all = texts(lines@);
    let mut solutions: Vec<(String, String)> = Vec::new();
    let mut i: usize = 0;
    assert(all.take(0) =~= Seq::<Seq<char>>::empty());
    assert(solution_entries(solutions@) =~= Seq::<(Seq<char>, Seq<char>)>::empty());
    while i < lines.len()
        invariant
            i <= lines.len(),
            all == texts(lines@),
            all == std_lines(stdout@),
            read_solutions(all.take(i as int)) == Ok::<Seq<(Seq<char>, Seq<char>)>, Seq<char>>(
                solution_entries(solutions@),
            ),
        decreases lines.len() - i,
    {
        assert(all.take(i + 1).drop_last() =~= all.take(i as int));
        assert(all.take(i + 1).last() == lines@[i as int]@);
        let line = &lines[i];
        if !is_blank(line.as_str()) {
            let v = chars_of(line.as_str());
            match find_tab(&v) {
                None => {
                    let mut msg = String::new();
                    push_str(&mut msg, "invalid SymPy solver output line: ");
                    push_str(&mut msg, line.as_str());
                    proof {
                        lemma_read_err_stays(all, i + 1, lines.len() as int);
                        assert(all.take(lines.len() as int) =~= all);
                    }
                    return Err(MnaError::PythonSolve(msg));
                },
                Some(k) => {
                    let name = string_of_range(&v, 0, k);
                    let value = string_of_range(&v, k + 1, v.len());
                    assert(name@ =~= line@.take(k as int));
                    assert(value@ =~= line@.skip(k + 1));
                    let ghost before = solution_entries(solutions@);
                    match find_solution(&solutions, name.as_str()) {
                        Some(j) => {
                            proof {
                                lemma_solution_index_bound(before, name@);
                            }
                            solutions.set(j, (name, value));
                            assert(solution_entries(solutions@) =~= before.update(
                                j as int,
                                (name@, value@),
                            ));
                        },
                        None => {
                            solutions.push((name, value));
                            assert(solution_entries(solutions@) =~= before.push((name@, value@)));
                        },
                    }
                },
            }
        }
        i = i + 1;
    }
    assert(all.take(lines.len() as int) =~= all);
    proof {
        lemma_read_solutions_distinct(all);
    }
    assert(solution_names_distinct(solution_entries(solutions@)));
    Ok(MnaSolveResult { solutions })
}

proof fn lemma_read_err_stays(lines: Seq<Seq<char>>, k: int, j: int)
    requires
        0 <= k <= j <= lines.len(),
        read_solutions(lines.take(k)) is Err,
    ensures
        read_solutions(lines.take(j)) == read_solutions(lines.take(k)),
    decreases j - k,
{
    if k < j {
        lemma_read_err_stays(lines, k, j - 1);
        assert(lines.take(j).drop_last() =~= lines.take(j - 1));
    }
}

// ---------------------------------------------------------------------------
// Solutions in order
// ---------------------------------------------------------------------------
/// Solutions ordered by name, then by expression.
pub open spec fn solution_le() -> spec_fn((Seq<char>, Seq<char>), (Seq<char>, Seq<char>)) -> bool {
    |x: (Seq<char>, Seq<char>), y: (Seq<char>, Seq<char>)|
        (x.0 != y.0 && text_le(x.0, y.0)) || (x.0 == y.0 && text_le(x.1, y.1))
}

pub proof fn lemma_solution_le_total()
    ensures
        total_ordering(solution_le()),
{
    let le = solution_le();
    assert forall|x: (Seq<char>, Seq<char>)| #[trigger] le(x, x) by {
        lemma_text_le_reflexive(x.1);
    }
    assert forall|x: (Seq<char>, Seq<char>), y: (Seq<char>, Seq<char>)| #[trigger]
        le(x, y) && #[trigger] le(y, x) implies x == y by {
        if x.0 == y.0 {
            lemma_text_le_antisymmetric(x.1, y.1);
        } else {
            lemma_text_le_antisymmetric(x.0, y.0);
        }
    }
    assert forall|x: (Seq<char>, Seq<char>), y: (Seq<char>, Seq<char>), z: (Seq<char>, Seq<char>)|
        #[trigger] le(x, y) && #[trigger] le(y, z) implies le(x, z) by {
        if x.0 == y.0 && y.0 == z.0 {
            lemma_text_le_transitive(x.1, y.1, z.1);
        } else if x.0 == y.0 {
        } else if y.0 == z.0 {
        } else {
            lemma_text_le_transitive(x.0, y.0, z.0);
            if x.0 == z.0 {
                lemma_text_le_antisymmetric(x.0, y.0);
            }
        }
    }
    assert forall|x: (Seq<char>, Seq<char>), y: (Seq<char>, Seq<char>)| #[trigger] le(x, y)
        || #[trigger] le(y, x) by {
        lemma_text_le_total(x.0, y.0);
        lemma_text_le_total(x.1, y.1);
    }
}

fn solution_leq(a: &(String, String), b: &(String, String)) -> (r: bool)
    ensures
        r == (solution_le())((a.0@, a.1@), (b.0@, b.1@)),
{
    if str_eq(a.0.as_str(), b.0.as_str()) {
        text_leq(a.1.as_str(), b.1.as_str())
    } else {
        text_leq(a.0.as_str(), b.0.as_str())
    }
}

/// The solutions ordered by name (ties by expression).
pub fn sorted_solutions(solutions: &Vec<(String, String)>) -> (r: Vec<(String, String)>)
    ensures
        solution_entries(r@) == solution_entries(solutions@).sort_by(solution_le()),
{
    let ghost le = solution_le();
    let ghost all = solution_entries(solutions@);
    let mut out: Vec<(String, String)> = Vec::new();
    let mut i: usize = 0;
    proof {
        lemma_solution_le_total();
        assert(solution_entries(out@) =~= all.take(0));
    }
    while i < solutions.len()
        invariant
            i <= solutions.len(),
            le == solution_le(),
            all == solution_entries(solutions@),
            total_ordering(le),
            sorted_by(solution_entries(out@), le),
            solution_entries(out@).to_multiset() == all.take(i as int).to_multiset(),
        decreases solutions.len() - i,
    {
        let e = &solutions[i];
        let ghost ev = (e.0@, e.1@);
        let ghost before = solution_entries(out@);
        let mut pos: usize = 0;
        while pos < out.len() && solution_leq(&out[pos], e)
            invariant
                pos <= out.len(),
                before == solution_entries(out@),
                ev == (e.0@, e.1@),
                le == solution_le(),
                forall|k: int| 0 <= k < pos ==> le(#[trigger] before[k], ev),
            decreases out.len() - pos,
        {
            pos = pos + 1;
        }
        out.insert(pos, (e.0.clone(), e.1.clone()));
        proof {
            assert(solution_entries(out@) =~= before.insert(pos as int, ev));
            if pos < before.len() {
                assert(!le(before[pos as int], ev));
                assert(le(ev, before[pos as int]));
            }
            let after = solution_entries(out@);
            assert forall|a: int, b: int| 0 <= a < b < after.len() implies #[trigger] le(
                after[a],
                after[b],
            ) by {
                if b < pos {
                    assert(after[a] == before[a] && after[b] == before[b]);
                } else if b == pos {
                    assert(after[a] == before[a]);
                } else if a < pos {
                    assert(after[a] == before[a] && after[b] == before[b - 1]);
                    assert(le(before[a], ev));
                    assert(le(ev, before[pos as int]));
                    assert(le(before[pos as int], before[b - 1]) || pos == b - 1);
                } else if a == pos {
                    assert(after[b] == before[b - 1]);
                    assert(le(before[pos as int], before[b - 1]) || pos == b - 1);
                } else {
                    assert(after[a] == before[a - 1] && after[b] == before[b - 1]);
                }
            }
            vstd::seq_lib::to_multiset_insert(before, pos as int, ev);
            assert(all.take(i + 1) =~= all.take(i as int).push(ev));
            vstd::seq_lib::to_multiset_build(all.take(i as int), ev);
        }
        i = i + 1;
    }
    proof {
        assert(all.take(solutions.len() as int) =~= all);
        all.lemma_sort_by_ensures(le);
        vstd::seq_lib::lemma_sorted_unique(solution_entries(out@), all.sort_by(le), le);
    }
    out
}

// ---------------------------------------------------------------------------
// Laws
// ---------------------------------------------------------------------------
proof fn lemma_index_update(
    entries: Seq<(Seq<char>, Seq<char>)>,
    k: int,
    name: Seq<char>,
    value: Seq<char>,
    probe: Seq<char>,
)
    requires
        0 <= k < entries.len(),
        entries[k].0 == name,
        solution_index(entries, name) == Some(k as nat),
    ensures
        solution_index(entries.update(k, (name, value)), probe) == solution_index(entries, probe),
    decreases entries.len(),
{
    let after = entries.update(k, (name, value));
    if k < entries.len() - 1 {
        assert(after.drop_last() =~= entries.drop_last().update(k, (name, value)));
        lemma_solution_index_bound(entries.drop_last(), name);
        if solution_index(entries.drop_last(), name) is None {
            assert(entries.last().0 == name);
        }
        lemma_index_update(entries.drop_last(), k, name, value, probe);
    } else {
        assert(after.drop_last() =~= entries.drop_last());
    }
}

/// Setting the solution of an unknown and then reading it back gives the
/// value just set; the solutions of the other unknowns are unchanged.
pub proof fn law_solution_set_then_get(
    entries: Seq<(Seq<char>, Seq<char>)>,
    name: Seq<char>,
    value: Seq<char>,
    other: Seq<char>,
)
    ensures
        solution_of(set_solution(entries, name, value), name) == Some(value),
        other != name ==> solution_of(set_solution(entries, name, value), other) == solution_of(
            entries,
            other,
        ),
{
    lemma_solution_index_bound(entries, name);
    lemma_solution_index_bound(entries, other);
    match solution_index(entries, name) {
        Some(k) => {
            lemma_index_update(entries, k as int, name, value, name);
            lemma_index_update(entries, k as int, name, value, other);
            let after = entries.update(k as int, (name, value));
            if let Some(j) = solution_index(entries, other) {
                if other != name {
                    assert(j != k);
                    assert(after[j as int] == entries[j as int]);
                }
            }
        },
        None => {
            let after = entries.push((name, value));
            assert(after.drop_last() =~= entries);
            if let Some(j) = solution_index(entries, other) {
                assert(after[j as int] == entries[j as int]);
            }
        },
    }
}

proof fn lemma_none_means_absent(s: Seq<(Seq<char>, Seq<char>)>, name: Seq<char>, k: int)
    requires
        solution_index(s, name) is None,
        0 <= k < s.len(),
    ensures
        s[k].0 != name,
    decreases s.len(),
{
    if k < s.len() - 1 {
        assert(s.drop_last()[k] == s[k]);
        lemma_none_means_absent(s.drop_last(), name, k);
    }
}

proof fn lemma_number_of_found(entries: Seq<(Seq<char>, nat)>, name: Seq<char>)
    ensures
        node_number_of(entries, name) matches Some(k) ==> exists|i: int|
            0 <= i < entries.len() && (#[trigger] entries[i]) == (name, k),
    decreases entries.len(),
{
    if entries.len() > 0 && entries[0].0 != name {
        lemma_number_of_found(entries.drop_first(), name);
        if let Some(k) = node_number_of(entries, name) {
            let i = choose|i: int|
                0 <= i < entries.drop_first().len() && (#[trigger] entries.drop_first()[i]) == (
                    name,
                    k,
                );
            assert(entries[i + 1] == (name, k));
        }
    } else if entries.len() > 0 {
        assert(entries[0] == (name, entries[0].1));
    }
}

proof fn lemma_name_with_unique_number(entries: Seq<(Seq<char>, nat)>, i: int)
    requires
        numbers_distinct(entries),
        0 <= i < entries.len(),
    ensures
        name_with_number(entries, entries[i].1) == Some(entries[i].0),
    decreases entries.len(),
{
    if i > 0 {
        assert(entries[0].1 != entries[i].1);
        assert(entries.drop_first()[i - 1] == entries[i]);
        assert(numbers_distinct(entries.drop_first())) by {
            assert forall|a: int, b: int| 0 <= a < b < entries.drop_first().len() implies (
            #[trigger] entries.drop_first()[a]).1 != (#[trigger] entries.drop_first()[b]).1 by {
                assert(entries.drop_first()[a] == entries[a + 1]);
                assert(entries.drop_first()[b] == entries[b + 1]);
            }
        }
        lemma_name_with_unique_number(entries.drop_first(), i - 1);
    }
}

/// In a node map whose nets have distinct numbers, the variable of a net
/// names that net back: `node_name_for_variable` undoes
/// `variable_for_node_name`.
pub proof fn law_variable_names_its_node(nodes: NodeMap, name: Seq<char>)
    requires
        numbers_distinct(nodes@),
        variable_for_name(nodes@, name) is Some,
    ensures
        variable_for_name(nodes@, name) matches Some(v) && (match variable_number(v) {
            Some(k) => name_with_number(nodes@, k),
            None => None,
        }) == Some(name),
{
    let entries = nodes@;
    lemma_number_of_found(entries, name);
    let k = node_number_of(entries, name)->Some_0;
    let i = choose|i: int| 0 <= i < entries.len() && (#[trigger] entries[i]) == (name, k);
    lemma_node_numbers_fit(nodes);
    lemma_parse_dec(k);
    let v = variable_text(k);
    assert(v.drop_first() =~= dec(k));
    lemma_name_with_unique_number(entries, i);
}

proof fn lemma_variable_entry(entries: Seq<(Seq<char>, nat)>, j: int) -> (e: (Seq<char>, nat))
    requires
        0 <= j < variables_of(entries).len(),
    ensures
        entries.contains(e),
        e.1 != 0,
        variables_of(entries)[j] == (NodeVariableText {
            variable: variable_text(e.1),
            node_name: e.0,
            node_number: e.1,
        }),
    decreases entries.len(),
{
    let prev = variables_of(entries.drop_last());
    if j < prev.len() {
        let e = lemma_variable_entry(entries.drop_last(), j);
        let k = choose|k: int| 0 <= k < entries.drop_last().len() && entries.drop_last()[k] == e;
        assert(entries[k] == e);
        e
    } else {
        let e = entries.last();
        assert(entries[entries.len() - 1] == e);
        e
    }
}

proof fn lemma_number_of_member(entries: Seq<(Seq<char>, nat)>, e: (Seq<char>, nat))
    requires
        names_distinct(entries),
        entries.contains(e),
    ensures
        node_number_of(entries, e.0) == Some(e.1),
    decreases entries.len(),
{
    let k = choose|k: int| 0 <= k < entries.len() && entries[k] == e;
    if entries[0] != e {
        assert(k > 0);
        if entries[0].0 == e.0 {
            assert(entries[0].0 != entries[k].0);
        }
        let rest = entries.drop_first();
        assert(rest[k - 1] == e);
        assert forall|i: int, j: int| 0 <= i < j < rest.len() implies (#[trigger] rest[i]).0
            != (#[trigger] rest[j]).0 by {
            assert(rest[i] == entries[i + 1] && rest[j] == entries[j + 1]);
        }
        lemma_number_of_member(rest, e);
    }
}

/// Each node variable leads back to itself: the variable of the node it
/// names is that variable, where no two nodes share a name.
pub proof fn law_node_variables_round_trip(entries: Seq<(Seq<char>, nat)>, j: int)
    requires
        names_distinct(entries),
        0 <= j < variables_of(entries.sort_by(node_entry_le())).len(),
    ensures
        ({
            let v = variables_of(entries.sort_by(node_entry_le()))[j];
            variable_for_name(entries, v.node_name) == Some(v.variable)
        }),
{
    lemma_node_entry_le_total();
    entries.lemma_sort_by_ensures(node_entry_le());
    let sorted = entries.sort_by(node_entry_le());
    let e = lemma_variable_entry(sorted, j);
    assert(entries.contains(e));
    lemma_number_of_member(entries, e);
}

/// The variable of an entry.
pub open spec fn entry_variable(e: (Seq<char>, nat)) -> NodeVariableText {
    NodeVariableText { variable: variable_text(e.1), node_name: e.0, node_number: e.1 }
}

proof fn lemma_entry_listed(entries: Seq<(Seq<char>, nat)>, e: (Seq<char>, nat))
    requires
        entries.contains(e),
        e.1 != 0,
    ensures
        variables_of(entries).contains(entry_variable(e)),
    decreases entries.len(),
{
    let prev = variables_of(entries.drop_last());
    if entries.last() == e {
        assert(variables_of(entries).last() == entry_variable(e));
    } else {
        let k = choose|k: int| 0 <= k < entries.len() && entries[k] == e;
        assert(entries.drop_last()[k] == e);
        lemma_entry_listed(entries.drop_last(), e);
        let j = choose|j: int| 0 <= j < prev.len() && prev[j] == entry_variable(e);
        assert(variables_of(entries)[j] == entry_variable(e));
    }
}

proof fn lemma_variables_ascend(entries: Seq<(Seq<char>, nat)>)
    requires
        forall|p: int, q: int| 0 <= p < q < entries.len() ==> (#[trigger] entries[p]).1 < (
        #[trigger] entries[q]).1,
    ensures
        forall|i: int, j: int|
            0 <= i < j < variables_of(entries).len() ==> (#[trigger] variables_of(entries)[i]).node_number
                < (#[trigger] variables_of(entries)[j]).node_number,
    decreases entries.len(),
{
    if entries.len() > 0 {
        let rest = entries.drop_last();
        assert forall|p: int, q: int| 0 <= p < q < rest.len() implies (#[trigger] rest[p]).1 < (
        #[trigger] rest[q]).1 by {
            assert(rest[p] == entries[p] && rest[q] == entries[q]);
        }
        lemma_variables_ascend(rest);
        let prev = variables_of(rest);
        let v = variables_of(entries);
        assert forall|i: int, j: int| 0 <= i < j < v.len() implies (#[trigger] v[i]).node_number < (
        #[trigger] v[j]).node_number by {
            if j < prev.len() {
                assert(v[i] == prev[i] && v[j] == prev[j]);
            } else {
                let e = lemma_variable_entry(rest, i);
                let p = choose|p: int| 0 <= p < rest.len() && rest[p] == e;
                assert(v[i] == prev[i]);
                assert(entries[p] == e);
                assert(v[j].node_number == entries[entries.len() - 1].1);
            }
        }
    }
}

/// The node variables list each node but ground once, by number: every
/// entry with a number other than 0 is listed with its variable, every
/// listed variable is `v` and the number of an entry with that name and
/// number, and where no two nodes share a number they come by strictly
/// increasing number.
pub proof fn law_node_variables_listed(entries: Seq<(Seq<char>, nat)>)
    ensures
        forall|e: (Seq<char>, nat)|
            entries.contains(e) && e.1 != 0 ==> #[trigger] variables_of(
                entries.sort_by(node_entry_le()),
            ).contains(entry_variable(e)),
        forall|j: int|
            0 <= j < variables_of(entries.sort_by(node_entry_le())).len() ==> {
                let v = #[trigger] variables_of(entries.sort_by(node_entry_le()))[j];
                &&& v.node_number != 0
                &&& entries.contains((v.node_name, v.node_number))
                &&& v == entry_variable((v.node_name, v.node_number))
            },
        numbers_distinct(entries) ==> forall|i: int, j: int|
            0 <= i < j < variables_of(entries.sort_by(node_entry_le())).len() ==> (
            #[trigger] variables_of(entries.sort_by(node_entry_le()))[i]).node_number < (
            #[trigger] variables_of(entries.sort_by(node_entry_le()))[j]).node_number,
{
    broadcast use vstd::seq_lib::group_to_multiset_ensures;

    lemma_node_entry_le_total();
    entries.lemma_sort_by_ensures(node_entry_le());
    let sorted = entries.sort_by(node_entry_le());
    let vars = variables_of(sorted);
    assert forall|e: (Seq<char>, nat)| entries.contains(e) && e.1 != 0 implies #[trigger] variables_of(
        sorted,
    ).contains(entry_variable(e)) by {
        assert(entries.to_multiset().count(e) > 0);
        assert(sorted.to_multiset().count(e) > 0);
        lemma_entry_listed(sorted, e);
    }
    assert forall|j: int| 0 <= j < vars.len() implies {
        let v = #[trigger] vars[j];
        &&& v.node_number != 0
        &&& entries.contains((v.node_name, v.node_number))
        &&& v == entry_variable((v.node_name, v.node_number))
    } by {
        let e = lemma_variable_entry(sorted, j);
        assert(sorted.to_multiset().count(e) > 0);
        assert(entries.to_multiset().count(e) > 0);
    }
    if numbers_distinct(entries) {
        law_nodes_strictly_ascend(entries);
        lemma_variables_ascend(sorted);
    }
}

} // verus!

