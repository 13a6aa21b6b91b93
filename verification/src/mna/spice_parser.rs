use vstd::prelude::*;
use vstd::relations::{sorted_by, total_ordering};
use crate::text::{
    chars_of, dec, join, join_strings, lemma_text_le_antisymmetric, lemma_text_le_reflexive,
    lemma_text_le_total, lemma_text_le_transitive, push_str, push_usize, split_whitespace,
    split_ws, text_le, text_leq, texts, trim, trim_bounds, usize_to_string, is_blank,
};

verus! {

/// An I/O error of the standard library, carried through unchanged.
#[verifier::external_type_specification]
#[verifier::external_body]
pub struct ExIoError(std::io::Error);

// ---------------------------------------------------------------------------
// The node map
// ---------------------------------------------------------------------------
/// The node number given to each net name, in the order the nets were met;
/// no name appears twice.
#[derive(Debug)]
pub struct NodeMap {
    nodes: Vec<(String, usize)>,
}

/// The text of each `(name, number)` entry.
pub open spec fn node_entries(v: Seq<(String, usize)>) -> Seq<(Seq<char>, nat)> {
    v.map_values(|e: (String, usize)| (e.0@, e.1 as nat))
}

impl View for NodeMap {
    type V = Seq<(Seq<char>, nat)>;

    closed spec fn view(&self) -> Seq<(Seq<char>, nat)> {
        node_entries(self.nodes@)
    }
}

/// The number of the first entry named `name`.
pub open spec fn node_number_of(entries: Seq<(Seq<char>, nat)>, name: Seq<char>) -> Option<nat>
    decreases entries.len(),
{
    if entries.len() == 0 {
        None
    } else if entries[0].0 == name {
        Some(entries[0].1)
    } else {
        node_number_of(entries.drop_first(), name)
    }
}

/// No two entries share a name.
pub open spec fn names_distinct(entries: Seq<(Seq<char>, nat)>) -> bool {
    forall|i: int, j: int|
        0 <= i < j < entries.len() ==> (#[trigger] entries[i]).0 != (#[trigger] entries[j]).0
}

/// No two entries share a number.
pub open spec fn numbers_distinct(entries: Seq<(Seq<char>, nat)>) -> bool {
    forall|i: int, j: int|
        0 <= i < j < entries.len() ==> (#[trigger] entries[i]).1 != (#[trigger] entries[j]).1
}

/// Entries ordered by number, then by name.
pub open spec fn node_entry_le() -> spec_fn((Seq<char>, nat), (Seq<char>, nat)) -> bool {
    |x: (Seq<char>, nat), y: (Seq<char>, nat)| x.1 < y.1 || (x.1 == y.1 && text_le(x.0, y.0))
}

pub proof fn lemma_node_entry_le_total()
    ensures
        total_ordering(node_entry_le()),
{
    let le = node_entry_le();
    assert forall|x: (Seq<char>, nat)| #[trigger] le(x, x) by {
        lemma_text_le_reflexive(x.0);
    }
    assert forall|x: (Seq<char>, nat), y: (Seq<char>, nat)| #[trigger]
        le(x, y) && #[trigger] le(y, x) implies x == y by {
        if x.1 == y.1 {
            lemma_text_le_antisymmetric(x.0, y.0);
        }
    }
    assert forall|x: (Seq<char>, nat), y: (Seq<char>, nat), z: (Seq<char>, nat)| #[trigger]
        le(x, y) && #[trigger] le(y, z) implies le(x, z) by {
        if x.1 == y.1 && y.1 == z.1 {
            lemma_text_le_transitive(x.0, y.0, z.0);
        }
    }
    assert forall|x: (Seq<char>, nat), y: (Seq<char>, nat)| #[trigger] le(x, y) || #[trigger] le(
        y,
        x,
    ) by {
        lemma_text_le_total(x.0, y.0);
    }
}

/// Where no two nodes share a number, the nodes in order come by strictly
/// increasing number.
pub proof fn law_nodes_strictly_ascend(entries: Seq<(Seq<char>, nat)>)
    requires
        numbers_distinct(entries),
    ensures
        forall|i: int, j: int|
            0 <= i < j < entries.sort_by(node_entry_le()).len() ==> (#[trigger] entries.sort_by(
                node_entry_le(),
            )[i]).1 < (#[trigger] entries.sort_by(node_entry_le())[j]).1,
{
    broadcast use vstd::seq_lib::group_to_multiset_ensures;

    let le = node_entry_le();
    lemma_node_entry_le_total();
    entries.lemma_sort_by_ensures(le);
    let t = entries.sort_by(le);
    assert(entries.no_duplicates()) by {
        assert forall|p: int, q: int|
            0 <= p < entries.len() && 0 <= q < entries.len() && p != q implies entries[p]
            != entries[q] by {
            if p < q {
                assert(entries[p].1 != entries[q].1);
            } else {
                assert(entries[q].1 != entries[p].1);
            }
        }
    }
    entries.lemma_multiset_has_no_duplicates();
    assert forall|x: (Seq<char>, nat)| t.to_multiset().contains(x) implies t.to_multiset().count(x)
        == 1 by {
        assert(entries.to_multiset().contains(x));
    }
    t.lemma_multiset_has_no_duplicates_conv();
    assert forall|i: int, j: int| 0 <= i < j < t.len() implies (#[trigger] t[i]).1 < (
    #[trigger] t[j]).1 by {
        assert(t[i] != t[j]);
        assert(t.contains(t[i]));
        assert(t.contains(t[j]));
        assert(t.to_multiset().count(t[i]) > 0);
        assert(t.to_multiset().count(t[j]) > 0);
        assert(entries.contains(t[i]));
        assert(entries.contains(t[j]));
        let p = choose|p: int| 0 <= p < entries.len() && entries[p] == t[i];
        let q = choose|q: int| 0 <= q < entries.len() && entries[q] == t[j];
        assert(p != q);
        if p < q {
            assert(entries[p].1 != entries[q].1);
        } else {
            assert(entries[q].1 != entries[p].1);
        }
        assert(le(t[i], t[j]));
    }
}

/// `s` padded with spaces on the right to at least 20 characters.
pub open spec fn pad20(s: Seq<char>) -> Seq<char> {
    if s.len() < 20 {
        s + Seq::new((20 - s.len()) as nat, |i: int| ' ')
    } else {
        s
    }
}

/// One line per entry: the name padded to 20 characters, a space, the number.
pub open spec fn node_rows(entries: Seq<(Seq<char>, nat)>) -> Seq<char>
    decreases entries.len(),
{
    if entries.len() == 0 {
        seq![]
    } else {
        node_rows(entries.drop_last()) + pad20(entries.last().0) + seq![' '] + dec(
            entries.last().1,
        ) + seq!['\n']
    }
}

/// The report on a node map: its size, then its entries by number.
pub open spec fn node_report(entries: Seq<(Seq<char>, nat)>) -> Seq<char> {
    "SPICE parser report\n===================\nNumber of nodes: "@ + dec(entries.len())
        + "\n\n"@ + pad20("Node name"@) + " Node number\n"@ + pad20("---------"@)
        + " -----------\n"@ + node_rows(entries.sort_by(node_entry_le()))
}

fn entry_leq(a: &(String, usize), b: &(String, usize)) -> (r: bool)
    ensures
        r == (node_entry_le())((a.0@, a.1 as nat), (b.0@, b.1 as nat)),
{
    a.1 < b.1 || (a.1 == b.1 && text_leq(a.0.as_str(), b.0.as_str()))
}

fn copy_entry(e: &(String, usize)) -> (r: (String, usize))
    ensures
        r.0@ == e.0@,
        r.1 == e.1,
{
    (e.0.clone(), e.1)
}

fn pad20_string(s: &mut String, name: &str)
    ensures
        final(s)@ == old(s)@ + pad20(name@),
{
    push_str(s, name);
    let v = chars_of(name);
    let mut k: usize = v.len();
    let ghost start = old(s)@ + name@;
    while k < 20
        invariant
            v@ == name@,
            v.len() <= k <= 20 || (k == v.len() && k >= 20),
            s@ == start + Seq::new((k - v.len()) as nat, |i: int| ' '),
        decreases 20 - k,
    {
        s.push(' ');
        assert(s@ =~= start + Seq::new((k + 1 - v.len()) as nat, |i: int| ' '));
        k = k + 1;
    }
    assert(s@ =~= old(s)@ + pad20(name@));
}

impl Clone for NodeMap {
    fn clone(&self) -> (r: Self)
        ensures
            r@ == self@,
    {
        proof {
            use_type_invariant(self);
        }
        let mut nodes: Vec<(String, usize)> = Vec::new();
        let mut i: usize = 0;
        while i < self.nodes.len()
            invariant
                i <= self.nodes.len(),
                node_entries(nodes@) == node_entries(self.nodes@).take(i as int),
            decreases self.nodes.len() - i,
        {
            let ghost before = nodes@;
            let name = crate::text::string_from(self.nodes[i].0.as_str());
            nodes.push((name, self.nodes[i].1));
            assert(nodes@ =~= before.push((name, self.nodes@[i as int].1)));
            assert(node_entries(nodes@) =~= node_entries(before).push(
                (self.nodes@[i as int].0@, self.nodes@[i as int].1 as nat),
            ));
            assert(node_entries(nodes@) =~= node_entries(self.nodes@).take(i + 1));
            i = i + 1;
        }
        assert(node_entries(self.nodes@).take(self.nodes.len() as int) =~= node_entries(
            self.nodes@,
        ));
        NodeMap { nodes }
    }
}

/// The numbers of a node map fit in a `usize`.
pub proof fn lemma_node_numbers_fit(m: NodeMap)
    ensures
        forall|i: int| 0 <= i < m@.len() ==> #[trigger] m@[i].1 <= usize::MAX,
{
}

impl NodeMap {
    #[verifier::type_invariant]
    spec fn names_are_distinct(self) -> bool {
        names_distinct(node_entries(self.nodes@))
    }

    /// The map of the given entries, none where two of them share a name.
    pub fn from_entries(entries: Vec<(String, usize)>) -> (r: Option<NodeMap>)
        ensures
            r is Some <==> names_distinct(node_entries(entries@)),
            r matches Some(m) ==> m@ == node_entries(entries@),
    {
        let ghost ev = node_entries(entries@);
        let mut i: usize = 0;
        while i < entries.len()
            invariant
                i <= entries.len(),
                ev == node_entries(entries@),
                forall|a: int, b: int| 0 <= a < b < i ==> (#[trigger] ev[a]).0 != (#[trigger] ev[b]).0,
            decreases entries.len() - i,
        {
            let mut j: usize = 0;
            while j < i
                invariant
                    j <= i < entries.len(),
                    ev == node_entries(entries@),
                    forall|a: int, b: int| 0 <= a < b < i ==> (#[trigger] ev[a]).0 != (#[trigger] ev[b]).0,
                    forall|a: int| 0 <= a < j ==> (#[trigger] ev[a]).0 != ev[i as int].0,
                decreases i - j,
            {
                if crate::text::str_eq(entries[j].0.as_str(), entries[i].0.as_str()) {
                    proof {
                        assert(ev[j as int].0 == ev[i as int].0);
                    }
                    return None;
                }
                j = j + 1;
            }
            i = i + 1;
        }
        Some(NodeMap { nodes: entries })
    }

    /// The entries of the map, in the order the nets were met; no two share
    /// a name.
    pub fn entries(&self) -> (r: &Vec<(String, usize)>)
        ensures
            node_entries(r@) == self@,
            names_distinct(self@),
    {
        proof {
            use_type_invariant(self);
        }
        &self.nodes
    }

    /// The entries ordered by number, ties by name.
    pub fn sorted_entries(&self) -> (r: Vec<(String, usize)>)
        ensures
            node_entries(r@) == self@.sort_by(node_entry_le()),
    {
        let ghost le = node_entry_le();
        let mut out: Vec<(String, usize)> = Vec::new();
        let mut i: usize = 0;
        proof {
            lemma_node_entry_le_total();
            assert(node_entries(out@) =~= self@.take(0));
        }
        while i < self.nodes.len()
            invariant
                i <= self.nodes.len(),
                le == node_entry_le(),
                total_ordering(le),
                sorted_by(node_entries(out@), le),
                node_entries(out@).to_multiset() == self@.take(i as int).to_multiset(),
            decreases self.nodes.len() - i,
        {
            let e = &self.nodes[i];
            let ghost ev = (e.0@, e.1 as nat);
            let ghost before = node_entries(out@);
            let mut pos: usize = 0;
            while pos < out.len() && entry_leq(&out[pos], e)
                invariant
                    pos <= out.len(),
                    before == node_entries(out@),
                    ev == (e.0@, e.1 as nat),
                    le == node_entry_le(),
                    forall|k: int| 0 <= k < pos ==> le(#[trigger] before[k], ev),
                decreases out.len() - pos,
            {
                pos = pos + 1;
            }
            out.insert(pos, copy_entry(e));
            proof {
                assert(node_entries(out@) =~= before.insert(pos as int, ev));
                if pos < before.len() {
                    assert(!le(before[pos as int], ev));
                    assert(le(ev, before[pos as int]));
                }
                let after = node_entries(out@);
                assert forall|a: int, b: int| 0 <= a < b < after.len() implies #[trigger] le(
                    after[a],
                    after[b],
                ) by {
                    if b < pos {
                        assert(after[a] == before[a] && after[b] == before[b]);
                    } else if b == pos {
                        assert(after[a] == before[a]);
                    } else if a < pos {
                        assert(after[a] == before[a] && after[b] == before[b - 1]);
                        assert(le(before[a], ev));
                        assert(le(ev, before[pos as int]));
                        assert(le(before[pos as int], before[b - 1]) || pos == b - 1);
                    } else if a == pos {
                        assert(after[b] == before[b - 1]);
                        assert(le(before[pos as int], before[b - 1]) || pos == b - 1);
                    } else {
                        assert(after[a] == before[a - 1] && after[b] == before[b - 1]);
                    }
                }
                vstd::seq_lib::to_multiset_insert(before, pos as int, ev);
                assert(self@.take(i + 1) =~= self@.take(i as int).push(ev));
                vstd::seq_lib::to_multiset_build(self@.take(i as int), ev);
            }
            i = i + 1;
        }
        proof {
            assert(self@.take(self.nodes.len() as int) =~= self@);
            self@.lemma_sort_by_ensures(le);
            vstd::seq_lib::lemma_sorted_unique(node_entries(out@), self@.sort_by(le), le);
        }
        out
    }

    /// The report on the map: its size, then a table of names and numbers
    /// ordered by number.
    pub fn to_string(&self) -> (r: String)
        ensures
            r@ == node_report(self@),
    {
        let sorted = self.sorted_entries();
        let mut s = String::new();
        push_str(&mut s, "SPICE parser report\n===================\nNumber of nodes: ");
        push_usize(&mut s, self.nodes.len());
        push_str(&mut s, "\n\n");
        pad20_string(&mut s, "Node name");
        push_str(&mut s, " Node number\n");
        pad20_string(&mut s, "---------");
        push_str(&mut s, " -----------\n");
        let ghost head = s@;
        let ghost all = node_entries(sorted@);
        let mut i: usize = 0;
        while i < sorted.len()
            invariant
                i <= sorted.len(),
                all == node_entries(sorted@),
                s@ == head + node_rows(all.take(i as int)),
            decreases sorted.len() - i,
        {
            assert(all.take(i + 1).drop_last() =~= all.take(i as int));
            pad20_string(&mut s, sorted[i].0.as_str());
            s.push(' ');
            push_usize(&mut s, sorted[i].1);
            s.push('\n');
            assert(s@ =~= head + node_rows(all.take(i + 1)));
            i = i + 1;
        }
        assert(all.take(sorted.len() as int) =~= all);
        s
    }
}

/// Why a SPICE netlist could not be converted.
#[derive(Debug)]
pub enum SpiceError {
    Io(std::io::Error),
    EmptyLine,
}

// ---------------------------------------------------------------------------
// Conversion of a SPICE netlist to numbered nodes
// ---------------------------------------------------------------------------
/// The state of a conversion: the nodes met so far and the next number.
pub struct SpiceState {
    pub nodes: Seq<(Seq<char>, nat)>,
    pub next: nat,
}

pub open spec fn vss_text() -> Seq<char> {
    seq!['v', 's', 's']
}

/// The number of net `net` and the state after it is met: `vss` is node 0;
/// a net already met keeps its number; a new net takes the next number.
pub open spec fn assign_net(st: SpiceState, net: Seq<char>) -> (SpiceState, nat) {
    if net == vss_text() {
        if node_number_of(st.nodes, net) is Some {
            (st, 0)
        } else {
            (SpiceState { nodes: st.nodes.push((net, 0)), next: st.next }, 0)
        }
    } else {
        match node_number_of(st.nodes, net) {
            Some(k) => (st, k),
            None => (SpiceState { nodes: st.nodes.push((net, st.next)), next: st.next + 1 }, st.next),
        }
    }
}

/// The tokens after the net at `index` is replaced by its number.
pub open spec fn replace_spec(params: Seq<Seq<char>>, index: int, st: SpiceState) -> (
    Seq<Seq<char>>,
    SpiceState,
) {
    let (st1, number) = assign_net(st, params[index]);
    (params.update(index, dec(number)), st1)
}

/// Whether a line has the tokens its conversion reads.
pub open spec fn spice_line_fits(line: Seq<char>) -> bool {
    trim(line).len() == 0 || {
        let k = line[0];
        &&& (k == 'R' || k == 'C' || k == 'L' || k == 'V' || k == 'I') ==> split_ws(line).len()
            >= 4
        &&& k == 'G' ==> split_ws(line).len() >= 6
    }
}

/// One line converted: blank lines and lines starting with `*` or `.` are
/// dropped; the nets of R, C, L, V, I and G elements are replaced by their
/// numbers and the element is written with single spaces; other lines are
/// kept as they are.
pub open spec fn spice_line(st: SpiceState, line: Seq<char>) -> (SpiceState, Option<Seq<char>>) {
    if trim(line).len() == 0 || line[0] == '*' || line[0] == '.' {
        (st, None)
    } else {
        let k = line[0];
        let p = split_ws(line);
        if k == 'R' || k == 'C' || k == 'L' || k == 'V' || k == 'I' {
            let (p1, s1) = replace_spec(p, 1, st);
            let (p2, s2) = replace_spec(p1, 2, s1);
            (s2, Some(join(p2.take(4), seq![' '])))
        } else if k == 'G' {
            let (p1, s1) = replace_spec(p, 1, st);
            let (p2, s2) = replace_spec(p1, 2, s1);
            let (p3, s3) = replace_spec(p2, 3, s2);
            let (p4, s4) = replace_spec(p3, 4, s3);
            (s4, Some(join(p4.take(6), seq![' '])))
        } else {
            (st, Some(line))
        }
    }
}

/// The state and the output lines after converting `lines` in order.
pub open spec fn spice_fold(lines: Seq<Seq<char>>) -> (SpiceState, Seq<Seq<char>>)
    decreases lines.len(),
{
    if lines.len() == 0 {
        (SpiceState { nodes: seq![], next: 1 }, seq![])
    } else {
        let (st, out) = spice_fold(lines.drop_last());
        let (st1, line) = spice_line(st, lines.last());
        match line {
            Some(l) => (st1, out.push(l)),
            None => (st1, out),
        }
    }
}

/// Every name in `st` is distinct, `vss` is the only node 0 and the other
/// numbers are below `next`, each used once.
pub open spec fn state_ok(st: SpiceState) -> bool {
    &&& names_distinct(st.nodes)
    &&& numbers_distinct(st.nodes)
    &&& st.next >= 1
    &&& forall|i: int|
        0 <= i < st.nodes.len() ==> ((#[trigger] st.nodes[i]).1 == 0 <==> st.nodes[i].0
            == vss_text()) && st.nodes[i].1 < st.next
}

proof fn lemma_number_of_none(entries: Seq<(Seq<char>, nat)>, name: Seq<char>)
    ensures
        node_number_of(entries, name) is None <==> forall|i: int|
            0 <= i < entries.len() ==> (#[trigger] entries[i]).0 != name,
        node_number_of(entries, name) matches Some(k) ==> exists|i: int|
            0 <= i < entries.len() && #[trigger] entries[i] == (name, k),
    decreases entries.len(),
{
    if entries.len() > 0 {
        lemma_number_of_none(entries.drop_first(), name);
        if entries[0].0 != name {
            assert forall|i: int| 0 < i < entries.len() implies #[trigger] entries[i]
                == entries.drop_first()[i - 1] by {}
            if let Some(k) = node_number_of(entries, name) {
                let j = choose|j: int|
                    0 <= j < entries.drop_first().len() && #[trigger] entries.drop_first()[j] == (
                        name,
                        k,
                    );
                assert(entries[j + 1] == (name, k));
            }
        } else {
            assert(entries[0] == (name, entries[0].1));
        }
    }
}

proof fn lemma_assign_keeps(st: SpiceState, net: Seq<char>)
    requires
        state_ok(st),
    ensures
        state_ok(assign_net(st, net).0),
        assign_net(st, net).0.next <= st.next + 1,
{
    lemma_number_of_none(st.nodes, net);
    let (st1, _n) = assign_net(st, net);
    if st1.nodes.len() > st.nodes.len() {
        assert forall|i: int, j: int| 0 <= i < j < st1.nodes.len() implies (#[trigger] st1.nodes[i]).0
            != (#[trigger] st1.nodes[j]).0 && st1.nodes[i].1 != st1.nodes[j].1 by {
            if j == st.nodes.len() {
                assert(st1.nodes[i] == st.nodes[i]);
                if net == vss_text() {
                    assert(st.nodes[i].0 != vss_text());
                }
            }
        }
    }
}

// ---------------------------------------------------------------------------
// Conversion, executable
// ---------------------------------------------------------------------------
pub open spec fn opt_nat(o: Option<usize>) -> Option<nat> {
    match o {
        Some(k) => Some(k as nat),
        None => None,
    }
}

/// The conversion state held by a node list and a next number.
pub open spec fn state_of(nodes: Seq<(String, usize)>, next: usize) -> SpiceState {
    SpiceState { nodes: node_entries(nodes), next: next as nat }
}

fn find_node(nodes: &Vec<(String, usize)>, net: &str) -> (r: Option<usize>)
    ensures
        opt_nat(r) == node_number_of(node_entries(nodes@), net@),
{
    let ghost all = node_entries(nodes@);
    let mut i: usize = 0;
    assert(all.skip(0) =~= all);
    while i < nodes.len()
        invariant
            i <= nodes.len(),
            all == node_entries(nodes@),
            node_number_of(all, net@) == node_number_of(all.skip(i as int), net@),
        decreases nodes.len() - i,
    {
        assert(all.skip(i as int)[0] == (nodes@[i as int].0@, nodes@[i as int].1 as nat));
        if text_eq(&nodes[i].0, net) {
            return Some(nodes[i].1);
        }
        assert(all.skip(i as int).drop_first() =~= all.skip(i + 1));
        i = i + 1;
    }
    None
}

fn text_eq(a: &String, b: &str) -> (r: bool)
    ensures
        r == (a@ == b@),
{
    crate::text::str_eq(a.as_str(), b)
}

fn is_vss(net: &str) -> (r: bool)
    ensures
        r == (net@ == vss_text()),
{
    let v = chars_of(net);
    let r = v.len() == 3 && v[0] == 'v' && v[1] == 's' && v[2] == 's';
    proof {
        if r {
            assert(v@ =~= vss_text());
        }
    }
    r
}

fn replace_node(
    params: &mut Vec<String>,
    index: usize,
    nodes: &mut Vec<(String, usize)>,
    node_num: &mut usize,
)
    requires
        index < old(params).len(),
        *old(node_num) < usize::MAX,
    ensures
        final(params).len() == old(params).len(),
        texts(final(params)@) == replace_spec(
            texts(old(params)@),
            index as int,
            state_of(old(nodes)@, *old(node_num)),
        ).0,
        state_of(final(nodes)@, *final(node_num)) == replace_spec(
            texts(old(params)@),
            index as int,
            state_of(old(nodes)@, *old(node_num)),
        ).1,
{
    let ghost st = state_of(nodes@, *node_num);
    let net = params[index].clone();
    let vss = is_vss(net.as_str());
    let number = if vss {
        0
    } else {
        match find_node(nodes, net.as_str()) {
            Some(existing) => existing,
            None => {
                let new_number = *node_num;
                nodes.push((net.clone(), new_number));
                *node_num = *node_num + 1;
                new_number
            },
        }
    };
    if vss {
        if find_node(nodes, net.as_str()).is_none() {
            nodes.push((net.clone(), 0));
        }
    }
    let text = usize_to_string(number);
    params.set(index, text);
    proof {
        assert(node_entries(nodes@) =~= assign_net(st, texts(old(params)@)[index as int]).0.nodes);
        assert(texts(params@) =~= replace_spec(texts(old(params)@), index as int, st).0);
    }
}

proof fn lemma_line_keeps(st: SpiceState, line: Seq<char>)
    requires
        state_ok(st),
        spice_line_fits(line),
    ensures
        state_ok(spice_line(st, line).0),
        spice_line(st, line).0.next <= st.next + 4,
{
    if !(trim(line).len() == 0 || line[0] == '*' || line[0] == '.') {
        let k = line[0];
        let p = split_ws(line);
        if k == 'R' || k == 'C' || k == 'L' || k == 'V' || k == 'I' || k == 'G' {
            let (p1, s1) = replace_spec(p, 1, st);
            lemma_assign_keeps(st, p[1]);
            let (p2, s2) = replace_spec(p1, 2, s1);
            lemma_assign_keeps(s1, p1[2]);
            if k == 'G' {
                let (p3, s3) = replace_spec(p2, 3, s2);
                lemma_assign_keeps(s2, p2[3]);
                lemma_assign_keeps(s3, p3[4]);
            }
        }
    }
}

/// The first `n` strings of `v`.
fn first_strings(v: &Vec<String>, n: usize) -> (r: Vec<String>)
    requires
        n <= v.len(),
    ensures
        texts(r@) == texts(v@).take(n as int),
{
    let mut out: Vec<String> = Vec::new();
    let mut i: usize = 0;
    while i < n
        invariant
            i <= n <= v.len(),
            texts(out@) == texts(v@).take(i as int),
        decreases n - i,
    {
        let ghost before = texts(out@);
        let c = v[i].clone();
        assert(c@ == v@[i as int]@);
        out.push(c);
        assert(texts(out@) =~= before.push(v@[i as int]@));
        assert(texts(out@) =~= texts(v@).take(i + 1));
        i = i + 1;
    }
    out
}

fn first_char(s: &String) -> (c: char)
    requires
        s@.len() > 0,
    ensures
        c == s@[0],
{
    let v = chars_of(s.as_str());
    v[0]
}

/// Whether a line has the tokens its conversion reads.
pub fn spice_line_ok(line: &str) -> (r: bool)
    ensures
        r == spice_line_fits(line@),
{
    if is_blank(line) {
        return true;
    }
    let v = chars_of(line);
    let k = v[0];
    let tokens = split_whitespace(line);
    let count = tokens.len();
    proof {
        assert(texts(tokens@).len() == split_ws(line@).len());
    }
    if k == 'R' || k == 'C' || k == 'L' || k == 'V' || k == 'I' {
        count >= 4
    } else if k == 'G' {
        count >= 6
    } else {
        true
    }
}

/// Converts one line, updating the nodes met so far.
fn convert_line(line: &String, nodes: &mut Vec<(String, usize)>, node_num: &mut usize) -> (r:
    Option<String>)
    requires
        spice_line_fits(line@),
        *old(node_num) + 4 <= usize::MAX,
    ensures
        state_of(final(nodes)@, *final(node_num)) == spice_line(
            state_of(old(nodes)@, *old(node_num)),
            line@,
        ).0,
        crate::mna::symmna::opt_string_text(r) == spice_line(
            state_of(old(nodes)@, *old(node_num)),
            line@,
        ).1,
{
    let ghost st = state_of(nodes@, *node_num);
    if is_blank(line.as_str()) {
        return None;
    }
    proof {
        if line@.len() == 0 {
            assert(trim(line@) =~= line@);
        }
    }
    let k = first_char(line);
    if k == '*' || k == '.' {
        return None;
    }
    let mut params = split_whitespace(line.as_str());
    let ghost p = texts(params@);
    proof {
        reveal_strlit(" ");
        assert(" "@ =~= seq![' ']);
    }
    if k == 'R' || k == 'C' || k == 'L' || k == 'V' || k == 'I' {
        replace_node(&mut params, 1, nodes, node_num);
        let ghost p1 = texts(params@);
        let ghost s1 = state_of(nodes@, *node_num);
        assert((p1, s1) == replace_spec(p, 1, st));
        replace_node(&mut params, 2, nodes, node_num);
        assert((texts(params@), state_of(nodes@, *node_num)) == replace_spec(p1, 2, s1));
        let head = first_strings(&params, 4);
        Some(join_strings(&head, " "))
    } else if k == 'G' {
        replace_node(&mut params, 1, nodes, node_num);
        let ghost p1 = texts(params@);
        let ghost s1 = state_of(nodes@, *node_num);
        assert((p1, s1) == replace_spec(p, 1, st));
        replace_node(&mut params, 2, nodes, node_num);
        let ghost p2 = texts(params@);
        let ghost s2 = state_of(nodes@, *node_num);
        assert((p2, s2) == replace_spec(p1, 2, s1));
        replace_node(&mut params, 3, nodes, node_num);
        let ghost p3 = texts(params@);
        let ghost s3 = state_of(nodes@, *node_num);
        assert((p3, s3) == replace_spec(p2, 3, s2));
        replace_node(&mut params, 4, nodes, node_num);
        assert((texts(params@), state_of(nodes@, *node_num)) == replace_spec(p3, 4, s3));
        let head = first_strings(&params, 6);
        Some(join_strings(&head, " "))
    } else {
        let copy = line.clone();
        assert(copy@ == line@);
        Some(copy)
    }
}

/// Converts the lines of a SPICE netlist: each net is given a number, in the
/// order the nets are met (`vss` is node 0), and each element line is written
/// with the numbers in place of its nets. Returns the converted lines and the
/// node map, in which no two nets share a name or a number.
pub fn convert_spice_lines(lines: &Vec<String>) -> (r: (Vec<String>, NodeMap))
    requires
        lines.len() < usize::MAX / 8,
        forall|i: int| 0 <= i < lines.len() ==> spice_line_fits(#[trigger] lines@[i]@),
    ensures
        texts(r.0@) == spice_fold(texts(lines@)).1,
        r.1@ == spice_fold(texts(lines@)).0.nodes,
        names_distinct(r.1@),
        numbers_distinct(r.1@),
{
    let ghost all = texts(lines@);
    let mut out: Vec<String> = Vec::new();
    let mut nodes: Vec<(String, usize)> = Vec::new();
    let mut node_num: usize = 1;
    let mut i: usize = 0;
    assert(all.take(0) =~= Seq::<Seq<char>>::empty());
    assert(node_entries(nodes@) =~= Seq::<(Seq<char>, nat)>::empty());
    while i < lines.len()
        invariant
            i <= lines.len() < usize::MAX / 8,
            all == texts(lines@),
            forall|q: int| 0 <= q < lines.len() ==> spice_line_fits(#[trigger] lines@[q]@),
            state_of(nodes@, node_num) == spice_fold(all.take(i as int)).0,
            texts(out@) == spice_fold(all.take(i as int)).1,
            state_ok(state_of(nodes@, node_num)),
            node_num <= 1 + 4 * i,
        decreases lines.len() - i,
    {
        assert(all.take(i + 1).drop_last() =~= all.take(i as int));
        assert(all.take(i + 1).last() == lines@[i as int]@);
        let ghost st = state_of(nodes@, node_num);
        proof {
            lemma_line_keeps(st, lines@[i as int]@);
        }
        let converted = convert_line(&lines[i], &mut nodes, &mut node_num);
        match converted {
            Some(l) => {
                out.push(l);
            },
            None => {},
        }
        assert(texts(out@) =~= spice_fold(all.take(i + 1)).1);
        i = i + 1;
    }
    assert(all.take(lines.len() as int) =~= all);
    assert(names_distinct(node_entries(nodes@)));
    (out, NodeMap { nodes })
}

proof fn lemma_number_after_push(nodes: Seq<(Seq<char>, nat)>, e: (Seq<char>, nat), n: Seq<char>)
    ensures
        node_number_of(nodes.push(e), n) == match node_number_of(nodes, n) {
            Some(k) => Some(k),
            None => if e.0 == n {
                Some(e.1)
            } else {
                None
            },
        },
    decreases nodes.len(),
{
    if nodes.len() == 0 {
        assert(nodes.push(e) =~= seq![e]);
        assert(seq![e].drop_first() =~= Seq::<(Seq<char>, nat)>::empty());
    } else {
        assert(nodes.push(e)[0] == nodes[0]);
        assert(nodes.push(e).drop_first() =~= nodes.drop_first().push(e));
        lemma_number_after_push(nodes.drop_first(), e, n);
    }
}

proof fn lemma_assign_persists(st: SpiceState, net: Seq<char>, n: Seq<char>)
    requires
        node_number_of(st.nodes, n) is Some,
    ensures
        node_number_of(assign_net(st, net).0.nodes, n) == node_number_of(st.nodes, n),
{
    let st1 = assign_net(st, net).0;
    if st1.nodes.len() > st.nodes.len() {
        lemma_number_after_push(st.nodes, st1.nodes.last(), n);
        assert(st1.nodes =~= st.nodes.push(st1.nodes.last()));
    }
}

proof fn lemma_assign_numbers(st: SpiceState, net: Seq<char>)
    requires
        state_ok(st),
    ensures
        node_number_of(assign_net(st, net).0.nodes, net) == Some(assign_net(st, net).1),
{
    lemma_number_of_none(st.nodes, net);
    let (st1, k) = assign_net(st, net);
    if st1.nodes.len() > st.nodes.len() {
        lemma_number_after_push(st.nodes, st1.nodes.last(), net);
        assert(st1.nodes =~= st.nodes.push(st1.nodes.last()));
    } else if net == vss_text() {
        let k0 = node_number_of(st.nodes, net)->Some_0;
        let i = choose|i: int| 0 <= i < st.nodes.len() && #[trigger] st.nodes[i] == (net, k0);
        assert(st.nodes[i].0 == vss_text());
    }
}

proof fn lemma_line_persists(st: SpiceState, line: Seq<char>, n: Seq<char>)
    requires
        node_number_of(st.nodes, n) is Some,
    ensures
        node_number_of(spice_line(st, line).0.nodes, n) == node_number_of(st.nodes, n),
{
    if !(trim(line).len() == 0 || line[0] == '*' || line[0] == '.') {
        let k = line[0];
        let p = split_ws(line);
        if k == 'R' || k == 'C' || k == 'L' || k == 'V' || k == 'I' || k == 'G' {
            let (p1, s1) = replace_spec(p, 1, st);
            lemma_assign_persists(st, p[1], n);
            let (p2, s2) = replace_spec(p1, 2, s1);
            lemma_assign_persists(s1, p1[2], n);
            if k == 'G' {
                let (p3, s3) = replace_spec(p2, 3, s2);
                lemma_assign_persists(s2, p2[3], n);
                lemma_assign_persists(s3, p3[4], n);
            }
        }
    }
}

/// Whether `line` is an R, C, L, V or I element with its two nets and value.
pub open spec fn two_net_element(line: Seq<char>) -> bool {
    &&& trim(line).len() != 0
    &&& (line[0] == 'R' || line[0] == 'C' || line[0] == 'L' || line[0] == 'V' || line[0] == 'I')
    &&& split_ws(line).len() >= 4
}

/// An R, C, L, V or I element is written with its two nets replaced by the
/// numbers the node map gives them, and both nets are in the map after it:
/// its name, the number of its first net, that of its second, its value.
pub proof fn law_element_nets_numbered(st: SpiceState, line: Seq<char>)
    requires
        state_ok(st),
        two_net_element(line),
    ensures
        ({
            let p = split_ws(line);
            let (st2, out) = spice_line(st, line);
            &&& node_number_of(st2.nodes, p[1]) is Some
            &&& node_number_of(st2.nodes, p[2]) is Some
            &&& out == Some(
                join(
                    seq![
                        p[0],
                        dec(node_number_of(st2.nodes, p[1])->Some_0),
                        dec(node_number_of(st2.nodes, p[2])->Some_0),
                        p[3],
                    ],
                    seq![' '],
                ),
            )
        }),
{
    let p = split_ws(line);
    let (p1, s1) = replace_spec(p, 1, st);
    let n1 = assign_net(st, p[1]).1;
    lemma_assign_numbers(st, p[1]);
    lemma_assign_keeps(st, p[1]);
    assert(p1[2] == p[2]);
    let (p2, s2) = replace_spec(p1, 2, s1);
    let n2 = assign_net(s1, p[2]).1;
    lemma_assign_numbers(s1, p[2]);
    lemma_assign_persists(s1, p[2], p[1]);
    assert(p2.take(4) =~= seq![p[0], dec(n1), dec(n2), p[3]]);
}

proof fn lemma_fold_ok(lines: Seq<Seq<char>>)
    requires
        forall|q: int| 0 <= q < lines.len() ==> spice_line_fits(#[trigger] lines[q]),
    ensures
        state_ok(spice_fold(lines).0),
    decreases lines.len(),
{
    if lines.len() > 0 {
        let dl = lines.drop_last();
        assert forall|q: int| 0 <= q < dl.len() implies spice_line_fits(#[trigger] dl[q]) by {
            assert(dl[q] == lines[q]);
        }
        lemma_fold_ok(dl);
        assert(lines[lines.len() - 1] == lines.last());
        lemma_line_keeps(spice_fold(dl).0, lines.last());
    }
}

proof fn lemma_fold_numbers_persist(lines: Seq<Seq<char>>, k: int, n: Seq<char>)
    requires
        0 <= k <= lines.len(),
        node_number_of(spice_fold(lines.take(k)).0.nodes, n) is Some,
    ensures
        node_number_of(spice_fold(lines).0.nodes, n) == node_number_of(
            spice_fold(lines.take(k)).0.nodes,
            n,
        ),
        spice_fold(lines.take(k)).1.is_prefix_of(spice_fold(lines).1),
    decreases lines.len() - k,
{
    if k == lines.len() {
        assert(lines.take(k) =~= lines);
    } else {
        let t = lines.take(k + 1);
        assert(t.drop_last() =~= lines.take(k));
        assert(t.last() == lines[k]);
        lemma_line_persists(spice_fold(lines.take(k)).0, lines[k], n);
        lemma_fold_numbers_persist(lines, k + 1, n);
        let a = spice_fold(lines.take(k)).1;
        let b = spice_fold(t).1;
        let c = spice_fold(lines).1;
        assert(a.is_prefix_of(b));
        assert(c.subrange(0, a.len() as int) =~= b.subrange(0, a.len() as int));
    }
}

/// Every R, C, L, V or I element of a netlist comes out with its nets
/// numbered: the converted lines hold its name, the numbers that the final
/// node map gives its two nets, and its value, and both nets are in the
/// map.
pub proof fn law_converted_elements_numbered(lines: Seq<Seq<char>>, k: int)
    requires
        forall|q: int| 0 <= q < lines.len() ==> spice_line_fits(#[trigger] lines[q]),
        0 <= k < lines.len(),
        two_net_element(lines[k]),
    ensures
        ({
            let p = split_ws(lines[k]);
            let (st, out) = spice_fold(lines);
            &&& node_number_of(st.nodes, p[1]) is Some
            &&& node_number_of(st.nodes, p[2]) is Some
            &&& out.contains(
                join(
                    seq![
                        p[0],
                        dec(node_number_of(st.nodes, p[1])->Some_0),
                        dec(node_number_of(st.nodes, p[2])->Some_0),
                        p[3],
                    ],
                    seq![' '],
                ),
            )
        }),
{
    let p = split_ws(lines[k]);
    let pre = lines.take(k);
    let t = lines.take(k + 1);
    assert(t.drop_last() =~= pre);
    assert(t.last() == lines[k]);
    assert forall|q: int| 0 <= q < pre.len() implies spice_line_fits(#[trigger] pre[q]) by {
        assert(pre[q] == lines[q]);
    }
    lemma_fold_ok(pre);
    law_element_nets_numbered(spice_fold(pre).0, lines[k]);
    let st_k = spice_fold(t).0;
    lemma_fold_numbers_persist(lines, k + 1, p[1]);
    lemma_fold_numbers_persist(lines, k + 1, p[2]);
    let line = spice_fold(t).1.last();
    let out_k = spice_fold(t).1;
    let out = spice_fold(lines).1;
    assert(out_k.len() > 0);
    assert(out[out_k.len() - 1] == out_k[out_k.len() - 1]);
}

/// A voltage-controlled current source is written with its four nets
/// replaced by the numbers the node map gives them, all four in the map
/// after it: its name, the four numbers in order, its value.
pub proof fn law_vccs_nets_numbered(st: SpiceState, line: Seq<char>)
    requires
        state_ok(st),
        trim(line).len() != 0,
        line[0] == 'G',
        split_ws(line).len() >= 6,
    ensures
        ({
            let p = split_ws(line);
            let (st4, out) = spice_line(st, line);
            &&& forall|q: int| 1 <= q <= 4 ==> #[trigger] node_number_of(st4.nodes, p[q]) is Some
            &&& out == Some(
                join(
                    seq![
                        p[0],
                        dec(node_number_of(st4.nodes, p[1])->Some_0),
                        dec(node_number_of(st4.nodes, p[2])->Some_0),
                        dec(node_number_of(st4.nodes, p[3])->Some_0),
                        dec(node_number_of(st4.nodes, p[4])->Some_0),
                        p[5],
                    ],
                    seq![' '],
                ),
            )
        }),
{
    let p = split_ws(line);
    let (p1, s1) = replace_spec(p, 1, st);
    lemma_assign_numbers(st, p[1]);
    lemma_assign_keeps(st, p[1]);
    let (p2, s2) = replace_spec(p1, 2, s1);
    lemma_assign_numbers(s1, p[2]);
    lemma_assign_keeps(s1, p[2]);
    lemma_assign_persists(s1, p[2], p[1]);
    let (p3, s3) = replace_spec(p2, 3, s2);
    lemma_assign_numbers(s2, p[3]);
    lemma_assign_keeps(s2, p[3]);
    lemma_assign_persists(s2, p[3], p[1]);
    lemma_assign_persists(s2, p[3], p[2]);
    let (p4, s4) = replace_spec(p3, 4, s3);
    lemma_assign_numbers(s3, p[4]);
    lemma_assign_persists(s3, p[4], p[1]);
    lemma_assign_persists(s3, p[4], p[2]);
    lemma_assign_persists(s3, p[4], p[3]);
    let n1 = assign_net(st, p[1]).1;
    let n2 = assign_net(s1, p[2]).1;
    let n3 = assign_net(s2, p[3]).1;
    let n4 = assign_net(s3, p[4]).1;
    assert(p4.take(6) =~= seq![p[0], dec(n1), dec(n2), dec(n3), dec(n4), p[5]]);
    assert forall|q: int| 1 <= q <= 4 implies #[trigger] node_number_of(s4.nodes, p[q]) is Some by {
        if q == 1 {
        } else if q == 2 {
        } else if q == 3 {
        } else {
        }
    }
}

/// Blank lines, comments (`*`) and directives (`.`) give no line and leave
/// the node map as it was.
pub proof fn law_comments_dropped(st: SpiceState, line: Seq<char>)
    requires
        trim(line).len() == 0 || line[0] == '*' || line[0] == '.',
    ensures
        spice_line(st, line) == (st, Option::<Seq<char>>::None),
{
}

/// A line that is no element with numbered nets, no comment and no
/// directive is kept as it is, and the node map does not change.
pub proof fn law_other_lines_kept(st: SpiceState, line: Seq<char>)
    requires
        trim(line).len() != 0,
        line[0] != '*' && line[0] != '.',
        line[0] != 'R' && line[0] != 'C' && line[0] != 'L' && line[0] != 'V' && line[0] != 'I'
            && line[0] != 'G',
    ensures
        spice_line(st, line) == (st, Some(line)),
{
}

} // verus!

