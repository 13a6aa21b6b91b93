use vstd::prelude::*;
use crate::mna::expr::{
    add_text, mul_text, neg_text, one_text, recip_text, sub_text, zero_text,
};
use crate::text::{
    dec, is_ws, join, lowercase_of, parse_usize_spec, split_lines, split_ws, trim, uppercase_of,
};

verus! {

// ---------------------------------------------------------------------------
// The model of a netlist analysed by symbolic modified nodal analysis
// ---------------------------------------------------------------------------
/// A parsed netlist element, by its text.
pub struct BranchText {
    pub element: Seq<char>,
    pub p_node: Option<usize>,
    pub n_node: Option<usize>,
    pub cp_node: Option<usize>,
    pub cn_node: Option<usize>,
    pub vout: Option<usize>,
    pub value: Option<Seq<char>>,
    pub vname: Option<Seq<char>>,
    pub lname1: Option<Seq<char>>,
    pub lname2: Option<Seq<char>>,
}

/// The transconductance a voltage-controlled current source is stamped
/// with: its value, the symbol it was written with; its element name in
/// lower case where it has none.
pub open spec fn vccs_gain(b: BranchText) -> Seq<char> {
    match b.value {
        Some(v) => v,
        None => lowercase_of(b.element),
    }
}

/// An element whose current is an unknown of the system, by its text.
pub struct CurrentUnknownText {
    pub element: Seq<char>,
    pub p_node: Option<usize>,
    pub n_node: Option<usize>,
}

/// An analysis error, by its text.
pub enum SmnaErrorText {
    UnknownElement { line: nat, content: Seq<char> },
    BadTokenCount { line: nat, content: Seq<char>, expected: nat, actual: nat },
    BadNode { token: Seq<char> },
    BadValue { token: Seq<char> },
    MissingNode { node: nat },
    MissingBranch { name: Seq<char> },
}

/// Element counts of a netlist.
pub struct CountsSpec {
    pub branch_cnt: nat,
    pub num_rlc: nat,
    pub num_ind: nat,
    pub num_v: nat,
    pub num_i: nat,
    pub num_opamps: nat,
    pub num_vcvs: nat,
    pub num_vccs: nat,
    pub num_cccs: nat,
    pub num_ccvs: nat,
    pub num_cpld_ind: nat,
}

pub open spec fn zero_counts() -> CountsSpec {
    CountsSpec {
        branch_cnt: 0,
        num_rlc: 0,
        num_ind: 0,
        num_v: 0,
        num_i: 0,
        num_opamps: 0,
        num_vcvs: 0,
        num_vccs: 0,
        num_cccs: 0,
        num_ccvs: 0,
        num_cpld_ind: 0,
    }
}

/// First character of a text, or NUL when it is empty.
pub open spec fn first_char(s: Seq<char>) -> char {
    if s.len() > 0 {
        s[0]
    } else {
        '\0'
    }
}

// ---------------------------------------------------------------------------
// Preprocessing
// ---------------------------------------------------------------------------
/// `s` with its first character replaced by its uppercase mapping.
pub open spec fn capitalize(s: Seq<char>) -> Seq<char> {
    if s.len() == 0 {
        seq![]
    } else {
        uppercase_of(s[0]) + s.drop_first()
    }
}

/// A netlist line as analysed: `None` for blank lines and for lines that
/// start with `*`, `;` or `.` after trimming; otherwise the trimmed line with
/// its first character capitalised and its whitespace runs collapsed to single
/// spaces.
pub open spec fn process_line(raw: Seq<char>) -> Option<Seq<char>> {
    let t = trim(raw);
    if t.len() == 0 || t[0] == '*' || t[0] == ';' || t[0] == '.' {
        None
    } else {
        Some(join(split_ws(capitalize(t)), seq![' ']))
    }
}

/// The processed lines of a sequence of raw lines, in order.
pub open spec fn processed_lines(raws: Seq<Seq<char>>) -> Seq<Seq<char>>
    decreases raws.len(),
{
    if raws.len() == 0 {
        seq![]
    } else {
        let before = processed_lines(raws.drop_last());
        match process_line(raws.last()) {
            Some(l) => before.push(l),
            None => before,
        }
    }
}

/// The analysed lines of a netlist.
pub open spec fn preprocess_spec(net: Seq<char>) -> Seq<Seq<char>> {
    processed_lines(split_lines(net))
}

// ---------------------------------------------------------------------------
// Counting elements
// ---------------------------------------------------------------------------
/// Counts after one more line, or the error that line raises.
pub open spec fn count_line(c: CountsSpec, line: nat, item: Seq<char>) -> Result<
    CountsSpec,
    SmnaErrorText,
> {
    let kind = first_char(item);
    let actual = split_ws(item).len();
    let bad = |expected: nat|
        SmnaErrorText::BadTokenCount { line, content: item, expected, actual };
    if kind == 'R' || kind == 'L' || kind == 'C' {
        if actual != 4 {
            Err(bad(4))
        } else {
            Ok(
                CountsSpec {
                    num_rlc: c.num_rlc + 1,
                    branch_cnt: c.branch_cnt + 1,
                    num_ind: if kind == 'L' {
                        c.num_ind + 1
                    } else {
                        c.num_ind
                    },
                    ..c
                },
            )
        }
    } else if kind == 'V' {
        if actual != 4 {
            Err(bad(4))
        } else {
            Ok(CountsSpec { num_v: c.num_v + 1, branch_cnt: c.branch_cnt + 1, ..c })
        }
    } else if kind == 'I' {
        if actual != 4 {
            Err(bad(4))
        } else {
            Ok(CountsSpec { num_i: c.num_i + 1, branch_cnt: c.branch_cnt + 1, ..c })
        }
    } else if kind == 'O' {
        if actual != 4 {
            Err(bad(4))
        } else {
            Ok(CountsSpec { num_opamps: c.num_opamps + 1, ..c })
        }
    } else if kind == 'E' {
        if actual != 6 {
            Err(bad(6))
        } else {
            Ok(CountsSpec { num_vcvs: c.num_vcvs + 1, branch_cnt: c.branch_cnt + 1, ..c })
        }
    } else if kind == 'G' {
        if actual != 6 {
            Err(bad(6))
        } else {
            Ok(CountsSpec { num_vccs: c.num_vccs + 1, branch_cnt: c.branch_cnt + 1, ..c })
        }
    } else if kind == 'F' {
        if actual != 5 {
            Err(bad(5))
        } else {
            Ok(CountsSpec { num_cccs: c.num_cccs + 1, branch_cnt: c.branch_cnt + 1, ..c })
        }
    } else if kind == 'H' {
        if actual != 5 {
            Err(bad(5))
        } else {
            Ok(CountsSpec { num_ccvs: c.num_ccvs + 1, branch_cnt: c.branch_cnt + 1, ..c })
        }
    } else if kind == 'K' {
        if actual != 4 {
            Err(bad(4))
        } else {
            Ok(CountsSpec { num_cpld_ind: c.num_cpld_ind + 1, ..c })
        }
    } else {
        Err(SmnaErrorText::UnknownElement { line, content: item })
    }
}

/// Counts of the first `k` lines, or the first error among them.
pub open spec fn count_prefix(content: Seq<Seq<char>>, k: nat) -> Result<CountsSpec, SmnaErrorText>
    decreases k,
{
    if k == 0 {
        Ok(zero_counts())
    } else {
        match count_prefix(content, (k - 1) as nat) {
            Err(e) => Err(e),
            Ok(c) => count_line(c, (k - 1) as nat, content[k - 1]),
        }
    }
}

/// Whether an element letter is one the analysis knows.
pub open spec fn known_kind(kind: char) -> bool {
    kind == 'R' || kind == 'L' || kind == 'C' || kind == 'V' || kind == 'I' || kind == 'O'
        || kind == 'E' || kind == 'G' || kind == 'F' || kind == 'H' || kind == 'K'
}

/// Number of tokens that a line of the given element letter must have.
pub open spec fn expected_tokens(kind: char) -> nat {
    if kind == 'E' || kind == 'G' {
        6
    } else if kind == 'F' || kind == 'H' {
        5
    } else {
        4
    }
}

// ---------------------------------------------------------------------------
// Parsing elements
// ---------------------------------------------------------------------------
/// `s` with every `E` replaced by `Ea`.
pub open spec fn replace_e(s: Seq<char>) -> Seq<char>
    decreases s.len(),
{
    if s.len() == 0 {
        seq![]
    } else {
        replace_e(s.drop_last()) + if s.last() == 'E' {
            seq!['E', 'a']
        } else {
            seq![s.last()]
        }
    }
}

pub open spec fn empty_branch(element: Seq<char>) -> BranchText {
    BranchText {
        element,
        p_node: None,
        n_node: None,
        cp_node: None,
        cn_node: None,
        vout: None,
        value: None,
        vname: None,
        lname1: None,
        lname2: None,
    }
}

/// A node number token: `usize` text, else a `BadNode` error.
pub open spec fn node_of(tok: Seq<char>) -> Result<usize, SmnaErrorText> {
    match parse_usize_spec(tok) {
        Some(n) => Ok(n as usize),
        None => Err(SmnaErrorText::BadNode { token: tok }),
    }
}

/// The element that a counted line describes, or the first node token of it
/// that is not a number.
pub open spec fn parse_line(item: Seq<char>) -> Result<BranchText, SmnaErrorText> {
    let t = split_ws(item);
    let kind = first_char(item);
    let b = empty_branch(
        if kind == 'E' {
            replace_e(t[0])
        } else {
            t[0]
        },
    );
    if kind == 'R' || kind == 'L' || kind == 'C' || kind == 'V' || kind == 'I' {
        match node_of(t[1]) {
            Err(e) => Err(e),
            Ok(p) => match node_of(t[2]) {
                Err(e) => Err(e),
                Ok(n) => Ok(BranchText { p_node: Some(p), n_node: Some(n), value: Some(t[3]), ..b }),
            },
        }
    } else if kind == 'O' {
        match node_of(t[1]) {
            Err(e) => Err(e),
            Ok(p) => match node_of(t[2]) {
                Err(e) => Err(e),
                Ok(n) => match node_of(t[3]) {
                    Err(e) => Err(e),
                    Ok(o) => Ok(BranchText { p_node: Some(p), n_node: Some(n), vout: Some(o), ..b }),
                },
            },
        }
    } else if kind == 'G' || kind == 'E' {
        match node_of(t[1]) {
            Err(e) => Err(e),
            Ok(p) => match node_of(t[2]) {
                Err(e) => Err(e),
                Ok(n) => match node_of(t[3]) {
                    Err(e) => Err(e),
                    Ok(cp) => match node_of(t[4]) {
                        Err(e) => Err(e),
                        Ok(cn) => Ok(
                            BranchText {
                                p_node: Some(p),
                                n_node: Some(n),
                                cp_node: Some(cp),
                                cn_node: Some(cn),
                                value: Some(t[5]),
                                ..b
                            },
                        ),
                    },
                },
            },
        }
    } else if kind == 'F' || kind == 'H' {
        match node_of(t[1]) {
            Err(e) => Err(e),
            Ok(p) => match node_of(t[2]) {
                Err(e) => Err(e),
                Ok(n) => Ok(
                    BranchText {
                        p_node: Some(p),
                        n_node: Some(n),
                        vname: Some(capitalize(t[3])),
                        value: Some(t[4]),
                        ..b
                    },
                ),
            },
        }
    } else {
        Ok(
            BranchText {
                lname1: Some(capitalize(t[1])),
                lname2: Some(capitalize(t[2])),
                value: Some(t[3]),
                ..b
            },
        )
    }
}

/// The elements of the first `k` lines, or the first parse error among them.
pub open spec fn parse_prefix(content: Seq<Seq<char>>, k: nat) -> Result<
    Seq<BranchText>,
    SmnaErrorText,
>
    decreases k,
{
    if k == 0 {
        Ok(seq![])
    } else {
        match parse_prefix(content, (k - 1) as nat) {
            Err(e) => Err(e),
            Ok(df) => match parse_line(content[k - 1]) {
                Err(e) => Err(e),
                Ok(b) => Ok(df.push(b)),
            },
        }
    }
}

pub open spec fn kind_of(b: BranchText) -> char {
    first_char(b.element)
}

/// The voltage sources, in order.
pub open spec fn voltage_sources(df: Seq<BranchText>) -> Seq<BranchText>
    decreases df.len(),
{
    if df.len() == 0 {
        seq![]
    } else if kind_of(df.last()) == 'V' {
        voltage_sources(df.drop_last()).push(df.last())
    } else {
        voltage_sources(df.drop_last())
    }
}

/// The elements that are not voltage sources, in order.
pub open spec fn other_elements(df: Seq<BranchText>) -> Seq<BranchText>
    decreases df.len(),
{
    if df.len() == 0 {
        seq![]
    } else if kind_of(df.last()) != 'V' {
        other_elements(df.drop_last()).push(df.last())
    } else {
        other_elements(df.drop_last())
    }
}

/// Voltage sources first, then the other elements, each group in order.
pub open spec fn voltage_sources_first(df: Seq<BranchText>) -> Seq<BranchText> {
    voltage_sources(df) + other_elements(df)
}

// ---------------------------------------------------------------------------
// Nodes
// ---------------------------------------------------------------------------
pub open spec fn unwrap0(o: Option<usize>) -> nat {
    match o {
        Some(n) => n as nat,
        None => 0,
    }
}

/// Whether `node` is the positive or negative node of a non-coupling element.
pub open spec fn touches(b: BranchText, node: nat) -> bool {
    kind_of(b) != 'K' && ((b.p_node matches Some(p) && p == node) || (b.n_node matches Some(n)
        && n == node))
}

/// The largest positive or negative node of the non-coupling elements.
pub open spec fn largest_node(df: Seq<BranchText>) -> nat
    decreases df.len(),
{
    if df.len() == 0 {
        0
    } else {
        let m = largest_node(df.drop_last());
        let b = df.last();
        if kind_of(b) == 'K' {
            m
        } else {
            let m1 = match b.p_node {
                Some(p) => if p > m {
                    p as nat
                } else {
                    m
                },
                None => m,
            };
            match b.n_node {
                Some(n) => if n > m1 {
                    n as nat
                } else {
                    m1
                },
                None => m1,
            }
        }
    }
}

/// Whether a node below `line_cnt + 1` is touched by some element.
pub open spec fn node_seen(df: Seq<BranchText>, line_cnt: nat, node: nat) -> bool {
    node < line_cnt + 1 && exists|i: int| 0 <= i < df.len() && touches(#[trigger] df[i], node)
}

/// The first node in `from..to` that is not seen.
pub open spec fn first_unseen(df: Seq<BranchText>, line_cnt: nat, from: nat, to: nat) -> Option<
    nat,
>
    decreases to - from,
{
    if from >= to {
        None
    } else if !node_seen(df, line_cnt, from) {
        Some(from)
    } else {
        first_unseen(df, line_cnt, from + 1, to)
    }
}

/// The number of nodes: the largest node, when every node below it is seen.
pub open spec fn node_count_spec(df: Seq<BranchText>, line_cnt: nat) -> Result<nat, SmnaErrorText> {
    match first_unseen(df, line_cnt, 1, largest_node(df)) {
        Some(node) => Err(SmnaErrorText::MissingNode { node }),
        None => Ok(largest_node(df)),
    }
}

// ---------------------------------------------------------------------------
// Unknown currents
// ---------------------------------------------------------------------------
/// Elements whose current is an unknown: inductors, voltage sources, op amps
/// and the E, H and F controlled sources.
pub open spec fn has_current_unknown(kind: char) -> bool {
    kind == 'L' || kind == 'V' || kind == 'O' || kind == 'E' || kind == 'H' || kind == 'F'
}

pub open spec fn current_unknowns_spec(df: Seq<BranchText>) -> Seq<CurrentUnknownText>
    decreases df.len(),
{
    if df.len() == 0 {
        seq![]
    } else {
        let prev = current_unknowns_spec(df.drop_last());
        let b = df.last();
        if has_current_unknown(kind_of(b)) {
            prev.push(CurrentUnknownText { element: b.element, p_node: b.p_node, n_node: b.n_node })
        } else {
            prev
        }
    }
}

/// Index of the first unknown current named `name`.
pub open spec fn find_unknown(df2: Seq<CurrentUnknownText>, name: Seq<char>) -> Option<nat>
    decreases df2.len(),
{
    if df2.len() == 0 {
        None
    } else {
        match find_unknown(df2.drop_last(), name) {
            Some(i) => Some(i),
            None => if df2.last().element == name {
                Some((df2.len() - 1) as nat)
            } else {
                None
            },
        }
    }
}

// ---------------------------------------------------------------------------
// Matrices
// ---------------------------------------------------------------------------
pub open spec fn zeros_text(rows: nat, cols: nat) -> Seq<Seq<Seq<char>>> {
    Seq::new(rows, |i: int| Seq::new(cols, |j: int| zero_text()))
}

/// Whether every row of `m` has `cols` entries and there are `rows` rows.
pub open spec fn shaped(m: Seq<Seq<Seq<char>>>, rows: nat, cols: nat) -> bool {
    m.len() == rows && forall|i: int| 0 <= i < rows ==> (#[trigger] m[i]).len() == cols
}

pub open spec fn cell_set(m: Seq<Seq<Seq<char>>>, r: int, c: int, v: Seq<char>) -> Seq<
    Seq<Seq<char>>,
> {
    m.update(r, m[r].update(c, v))
}

pub open spec fn cell_add(m: Seq<Seq<Seq<char>>>, r: int, c: int, v: Seq<char>) -> Seq<
    Seq<Seq<char>>,
> {
    cell_set(m, r, c, add_text(m[r][c], v))
}

pub open spec fn cell_sub(m: Seq<Seq<Seq<char>>>, r: int, c: int, v: Seq<char>) -> Seq<
    Seq<Seq<char>>,
> {
    cell_set(m, r, c, sub_text(m[r][c], v))
}

pub open spec fn s_text() -> Seq<char> {
    seq!['s']
}

/// The conductance stamp of one element.
pub open spec fn g_step(m: Seq<Seq<Seq<char>>>, b: BranchText) -> Seq<Seq<Seq<char>>> {
    let x = kind_of(b);
    let n1 = unwrap0(b.p_node) as int;
    let n2 = unwrap0(b.n_node) as int;
    let cn1 = unwrap0(b.cp_node) as int;
    let cn2 = unwrap0(b.cn_node) as int;
    if x == 'R' || x == 'C' {
        let g = if x == 'R' {
            recip_text(b.element)
        } else {
            mul_text(s_text(), b.element)
        };
        let m1 = if n1 != 0 && n2 != 0 {
            cell_sub(cell_sub(m, n1 - 1, n2 - 1, g), n2 - 1, n1 - 1, g)
        } else {
            m
        };
        let m2 = if n1 != 0 {
            cell_add(m1, n1 - 1, n1 - 1, g)
        } else {
            m1
        };
        if n2 != 0 {
            cell_add(m2, n2 - 1, n2 - 1, g)
        } else {
            m2
        }
    } else if x == 'G' {
        let g = vccs_gain(b);
        let m1 = if n1 != 0 && cn1 != 0 {
            cell_add(m, n1 - 1, cn1 - 1, g)
        } else {
            m
        };
        let m2 = if n2 != 0 && cn2 != 0 {
            cell_add(m1, n2 - 1, cn2 - 1, g)
        } else {
            m1
        };
        let m3 = if n1 != 0 && cn2 != 0 {
            cell_sub(m2, n1 - 1, cn2 - 1, g)
        } else {
            m2
        };
        if n2 != 0 && cn1 != 0 {
            cell_sub(m3, n2 - 1, cn1 - 1, g)
        } else {
            m3
        }
    } else {
        m
    }
}

/// The conductance matrix after stamping the elements in order.
pub open spec fn g_fold(df: Seq<BranchText>, m: Seq<Seq<Seq<char>>>) -> Seq<Seq<Seq<char>>>
    decreases df.len(),
{
    if df.len() == 0 {
        m
    } else {
        g_step(g_fold(df.drop_last(), m), df.last())
    }
}

/// `1` at the positive node and `-1` at the negative node of column `col`.
pub open spec fn column_stamp(m: Seq<Seq<Seq<char>>>, col: int, n1: int, n2: int) -> Seq<
    Seq<Seq<char>>,
> {
    let m1 = if n1 != 0 {
        cell_set(m, n1 - 1, col, one_text())
    } else {
        m
    };
    if n2 != 0 {
        cell_set(m1, n2 - 1, col, neg_text(one_text()))
    } else {
        m1
    }
}

/// `1` at the positive node and `-1` at the negative node of row `row`.
pub open spec fn row_stamp(m: Seq<Seq<Seq<char>>>, row: int, n1: int, n2: int) -> Seq<
    Seq<Seq<char>>,
> {
    let m1 = if n1 != 0 {
        cell_set(m, row, n1 - 1, one_text())
    } else {
        m
    };
    if n2 != 0 {
        cell_set(m1, row, n2 - 1, neg_text(one_text()))
    } else {
        m1
    }
}

/// Number of elements with an unknown current.
pub open spec fn unknown_count(df: Seq<BranchText>) -> nat
    decreases df.len(),
{
    if df.len() == 0 {
        0
    } else {
        unknown_count(df.drop_last()) + if has_current_unknown(kind_of(df.last())) {
            1nat
        } else {
            0nat
        }
    }
}

/// The B matrix after stamping the elements in order; the column of each
/// element with an unknown current is its rank among those elements.
pub open spec fn b_fold(df: Seq<BranchText>, m: Seq<Seq<Seq<char>>>) -> Seq<Seq<Seq<char>>>
    decreases df.len(),
{
    if df.len() == 0 {
        m
    } else {
        let prev = b_fold(df.drop_last(), m);
        let b = df.last();
        let x = kind_of(b);
        let sn = unknown_count(df.drop_last()) as int;
        if x == 'V' || x == 'H' || x == 'F' || x == 'E' || x == 'L' {
            column_stamp(prev, sn, unwrap0(b.p_node) as int, unwrap0(b.n_node) as int)
        } else if x == 'O' {
            if unwrap0(b.vout) != 0 {
                cell_set(prev, unwrap0(b.vout) - 1, sn, one_text())
            } else {
                prev
            }
        } else {
            prev
        }
    }
}

/// The C matrix after stamping the elements in order.
pub open spec fn c_fold(df: Seq<BranchText>, m: Seq<Seq<Seq<char>>>) -> Seq<Seq<Seq<char>>>
    decreases df.len(),
{
    if df.len() == 0 {
        m
    } else {
        let prev = c_fold(df.drop_last(), m);
        let b = df.last();
        let x = kind_of(b);
        let sn = unknown_count(df.drop_last()) as int;
        if x == 'V' || x == 'O' || x == 'H' || x == 'L' {
            row_stamp(prev, sn, unwrap0(b.p_node) as int, unwrap0(b.n_node) as int)
        } else if x == 'E' {
            let m1 = row_stamp(prev, sn, unwrap0(b.p_node) as int, unwrap0(b.n_node) as int);
            let gain = lowercase_of(b.element);
            let m2 = if unwrap0(b.cp_node) != 0 {
                cell_set(m1, sn, unwrap0(b.cp_node) - 1, neg_text(gain))
            } else {
                m1
            };
            if unwrap0(b.cn_node) != 0 {
                cell_set(m2, sn, unwrap0(b.cn_node) - 1, gain)
            } else {
                m2
            }
        } else {
            prev
        }
    }
}

pub open spec fn opt_text(o: Option<Seq<char>>) -> Seq<char> {
    match o {
        Some(s) => s,
        None => seq![],
    }
}

/// `s` without its leading `c` characters.
pub open spec fn strip_leading(s: Seq<char>, c: char) -> Seq<char>
    decreases s.len(),
{
    if s.len() > 0 && s[0] == c {
        strip_leading(s.drop_first(), c)
    } else {
        s
    }
}

/// The D matrix after stamping the elements in order, or the first named
/// controlling current or coupled inductor that has no unknown current.
pub open spec fn d_fold(
    df: Seq<BranchText>,
    df2: Seq<CurrentUnknownText>,
    m: Seq<Seq<Seq<char>>>,
) -> Result<Seq<Seq<Seq<char>>>, SmnaErrorText>
    decreases df.len(),
{
    if df.len() == 0 {
        Ok(m)
    } else {
        match d_fold(df.drop_last(), df2, m) {
            Err(e) => Err(e),
            Ok(prev) => {
                let b = df.last();
                let x = kind_of(b);
                let sn = unknown_count(df.drop_last()) as int;
                if x == 'L' {
                    Ok(cell_add(prev, sn, sn, neg_text(mul_text(s_text(), b.element))))
                } else if x == 'H' || x == 'F' {
                    let name = opt_text(b.vname);
                    match find_unknown(df2, name) {
                        None => Err(SmnaErrorText::MissingBranch { name }),
                        Some(idx) => {
                            let m1 = cell_add(prev, sn, idx as int, neg_text(lowercase_of(b.element)));
                            if x == 'F' {
                                Ok(cell_set(m1, sn, sn, one_text()))
                            } else {
                                Ok(m1)
                            }
                        },
                    }
                } else if x == 'K' {
                    let l1 = opt_text(b.lname1);
                    let l2 = opt_text(b.lname2);
                    match find_unknown(df2, l1) {
                        None => Err(SmnaErrorText::MissingBranch { name: l1 }),
                        Some(i1) => match find_unknown(df2, l2) {
                            None => Err(SmnaErrorText::MissingBranch { name: l2 }),
                            Some(i2) => {
                                let suffix = strip_leading(lowercase_of(b.element), 'k');
                                let mutual = neg_text(mul_text(s_text(), seq!['M'] + suffix));
                                Ok(
                                    cell_add(
                                        cell_add(prev, i1 as int, i2 as int, mutual),
                                        i2 as int,
                                        i1 as int,
                                        mutual,
                                    ),
                                )
                            },
                        },
                    }
                } else {
                    Ok(prev)
                }
            },
        }
    }
}

/// The current-source vector after stamping the current sources in order.
pub open spec fn i_fold(df: Seq<BranchText>, v: Seq<Seq<char>>) -> Seq<Seq<char>>
    decreases df.len(),
{
    if df.len() == 0 {
        v
    } else {
        let prev = i_fold(df.drop_last(), v);
        let b = df.last();
        if kind_of(b) == 'I' {
            let n1 = unwrap0(b.p_node) as int;
            let n2 = unwrap0(b.n_node) as int;
            let v1 = if n1 != 0 {
                prev.update(n1 - 1, sub_text(prev[n1 - 1], b.element))
            } else {
                prev
            };
            if n2 != 0 {
                v1.update(n2 - 1, add_text(v1[n2 - 1], b.element))
            } else {
                v1
            }
        } else {
            prev
        }
    }
}

/// Number of voltage sources.
pub open spec fn voltage_count(df: Seq<BranchText>) -> nat
    decreases df.len(),
{
    if df.len() == 0 {
        0
    } else {
        voltage_count(df.drop_last()) + if kind_of(df.last()) == 'V' {
            1nat
        } else {
            0nat
        }
    }
}

/// The source-voltage vector: the `k`-th voltage source at entry `k`.
pub open spec fn ev_fold(df: Seq<BranchText>, v: Seq<Seq<char>>) -> Seq<Seq<char>>
    decreases df.len(),
{
    if df.len() == 0 {
        v
    } else {
        let prev = ev_fold(df.drop_last(), v);
        if kind_of(df.last()) == 'V' {
            prev.update(voltage_count(df.drop_last()) as int, df.last().element)
        } else {
            prev
        }
    }
}

/// Control and output nodes within the node count, which the stamps index by.
pub open spec fn control_nodes_fit(df: Seq<BranchText>, n: nat) -> bool {
    forall|i: int|
        0 <= i < df.len() ==> {
            let b = #[trigger] df[i];
            &&& (kind_of(b) == 'G' || kind_of(b) == 'E') ==> unwrap0(b.cp_node) <= n && unwrap0(
                b.cn_node,
            ) <= n
            &&& kind_of(b) == 'O' ==> unwrap0(b.vout) <= n
        }
}

// ---------------------------------------------------------------------------
// The whole analysis
// ---------------------------------------------------------------------------
/// The result of the analysis, by its text.
pub struct SmnaText {
    pub report: Seq<char>,
    pub df: Seq<BranchText>,
    pub df2: Seq<CurrentUnknownText>,
    pub a: Seq<Seq<Seq<char>>>,
    pub x: Seq<Seq<char>>,
    pub z: Seq<Seq<char>>,
}

/// The unknowns: node voltages `v1..vN`, then `I_<element>` per unknown current.
pub open spec fn unknowns_spec(n: nat, df2: Seq<CurrentUnknownText>) -> Seq<Seq<char>> {
    Seq::new(n, |k: int| seq!['v'] + dec((k + 1) as nat)) + df2.map_values(
        |u: CurrentUnknownText| seq!['I', '_'] + u.element,
    )
}

/// The system matrix built from its four blocks.
pub open spec fn assemble(
    g: Seq<Seq<Seq<char>>>,
    b: Seq<Seq<Seq<char>>>,
    c: Seq<Seq<Seq<char>>>,
    d: Seq<Seq<Seq<char>>>,
) -> Seq<Seq<Seq<char>>> {
    Seq::new(g.len(), |r: int| g[r] + b[r]) + Seq::new(c.len(), |r: int| c[r] + d[r])
}

pub open spec fn report_spec(c: CountsSpec, line_cnt: nat, num_nodes: nat, i_unk: nat) -> Seq<
    char,
> {
    "Net list report\nnumber of lines in netlist: "@ + dec(line_cnt) + "\nnumber of branches: "@
        + dec(c.branch_cnt) + "\nnumber of nodes: "@ + dec(num_nodes)
        + "\nnumber of unknown currents: "@ + dec(i_unk)
        + "\nnumber of RLC (passive components): "@ + dec(c.num_rlc) + "\nnumber of inductors: "@
        + dec(c.num_ind) + "\nnumber of independent voltage sources: "@ + dec(c.num_v)
        + "\nnumber of independent current sources: "@ + dec(c.num_i) + "\nnumber of op amps: "@
        + dec(c.num_opamps) + "\nnumber of E - VCVS: "@ + dec(c.num_vcvs)
        + "\nnumber of G - VCCS: "@ + dec(c.num_vccs) + "\nnumber of F - CCCS: "@ + dec(
        c.num_cccs,
    ) + "\nnumber of H - CCVS: "@ + dec(c.num_ccvs) + "\nnumber of K - Coupled inductors: "@
        + dec(c.num_cpld_ind) + "\n"@
}

/// The elements after parsing and reordering, when the lines count and parse.
pub open spec fn parsed_spec(net: Seq<char>) -> Result<(CountsSpec, Seq<BranchText>), SmnaErrorText> {
    parsed_lines(preprocess_spec(net))
}

/// The elements of analysed lines after parsing and reordering, when the
/// lines count and parse.
pub open spec fn parsed_lines(content: Seq<Seq<char>>) -> Result<
    (CountsSpec, Seq<BranchText>),
    SmnaErrorText,
> {
    match count_prefix(content, content.len()) {
        Err(e) => Err(e),
        Ok(counts) => match parse_prefix(content, content.len()) {
            Err(e) => Err(e),
            Ok(df0) => Ok((counts, voltage_sources_first(df0))),
        },
    }
}

/// Whether the stamps of the netlist would index outside the matrices: an
/// op amp output or a controlling node of an E or G source beyond the node
/// count.
pub open spec fn smna_out_of_range(net: Seq<char>) -> bool {
    lines_out_of_range(preprocess_spec(net))
}

/// Whether the stamps of analysed lines would index outside the matrices.
pub open spec fn lines_out_of_range(content: Seq<Seq<char>>) -> bool {
    match parsed_lines(content) {
        Err(_) => false,
        Ok((counts, df)) => match node_count_spec(df, content.len()) {
            Err(_) => false,
            Ok(n) => !control_nodes_fit(df, n),
        },
    }
}

/// Symbolic modified nodal analysis of a netlist.
pub open spec fn smna_spec(net: Seq<char>) -> Result<SmnaText, SmnaErrorText> {
    smna_lines_spec(preprocess_spec(net))
}

/// Symbolic modified nodal analysis of analysed lines: lines as the
/// netlist's preparation gives them, without comments, trimmed and in
/// capitals.
pub open spec fn smna_lines_spec(content: Seq<Seq<char>>) -> Result<SmnaText, SmnaErrorText> {
    let line_cnt = content.len();
    match parsed_lines(content) {
        Err(e) => Err(e),
        Ok((counts, df)) => match node_count_spec(df, line_cnt) {
            Err(e) => Err(e),
            Ok(n) => {
                let df2 = current_unknowns_spec(df);
                let u = df2.len();
                match d_fold(df, df2, zeros_text(u, u)) {
                    Err(e) => Err(e),
                    Ok(d) => Ok(
                        SmnaText {
                            report: report_spec(counts, line_cnt, n, u),
                            df,
                            df2,
                            a: assemble(
                                g_fold(df, zeros_text(n, n)),
                                b_fold(df, zeros_text(n, u)),
                                c_fold(df, zeros_text(u, n)),
                                d,
                            ),
                            x: unknowns_spec(n, df2),
                            z: i_fold(df, Seq::new(n, |k: int| zero_text())) + ev_fold(
                                df,
                                Seq::new(u, |k: int| zero_text()),
                            ),
                        },
                    ),
                }
            },
        }
    }
}

} // verus!
