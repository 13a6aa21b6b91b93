use vstd::prelude::*;
pub use crate::mna::expr::Expr;
use crate::mna::expr::{add_text, mul_text, neg_text, one_text, zero_text};
use crate::mna::netlist_spec::{
    b_fold, c_fold, cell_add, cell_set, cell_sub, column_stamp, d_fold, ev_fold, g_fold, i_fold,
    opt_text, row_stamp, s_text, shaped, strip_leading, unknown_count, voltage_count, zeros_text,
    current_unknowns_spec, find_unknown, first_unseen, has_current_unknown, kind_of, largest_node, node_count_spec,
    node_seen, other_elements, touches, unwrap0, voltage_sources, voltage_sources_first,
    capitalize, count_line, count_prefix, expected_tokens, first_char, known_kind, node_of,
    parse_line, parse_prefix, preprocess_spec, process_line, processed_lines, replace_e,
    zero_counts, control_nodes_fit, assemble, unknowns_spec, vccs_gain,
    report_spec, smna_spec, smna_out_of_range, parsed_spec, smna_lines_spec, lines_out_of_range, parsed_lines, SmnaText, BranchText, CountsSpec, CurrentUnknownText, SmnaErrorText,
};
use crate::text::{
    split_lines, lemma_split_lines_nonempty,
    char_to_uppercase, chars_of, push_usize, lowercase_of, str_to_lowercase, join, join_strings, parse_usize, push_str, split_whitespace,
    split_ws, string_of, string_of_range, texts, trim, trim_bounds,
};

verus! {

/// A matrix of expressions, by rows.
pub type Matrix = Vec<Vec<Expr>>;

/// A vector of expressions.
pub type Vector = Vec<Expr>;

pub open spec fn opt_string_text(o: Option<String>) -> Option<Seq<char>> {
    match o {
        Some(s) => Some(s@),
        None => None,
    }
}

/// A parsed netlist element. `value` keeps the value token as written.
#[derive(Debug, Clone, PartialEq)]
pub struct Branch {
    pub element: String,
    pub p_node: Option<usize>,
    pub n_node: Option<usize>,
    pub cp_node: Option<usize>,
    pub cn_node: Option<usize>,
    pub vout: Option<usize>,
    pub value: Option<String>,
    pub vname: Option<String>,
    pub lname1: Option<String>,
    pub lname2: Option<String>,
}

impl View for Branch {
    type V = BranchText;

    open spec fn view(&self) -> BranchText {
        BranchText {
            element: self.element@,
            p_node: self.p_node,
            n_node: self.n_node,
            cp_node: self.cp_node,
            cn_node: self.cn_node,
            vout: self.vout,
            value: opt_string_text(self.value),
            vname: opt_string_text(self.vname),
            lname1: opt_string_text(self.lname1),
            lname2: opt_string_text(self.lname2),
        }
    }
}

pub open spec fn branch_texts(v: Seq<Branch>) -> Seq<BranchText> {
    v.map_values(|b: Branch| b@)
}

/// An element whose current is an unknown of the system.
#[derive(Debug, Clone, PartialEq)]
pub struct CurrentUnknown {
    pub element: String,
    pub p_node: Option<usize>,
    pub n_node: Option<usize>,
}

impl View for CurrentUnknown {
    type V = CurrentUnknownText;

    open spec fn view(&self) -> CurrentUnknownText {
        CurrentUnknownText { element: self.element@, p_node: self.p_node, n_node: self.n_node }
    }
}

pub open spec fn unknown_texts(v: Seq<CurrentUnknown>) -> Seq<CurrentUnknownText> {
    v.map_values(|u: CurrentUnknown| u@)
}

/// The result of symbolic modified nodal analysis: the report, the elements
/// (voltage sources first), the unknown currents, and the system `a·x = z`.
#[derive(Debug, Clone, PartialEq)]
pub struct SmnaResult {
    pub report: String,
    pub df: Vec<Branch>,
    pub df2: Vec<CurrentUnknown>,
    pub a: Matrix,
    pub x: Vector,
    pub z: Vector,
}

/// Why a netlist cannot be analysed.
#[derive(Debug, Clone, PartialEq, Eq)]
pub enum SmnaError {
    UnknownElement { line: usize, content: String },
    BadTokenCount { line: usize, content: String, expected: usize, actual: usize },
    BadNode { token: String },
    BadValue { token: String },
    MissingNode { node: usize },
    MissingBranch { name: String },
}

impl View for SmnaError {
    type V = SmnaErrorText;

    open spec fn view(&self) -> SmnaErrorText {
        match self {
            SmnaError::UnknownElement { line, content } => SmnaErrorText::UnknownElement {
                line: *line as nat,
                content: content@,
            },
            SmnaError::BadTokenCount { line, content, expected, actual } =>
                SmnaErrorText::BadTokenCount {
                line: *line as nat,
                content: content@,
                expected: *expected as nat,
                actual: *actual as nat,
            },
            SmnaError::BadNode { token } => SmnaErrorText::BadNode { token: token@ },
            SmnaError::BadValue { token } => SmnaErrorText::BadValue { token: token@ },
            SmnaError::MissingNode { node } => SmnaErrorText::MissingNode { node: *node as nat },
            SmnaError::MissingBranch { name } => SmnaErrorText::MissingBranch { name: name@ },
        }
    }
}

struct Counts {
    branch_cnt: usize,
    num_rlc: usize,
    num_ind: usize,
    num_v: usize,
    num_i: usize,
    num_opamps: usize,
    num_vcvs: usize,
    num_vccs: usize,
    num_cccs: usize,
    num_ccvs: usize,
    num_cpld_ind: usize,
}

impl View for Counts {
    type V = CountsSpec;

    closed spec fn view(&self) -> CountsSpec {
        CountsSpec {
            branch_cnt: self.branch_cnt as nat,
            num_rlc: self.num_rlc as nat,
            num_ind: self.num_ind as nat,
            num_v: self.num_v as nat,
            num_i: self.num_i as nat,
            num_opamps: self.num_opamps as nat,
            num_vcvs: self.num_vcvs as nat,
            num_vccs: self.num_vccs as nat,
            num_cccs: self.num_cccs as nat,
            num_ccvs: self.num_ccvs as nat,
            num_cpld_ind: self.num_cpld_ind as nat,
        }
    }
}

spec fn counts_within(c: CountsSpec, bound: nat) -> bool {
    &&& c.branch_cnt <= bound
    &&& c.num_rlc <= bound
    &&& c.num_ind <= bound
    &&& c.num_v <= bound
    &&& c.num_i <= bound
    &&& c.num_opamps <= bound
    &&& c.num_vcvs <= bound
    &&& c.num_vccs <= bound
    &&& c.num_cccs <= bound
    &&& c.num_ccvs <= bound
    &&& c.num_cpld_ind <= bound
}

// ---------------------------------------------------------------------------
// Preprocessing
// ---------------------------------------------------------------------------
fn copy_range(v: &Vec<char>, from: usize, to: usize) -> (r: Vec<char>)
    requires
        from <= to <= v.len(),
    ensures
        r@ == v@.subrange(from as int, to as int),
{
    let mut out: Vec<char> = Vec::new();
    let mut i = from;
    while i < to
        invariant
            from <= i <= to <= v.len(),
            out@ == v@.subrange(from as int, i as int),
        decreases to - i,
    {
        out.push(v[i]);
        assert(out@ =~= v@.subrange(from as int, i + 1));
        i = i + 1;
    }
    out
}

/// `line` with its first character replaced by its uppercase mapping.
fn capitalize_first(line: &Vec<char>) -> (r: String)
    ensures
        r@ == capitalize(line@),
{
    if line.len() == 0 {
        String::new()
    } else {
        let mut s = char_to_uppercase(line[0]);
        let rest = string_of_range(line, 1, line.len());
        push_str(&mut s, rest.as_str());
        assert(line@.drop_first() =~= line@.subrange(1, line.len() as int));
        s
    }
}

/// `capitalize` of a string.
fn capitalize_str(s: &str) -> (r: String)
    ensures
        r@ == capitalize(s@),
{
    let v = chars_of(s);
    capitalize_first(&v)
}

fn process_raw_line(raw: &Vec<char>) -> (r: Option<String>)
    ensures
        match r {
            Some(s) => process_line(raw@) == Some(s@),
            None => process_line(raw@) is None,
        },
{
    let (a, b) = trim_bounds(raw);
    if a == b {
        return None;
    }
    let first = raw[a];
    assert(trim(raw@)[0] == first);
    if first == '*' || first == ';' || first == '.' {
        return None;
    }
    let t = copy_range(raw, a, b);
    let c = capitalize_first(&t);
    let toks = split_whitespace(c.as_str());
    let joined = join_strings(&toks, " ");
    proof {
        reveal_strlit(" ");
        assert(" "@ =~= seq![' ']);
    }
    Some(joined)
}

/// The analysed lines of a netlist: trimmed, without blank and comment lines,
/// capitalised and with single spaces between fields.
fn preprocess(net_list: &str) -> (r: Vec<String>)
    ensures
        texts(r@) == preprocess_spec(net_list@),
{
    let v = chars_of(net_list);
    let n = v.len();
    let mut out: Vec<String> = Vec::new();
    let mut cur: Vec<char> = Vec::new();
    let mut i: usize = 0;
    assert(v@.take(0) =~= Seq::<char>::empty());
    while i < n
        invariant
            i <= n == v.len(),
            v@ == net_list@,
            split_lines(v@.take(i as int)).len() >= 1,
            texts(out@) == processed_lines(split_lines(v@.take(i as int)).drop_last()),
            cur@ == split_lines(v@.take(i as int)).last(),
        decreases n - i,
    {
        let c = v[i];
        let ghost pre = v@.take(i as int);
        assert(v@.take(i + 1).drop_last() =~= pre);
        assert(v@.take(i + 1).last() == c);
        if c == '\n' {
            let ghost lines = split_lines(pre);
            assert(split_lines(v@.take(i + 1)) == lines.push(seq![]));
            assert(split_lines(v@.take(i + 1)).drop_last() =~= lines);
            assert(lines.drop_last().push(lines.last()) =~= lines);
            let ghost before = texts(out@);
            match process_raw_line(&cur) {
                Some(l) => {
                    out.push(l);
                    assert(texts(out@) =~= before.push(l@));
                },
                None => {},
            }
            cur = Vec::new();
        } else {
            let ghost lines = split_lines(pre);
            assert(split_lines(v@.take(i + 1)) == lines.update(
                lines.len() - 1,
                lines.last().push(c),
            ));
            assert(split_lines(v@.take(i + 1)).drop_last() =~= lines.drop_last());
            cur.push(c);
        }
        i = i + 1;
    }
    assert(v@.take(n as int) =~= v@);
    let ghost lines = split_lines(v@);
    assert(lines.drop_last().push(lines.last()) =~= lines);
    let ghost before = texts(out@);
    match process_raw_line(&cur) {
        Some(l) => {
            out.push(l);
            assert(texts(out@) =~= before.push(l@));
        },
        None => {},
    }
    out
}

// ---------------------------------------------------------------------------
// Counting elements
// ---------------------------------------------------------------------------
fn first_char_of(s: &str) -> (c: char)
    ensures
        c == first_char(s@),
{
    let v = chars_of(s);
    if v.len() > 0 {
        v[0]
    } else {
        '\0'
    }
}

fn expect_tokens(line: usize, content: &String, actual: usize, expected: usize) -> (r: Result<
    (),
    SmnaError,
>)
    ensures
        r is Ok <==> actual == expected,
        r matches Err(e) ==> e@ == (SmnaErrorText::BadTokenCount {
            line: line as nat,
            content: content@,
            expected: expected as nat,
            actual: actual as nat,
        }),
{
    if actual == expected {
        Ok(())
    } else {
        Err(SmnaError::BadTokenCount { line, content: content.clone(), expected, actual })
    }
}

proof fn lemma_count_err_stays(content: Seq<Seq<char>>, k: nat, m: nat)
    requires
        k <= m,
        count_prefix(content, k) is Err,
    ensures
        count_prefix(content, m) == count_prefix(content, k),
    decreases m - k,
{
    if k < m {
        lemma_count_err_stays(content, k, (m - 1) as nat);
    }
}

proof fn lemma_parse_err_stays(content: Seq<Seq<char>>, k: nat, m: nat)
    requires
        k <= m,
        parse_prefix(content, k) is Err,
    ensures
        parse_prefix(content, m) == parse_prefix(content, k),
    decreases m - k,
{
    if k < m {
        lemma_parse_err_stays(content, k, (m - 1) as nat);
    }
}

fn count_elements(content: &Vec<String>) -> (r: Result<Counts, SmnaError>)
    ensures
        match r {
            Ok(c) => count_prefix(texts(content@), content.len() as nat) == Ok::<
                CountsSpec,
                SmnaErrorText,
            >(c@),
            Err(e) => count_prefix(texts(content@), content.len() as nat) == Err::<
                CountsSpec,
                SmnaErrorText,
            >(e@),
        },
{
    let ghost lines = texts(content@);
    let mut c = Counts {
        branch_cnt: 0,
        num_rlc: 0,
        num_ind: 0,
        num_v: 0,
        num_i: 0,
        num_opamps: 0,
        num_vcvs: 0,
        num_vccs: 0,
        num_cccs: 0,
        num_ccvs: 0,
        num_cpld_ind: 0,
    };
    let mut i: usize = 0;
    while i < content.len()
        invariant
            i <= content.len(),
            lines == texts(content@),
            count_prefix(lines, i as nat) == Ok::<CountsSpec, SmnaErrorText>(c@),
            counts_within(c@, i as nat),
        decreases content.len() - i,
    {
        let item = &content[i];
        let kind = first_char_of(item.as_str());
        let actual = split_whitespace(item.as_str()).len();
        assert(lines[i as int] == item@);
        let expected: usize = if kind == 'E' || kind == 'G' {
            6
        } else if kind == 'F' || kind == 'H' {
            5
        } else {
            4
        };
        let known = kind == 'R' || kind == 'L' || kind == 'C' || kind == 'V' || kind == 'I' || kind
            == 'O' || kind == 'E' || kind == 'G' || kind == 'F' || kind == 'H' || kind == 'K';
        if !known {
            let e = SmnaError::UnknownElement { line: i, content: item.clone() };
            proof {
                lemma_count_err_stays(lines, (i + 1) as nat, content.len() as nat);
            }
            return Err(e);
        }
        match expect_tokens(i, item, actual, expected) {
            Err(e) => {
                proof {
                    lemma_count_err_stays(lines, (i + 1) as nat, content.len() as nat);
                }
                return Err(e);
            },
            Ok(()) => {},
        }
        if kind == 'R' || kind == 'L' || kind == 'C' {
            c.num_rlc = c.num_rlc + 1;
            c.branch_cnt = c.branch_cnt + 1;
            if kind == 'L' {
                c.num_ind = c.num_ind + 1;
            }
        } else if kind == 'V' {
            c.num_v = c.num_v + 1;
            c.branch_cnt = c.branch_cnt + 1;
        } else if kind == 'I' {
            c.num_i = c.num_i + 1;
            c.branch_cnt = c.branch_cnt + 1;
        } else if kind == 'O' {
            c.num_opamps = c.num_opamps + 1;
        } else if kind == 'E' {
            c.num_vcvs = c.num_vcvs + 1;
            c.branch_cnt = c.branch_cnt + 1;
        } else if kind == 'G' {
            c.num_vccs = c.num_vccs + 1;
            c.branch_cnt = c.branch_cnt + 1;
        } else if kind == 'F' {
            c.num_cccs = c.num_cccs + 1;
            c.branch_cnt = c.branch_cnt + 1;
        } else if kind == 'H' {
            c.num_ccvs = c.num_ccvs + 1;
            c.branch_cnt = c.branch_cnt + 1;
        } else {
            c.num_cpld_ind = c.num_cpld_ind + 1;
        }
        i = i + 1;
    }
    Ok(c)
}

/// A line that counted: a known element letter and the right number of fields.
pub open spec fn line_counts(item: Seq<char>) -> bool {
    known_kind(first_char(item)) && split_ws(item).len() == expected_tokens(first_char(item))
}

proof fn lemma_count_line_ok(c: CountsSpec, line: nat, item: Seq<char>)
    requires
        count_line(c, line, item) is Ok,
    ensures
        line_counts(item),
{
}

proof fn lemma_count_prefix_ok(content: Seq<Seq<char>>, k: nat)
    requires
        k <= content.len(),
        count_prefix(content, k) is Ok,
    ensures
        forall|j: int| 0 <= j < k ==> line_counts(#[trigger] content[j]),
    decreases k,
{
    if k > 0 {
        let prev = count_prefix(content, (k - 1) as nat);
        if prev is Err {
            assert(count_prefix(content, k) is Err);
        }
        lemma_count_prefix_ok(content, (k - 1) as nat);
        lemma_count_line_ok(prev->Ok_0, (k - 1) as nat, content[k - 1]);
    }
}

// ---------------------------------------------------------------------------
// Parsing elements
// ---------------------------------------------------------------------------
fn parse_node(token: &String) -> (r: Result<usize, SmnaError>)
    ensures
        match r {
            Ok(n) => node_of(token@) == Ok::<usize, SmnaErrorText>(n),
            Err(e) => node_of(token@) == Err::<usize, SmnaErrorText>(e@),
        },
{
    match parse_usize(token.as_str()) {
        Some(n) => Ok(n),
        None => Err(SmnaError::BadNode { token: token.clone() }),
    }
}

fn replace_e_str(s: &String) -> (r: String)
    ensures
        r@ == replace_e(s@),
{
    let v = chars_of(s.as_str());
    let mut out = String::new();
    let mut i: usize = 0;
    while i < v.len()
        invariant
            i <= v.len(),
            v@ == s@,
            out@ == replace_e(v@.take(i as int)),
        decreases v.len() - i,
    {
        let c = v[i];
        assert(v@.take(i + 1).drop_last() =~= v@.take(i as int));
        out.push(c);
        if c == 'E' {
            out.push('a');
        }
        assert(out@ =~= replace_e(v@.take(i + 1)));
        i = i + 1;
    }
    assert(v@.take(v.len() as int) =~= v@);
    out
}

fn parse_one(item: &String) -> (r: Result<Branch, SmnaError>)
    requires
        line_counts(item@),
    ensures
        match r {
            Ok(b) => parse_line(item@) == Ok::<BranchText, SmnaErrorText>(b@),
            Err(e) => parse_line(item@) == Err::<BranchText, SmnaErrorText>(e@),
        },
{
    let tokens = split_whitespace(item.as_str());
    let ghost t = split_ws(item@);
    assert(texts(tokens@) == t);
    assert(tokens@.len() == t.len());
    assert(forall|k: int| 0 <= k < tokens@.len() ==> #[trigger] tokens@[k]@ == t[k]);
    let kind = first_char_of(item.as_str());
    let element = if kind == 'E' {
        replace_e_str(&tokens[0])
    } else {
        tokens[0].clone()
    };
    let mut b = Branch {
        element,
        p_node: None,
        n_node: None,
        cp_node: None,
        cn_node: None,
        vout: None,
        value: None,
        vname: None,
        lname1: None,
        lname2: None,
    };
    if kind == 'R' || kind == 'L' || kind == 'C' || kind == 'V' || kind == 'I' {
        b.p_node = Some(parse_node(&tokens[1])?);
        b.n_node = Some(parse_node(&tokens[2])?);
        b.value = Some(tokens[3].clone());
    } else if kind == 'O' {
        b.p_node = Some(parse_node(&tokens[1])?);
        b.n_node = Some(parse_node(&tokens[2])?);
        b.vout = Some(parse_node(&tokens[3])?);
    } else if kind == 'G' || kind == 'E' {
        b.p_node = Some(parse_node(&tokens[1])?);
        b.n_node = Some(parse_node(&tokens[2])?);
        b.cp_node = Some(parse_node(&tokens[3])?);
        b.cn_node = Some(parse_node(&tokens[4])?);
        b.value = Some(tokens[5].clone());
    } else if kind == 'F' || kind == 'H' {
        b.p_node = Some(parse_node(&tokens[1])?);
        b.n_node = Some(parse_node(&tokens[2])?);
        b.vname = Some(capitalize_str(tokens[3].as_str()));
        b.value = Some(tokens[4].clone());
    } else {
        b.lname1 = Some(capitalize_str(tokens[1].as_str()));
        b.lname2 = Some(capitalize_str(tokens[2].as_str()));
        b.value = Some(tokens[3].clone());
    }
    Ok(b)
}

fn parse_branches(content: &Vec<String>) -> (r: Result<Vec<Branch>, SmnaError>)
    requires
        count_prefix(texts(content@), content.len() as nat) is Ok,
    ensures
        match r {
            Ok(df) => parse_prefix(texts(content@), content.len() as nat) == Ok::<
                Seq<BranchText>,
                SmnaErrorText,
            >(branch_texts(df@)),
            Err(e) => parse_prefix(texts(content@), content.len() as nat) == Err::<
                Seq<BranchText>,
                SmnaErrorText,
            >(e@),
        },
{
    let ghost lines = texts(content@);
    proof {
        lemma_count_prefix_ok(lines, content.len() as nat);
    }
    let mut df: Vec<Branch> = Vec::new();
    assert(branch_texts(df@) =~= Seq::<BranchText>::empty());
    let mut i: usize = 0;
    while i < content.len()
        invariant
            i <= content.len(),
            lines == texts(content@),
            forall|j: int| 0 <= j < content.len() ==> line_counts(#[trigger] lines[j]),
            parse_prefix(lines, i as nat) == Ok::<Seq<BranchText>, SmnaErrorText>(
                branch_texts(df@),
            ),
        decreases content.len() - i,
    {
        assert(lines[i as int] == content@[i as int]@);
        assert(line_counts(lines[i as int]));
        let b = match parse_one(&content[i]) {
            Ok(b) => b,
            Err(e) => {
                proof {
                    lemma_parse_err_stays(lines, (i + 1) as nat, content.len() as nat);
                }
                return Err(e);
            },
        };
        let ghost before = branch_texts(df@);
        df.push(b);
        assert(branch_texts(df@) =~= before.push(b@));
        i = i + 1;
    }
    Ok(df)
}


// ---------------------------------------------------------------------------
// Copies
// ---------------------------------------------------------------------------
fn copy_opt_string(o: &Option<String>) -> (r: Option<String>)
    ensures
        opt_string_text(r) == opt_string_text(*o),
{
    match o {
        Some(s) => Some(s.clone()),
        None => None,
    }
}

impl Branch {
    /// A copy of this element.
    pub fn duplicate(&self) -> (r: Self)
        ensures
            r@ == self@,
    {
        Branch {
            element: self.element.clone(),
            p_node: self.p_node,
            n_node: self.n_node,
            cp_node: self.cp_node,
            cn_node: self.cn_node,
            vout: self.vout,
            value: copy_opt_string(&self.value),
            vname: copy_opt_string(&self.vname),
            lname1: copy_opt_string(&self.lname1),
            lname2: copy_opt_string(&self.lname2),
        }
    }

    /// The element letter: the first character of the element name.
    pub fn kind(&self) -> (c: char)
        ensures
            c == kind_of(self@),
    {
        first_char_of(self.element.as_str())
    }
}

// ---------------------------------------------------------------------------
// Reordering
// ---------------------------------------------------------------------------
fn move_voltage_sources_first(df: &Vec<Branch>) -> (r: Vec<Branch>)
    ensures
        branch_texts(r@) == voltage_sources_first(branch_texts(df@)),
{
    let ghost all = branch_texts(df@);
    let mut source: Vec<Branch> = Vec::new();
    let mut other: Vec<Branch> = Vec::new();
    let mut i: usize = 0;
    assert(all.take(0) =~= Seq::<BranchText>::empty());
    assert(branch_texts(source@) =~= Seq::<BranchText>::empty());
    assert(branch_texts(other@) =~= Seq::<BranchText>::empty());
    while i < df.len()
        invariant
            i <= df.len(),
            all == branch_texts(df@),
            branch_texts(source@) == voltage_sources(all.take(i as int)),
            branch_texts(other@) == other_elements(all.take(i as int)),
        decreases df.len() - i,
    {
        let b = df[i].duplicate();
        assert(all.take(i + 1).drop_last() =~= all.take(i as int));
        assert(all.take(i + 1).last() == b@);
        if b.kind() == 'V' {
            let ghost before = branch_texts(source@);
            source.push(b);
            assert(branch_texts(source@) =~= before.push(b@));
        } else {
            let ghost before = branch_texts(other@);
            other.push(b);
            assert(branch_texts(other@) =~= before.push(b@));
        }
        i = i + 1;
    }
    assert(all.take(df.len() as int) =~= all);
    let ghost s1 = branch_texts(source@);
    let ghost o1 = branch_texts(other@);
    let mut k: usize = 0;
    while k < other.len()
        invariant
            k <= other.len(),
            o1 == branch_texts(other@),
            branch_texts(source@) == s1 + o1.take(k as int),
        decreases other.len() - k,
    {
        let b = other[k].duplicate();
        let ghost before = branch_texts(source@);
        source.push(b);
        assert(branch_texts(source@) =~= before.push(b@));
        assert(o1.take(k + 1) =~= o1.take(k as int).push(o1[k as int]));
        assert(s1 + o1.take(k + 1) =~= (s1 + o1.take(k as int)).push(o1[k as int]));
        k = k + 1;
    }
    assert(o1.take(other.len() as int) =~= o1);
    source
}

// ---------------------------------------------------------------------------
// Nodes
// ---------------------------------------------------------------------------
proof fn lemma_largest_node_bounds(df: Seq<BranchText>)
    ensures
        forall|i: int|
            0 <= i < df.len() && kind_of(#[trigger] df[i]) != 'K' ==> unwrap0(df[i].p_node)
                <= largest_node(df) && unwrap0(df[i].n_node) <= largest_node(df),
    decreases df.len(),
{
    if df.len() > 0 {
        lemma_largest_node_bounds(df.drop_last());
        assert forall|i: int|
            0 <= i < df.len() && kind_of(#[trigger] df[i]) != 'K' implies unwrap0(df[i].p_node)
                <= largest_node(df) && unwrap0(df[i].n_node) <= largest_node(df) by {
            if i < df.len() - 1 {
                assert(df[i] == df.drop_last()[i]);
            }
        }
    }
}

fn count_nodes(df: &Vec<Branch>, line_cnt: usize) -> (r: Result<usize, SmnaError>)
    requires
        line_cnt < usize::MAX,
    ensures
        match r {
            Ok(n) => node_count_spec(branch_texts(df@), line_cnt as nat) == Ok::<
                nat,
                SmnaErrorText,
            >(n as nat),
            Err(e) => node_count_spec(branch_texts(df@), line_cnt as nat) == Err::<
                nat,
                SmnaErrorText,
            >(e@),
        },
{
    let ghost all = branch_texts(df@);
    let mut present: Vec<bool> = Vec::new();
    let mut k: usize = 0;
    while k < line_cnt + 1
        invariant
            line_cnt < usize::MAX,
            k <= line_cnt + 1,
            present@.len() == k,
            forall|q: int| 0 <= q < k ==> !(#[trigger] present@[q]),
        decreases line_cnt + 1 - k,
    {
        present.push(false);
        k = k + 1;
    }
    let mut largest: usize = 0;
    let mut i: usize = 0;
    assert(all.take(0) =~= Seq::<BranchText>::empty());
    while i < df.len()
        invariant
            i <= df.len(),
            all == branch_texts(df@),
            present@.len() == line_cnt + 1,
            largest as nat == largest_node(all.take(i as int)),
            forall|q: int|
                0 <= q < present@.len() ==> (#[trigger] present@[q] <==> exists|j: int|
                    0 <= j < i && touches(all[j], q as nat)),
        decreases df.len() - i,
    {
        let b = &df[i];
        assert(all[i as int] == b@);
        assert(all.take(i + 1).drop_last() =~= all.take(i as int));
        assert(all.take(i + 1).last() == b@);
        if b.kind() != 'K' {
            match b.p_node {
                Some(p) => {
                    if p < present.len() {
                        present.set(p, true);
                    }
                    if p > largest {
                        largest = p;
                    }
                },
                None => {},
            }
            match b.n_node {
                Some(n) => {
                    if n < present.len() {
                        present.set(n, true);
                    }
                    if n > largest {
                        largest = n;
                    }
                },
                None => {},
            }
        }
        assert forall|q: int| 0 <= q < present@.len() implies (#[trigger] present@[q] <==> exists|
            j: int,
        | 0 <= j < i + 1 && touches(all[j], q as nat)) by {
            if present@[q] {
                if !(exists|j: int| 0 <= j < i && touches(all[j], q as nat)) {
                    assert(touches(all[i as int], q as nat));
                }
            } else {
                if exists|j: int| 0 <= j < i + 1 && touches(all[j], q as nat) {
                    let j = choose|j: int| 0 <= j < i + 1 && touches(all[j], q as nat);
                    assert(j == i);
                }
            }
        }
        i = i + 1;
    }
    assert(all.take(df.len() as int) =~= all);
    let mut node: usize = 1;
    while node < largest
        invariant
            1 <= node,
            all == branch_texts(df@),
            largest as nat == largest_node(all),
            present@.len() == line_cnt + 1,
            forall|q: int|
                0 <= q < present@.len() ==> (#[trigger] present@[q] <==> exists|j: int|
                    0 <= j < df.len() && touches(all[j], q as nat)),
            first_unseen(all, line_cnt as nat, 1, largest as nat) == first_unseen(
                all,
                line_cnt as nat,
                node as nat,
                largest as nat,
            ),
        decreases largest - node,
    {
        let seen = node < present.len() && present[node];
        assert(seen == node_seen(all, line_cnt as nat, node as nat));
        if !seen {
            return Err(SmnaError::MissingNode { node });
        }
        node = node + 1;
    }
    Ok(largest)
}

// ---------------------------------------------------------------------------
// Unknown currents
// ---------------------------------------------------------------------------
fn is_current_kind(x: char) -> (r: bool)
    ensures
        r == has_current_unknown(x),
{
    x == 'L' || x == 'V' || x == 'O' || x == 'E' || x == 'H' || x == 'F'
}

fn current_unknowns(df: &Vec<Branch>) -> (r: Vec<CurrentUnknown>)
    ensures
        unknown_texts(r@) == current_unknowns_spec(branch_texts(df@)),
{
    let ghost all = branch_texts(df@);
    let mut out: Vec<CurrentUnknown> = Vec::new();
    let mut i: usize = 0;
    assert(all.take(0) =~= Seq::<BranchText>::empty());
    assert(unknown_texts(out@) =~= Seq::<CurrentUnknownText>::empty());
    while i < df.len()
        invariant
            i <= df.len(),
            all == branch_texts(df@),
            unknown_texts(out@) == current_unknowns_spec(all.take(i as int)),
        decreases df.len() - i,
    {
        let b = &df[i];
        assert(all.take(i + 1).drop_last() =~= all.take(i as int));
        assert(all.take(i + 1).last() == b@);
        if is_current_kind(b.kind()) {
            let u = CurrentUnknown { element: b.element.clone(), p_node: b.p_node, n_node: b.n_node };
            let ghost before = unknown_texts(out@);
            out.push(u);
            assert(unknown_texts(out@) =~= before.push(u@));
        }
        i = i + 1;
    }
    assert(all.take(df.len() as int) =~= all);
    out
}

proof fn lemma_find_unknown_prefix(s: Seq<CurrentUnknownText>, name: Seq<char>, j: int)
    requires
        0 <= j <= s.len(),
        find_unknown(s.take(j), name) is Some,
    ensures
        find_unknown(s, name) == find_unknown(s.take(j), name),
    decreases s.len() - j,
{
    if j < s.len() {
        assert(s.take(j + 1).drop_last() =~= s.take(j));
        lemma_find_unknown_prefix(s, name, j + 1);
    } else {
        assert(s.take(j) =~= s);
    }
}

proof fn lemma_find_unknown_bound(s: Seq<CurrentUnknownText>, name: Seq<char>)
    ensures
        find_unknown(s, name) matches Some(i) ==> i < s.len(),
    decreases s.len(),
{
    if s.len() > 0 {
        lemma_find_unknown_bound(s.drop_last(), name);
    }
}

/// Index of the first unknown current with the given element name.
fn find_vname(df2: &Vec<CurrentUnknown>, name: &String) -> (r: Option<usize>)
    ensures
        match r {
            Some(i) => find_unknown(unknown_texts(df2@), name@) == Some(i as nat),
            None => find_unknown(unknown_texts(df2@), name@) is None,
        },
        r matches Some(i) ==> i < df2.len(),
{
    let ghost all = unknown_texts(df2@);
    let mut k: usize = 0;
    assert(all.take(0) =~= Seq::<CurrentUnknownText>::empty());
    while k < df2.len()
        invariant
            k <= df2.len(),
            all == unknown_texts(df2@),
            find_unknown(all.take(k as int), name@) is None,
        decreases df2.len() - k,
    {
        assert(all.take(k + 1).drop_last() =~= all.take(k as int));
        assert(all.take(k + 1).last() == df2@[k as int]@);
        if df2[k].element == *name {
            proof {
                lemma_find_unknown_prefix(all, name@, k + 1);
            }
            return Some(k);
        }
        k = k + 1;
    }
    assert(all.take(df2.len() as int) =~= all);
    None
}


// ---------------------------------------------------------------------------
// Matrix cells
// ---------------------------------------------------------------------------
fn zeros(rows: usize, cols: usize) -> (m: Matrix)
    ensures
        m.deep_view() == zeros_text(rows as nat, cols as nat),
        shaped(m.deep_view(), rows as nat, cols as nat),
{
    let row = zero_vector(cols);
    let mut m: Matrix = Vec::new();
    let mut i: usize = 0;
    while i < rows
        invariant
            i <= rows,
            row.deep_view() == Seq::new(cols as nat, |q: int| zero_text()),
            m@.len() == i,
            forall|q: int| 0 <= q < i ==> (#[trigger] m@[q]).deep_view() == row.deep_view(),
        decreases rows - i,
    {
        let r = copy_row(&row);
        m.push(r);
        i = i + 1;
    }
    assert(m.deep_view() =~= zeros_text(rows as nat, cols as nat)) by {
        assert forall|q: int| 0 <= q < rows implies m.deep_view()[q] == zeros_text(
            rows as nat,
            cols as nat,
        )[q] by {
            assert(m@[q].deep_view() == row.deep_view());
        }
    }
    m
}

fn copy_row(row: &Vec<Expr>) -> (r: Vec<Expr>)
    ensures
        r.deep_view() == row.deep_view(),
{
    let mut out: Vec<Expr> = Vec::new();
    let mut j: usize = 0;
    while j < row.len()
        invariant
            j <= row.len(),
            out@.len() == j,
            forall|q: int| 0 <= q < j ==> (#[trigger] out@[q])@ == row@[q]@,
        decreases row.len() - j,
    {
        out.push(row[j].duplicate());
        j = j + 1;
    }
    assert(out.deep_view() =~= row.deep_view());
    out
}

fn zero_vector(n: usize) -> (v: Vector)
    ensures
        v.deep_view() == Seq::new(n as nat, |k: int| zero_text()),
        v@.len() == n,
{
    let mut v: Vec<Expr> = Vec::new();
    let mut j: usize = 0;
    while j < n
        invariant
            j <= n,
            v@.len() == j,
            forall|q: int| 0 <= q < j ==> (#[trigger] v@[q])@ == zero_text(),
        decreases n - j,
    {
        v.push(Expr::zero());
        j = j + 1;
    }
    assert(v.deep_view() =~= Seq::new(n as nat, |k: int| zero_text()));
    v
}

fn set_cell(
    m: &mut Matrix,
    row: usize,
    col: usize,
    value: Expr,
    Ghost(rows): Ghost<nat>,
    Ghost(cols): Ghost<nat>,
)
    requires
        shaped(old(m).deep_view(), rows, cols),
        row < rows,
        col < cols,
    ensures
        final(m).deep_view() == cell_set(old(m).deep_view(), row as int, col as int, value@),
        shaped(final(m).deep_view(), rows, cols),
{
    assert(m@[row as int].deep_view() == old(m).deep_view()[row as int]);
    let ghost v = value@;
    m[row][col] = value;
    assert(m@[row as int].deep_view() =~= old(m).deep_view()[row as int].update(col as int, v));
    assert(m.deep_view() =~= cell_set(old(m).deep_view(), row as int, col as int, v));
}

fn add_cell(
    m: &mut Matrix,
    row: usize,
    col: usize,
    value: &Expr,
    Ghost(rows): Ghost<nat>,
    Ghost(cols): Ghost<nat>,
)
    requires
        shaped(old(m).deep_view(), rows, cols),
        row < rows,
        col < cols,
    ensures
        final(m).deep_view() == cell_add(old(m).deep_view(), row as int, col as int, value@),
        shaped(final(m).deep_view(), rows, cols),
{
    assert(m@[row as int].deep_view() == old(m).deep_view()[row as int]);
    assert(m@[row as int]@[col as int]@ == old(m).deep_view()[row as int][col as int]);
    let sum = m[row][col].add(value);
    set_cell(m, row, col, sum, Ghost(rows), Ghost(cols));
}

fn sub_cell(
    m: &mut Matrix,
    row: usize,
    col: usize,
    value: &Expr,
    Ghost(rows): Ghost<nat>,
    Ghost(cols): Ghost<nat>,
)
    requires
        shaped(old(m).deep_view(), rows, cols),
        row < rows,
        col < cols,
    ensures
        final(m).deep_view() == cell_sub(old(m).deep_view(), row as int, col as int, value@),
        shaped(final(m).deep_view(), rows, cols),
{
    assert(m@[row as int].deep_view() == old(m).deep_view()[row as int]);
    assert(m@[row as int]@[col as int]@ == old(m).deep_view()[row as int][col as int]);
    let diff = m[row][col].sub(value);
    set_cell(m, row, col, diff, Ghost(rows), Ghost(cols));
}

// ---------------------------------------------------------------------------
// Stamps
// ---------------------------------------------------------------------------
/// Every node that a stamp indexes by is within `n`.
pub open spec fn nodes_fit(df: Seq<BranchText>, n: nat) -> bool {
    forall|i: int|
        0 <= i < df.len() ==> {
            let b = #[trigger] df[i];
            &&& kind_of(b) != 'K' ==> unwrap0(b.p_node) <= n && unwrap0(b.n_node) <= n
            &&& (kind_of(b) == 'G' || kind_of(b) == 'E') ==> unwrap0(b.cp_node) <= n && unwrap0(
                b.cn_node,
            ) <= n
            &&& kind_of(b) == 'O' ==> unwrap0(b.vout) <= n
        }
}

fn node_or_zero(o: Option<usize>) -> (r: usize)
    ensures
        r as nat == unwrap0(o),
{
    match o {
        Some(n) => n,
        None => 0,
    }
}

fn element_expr(b: &Branch) -> (r: Expr)
    ensures
        r@ == b.element@,
{
    Expr::symbol(b.element.as_str())
}

fn controlled_expr(b: &Branch) -> (r: Expr)
    ensures
        r@ == lowercase_of(b.element@),
{
    Expr::from_text(str_to_lowercase(b.element.as_str()))
}

fn vccs_expr(b: &Branch) -> (r: Expr)
    ensures
        r@ == vccs_gain(b@),
{
    match &b.value {
        Some(v) => Expr::symbol(v.as_str()),
        None => controlled_expr(b),
    }
}

fn s_expr() -> (r: Expr)
    ensures
        r@ == s_text(),
{
    let mut s = String::new();
    s.push('s');
    Expr::from_text(s)
}

fn stamp_g(df: &Vec<Branch>, g: &mut Matrix, Ghost(n): Ghost<nat>)
    requires
        shaped(old(g).deep_view(), n, n),
        nodes_fit(branch_texts(df@), n),
    ensures
        final(g).deep_view() == g_fold(branch_texts(df@), old(g).deep_view()),
        shaped(final(g).deep_view(), n, n),
{
    let ghost all = branch_texts(df@);
    let ghost m0 = g.deep_view();
    let mut i: usize = 0;
    assert(all.take(0) =~= Seq::<BranchText>::empty());
    while i < df.len()
        invariant
            i <= df.len(),
            all == branch_texts(df@),
            nodes_fit(all, n),
            shaped(g.deep_view(), n, n),
            g.deep_view() == g_fold(all.take(i as int), m0),
        decreases df.len() - i,
    {
        let b = &df[i];
        assert(all[i as int] == b@);
        assert(all.take(i + 1).drop_last() =~= all.take(i as int));
        assert(all.take(i + 1).last() == b@);
        let x = b.kind();
        let n1 = node_or_zero(b.p_node);
        let n2 = node_or_zero(b.n_node);
        let cn1 = node_or_zero(b.cp_node);
        let cn2 = node_or_zero(b.cn_node);
        if x == 'R' || x == 'C' {
            let v = if x == 'R' {
                element_expr(b).reciprocal()
            } else {
                s_expr().mul(&element_expr(b))
            };
            if n1 != 0 && n2 != 0 {
                sub_cell(g, n1 - 1, n2 - 1, &v, Ghost(n), Ghost(n));
                sub_cell(g, n2 - 1, n1 - 1, &v, Ghost(n), Ghost(n));
            }
            if n1 != 0 {
                add_cell(g, n1 - 1, n1 - 1, &v, Ghost(n), Ghost(n));
            }
            if n2 != 0 {
                add_cell(g, n2 - 1, n2 - 1, &v, Ghost(n), Ghost(n));
            }
        } else if x == 'G' {
            let v = vccs_expr(b);
            if n1 != 0 && cn1 != 0 {
                add_cell(g, n1 - 1, cn1 - 1, &v, Ghost(n), Ghost(n));
            }
            if n2 != 0 && cn2 != 0 {
                add_cell(g, n2 - 1, cn2 - 1, &v, Ghost(n), Ghost(n));
            }
            if n1 != 0 && cn2 != 0 {
                sub_cell(g, n1 - 1, cn2 - 1, &v, Ghost(n), Ghost(n));
            }
            if n2 != 0 && cn1 != 0 {
                sub_cell(g, n2 - 1, cn1 - 1, &v, Ghost(n), Ghost(n));
            }
        }
        i = i + 1;
    }
    assert(all.take(df.len() as int) =~= all);
}

proof fn lemma_unknown_count_prefix(s: Seq<BranchText>, k: int)
    requires
        0 <= k <= s.len(),
    ensures
        unknown_count(s.take(k)) <= unknown_count(s),
        voltage_count(s.take(k)) <= unknown_count(s.take(k)),
    decreases s.len() - k,
{
    lemma_voltage_le_unknown(s.take(k));
    if k < s.len() {
        lemma_unknown_count_prefix(s, k + 1);
        assert(s.take(k + 1).drop_last() =~= s.take(k));
    } else {
        assert(s.take(k) =~= s);
    }
}

proof fn lemma_unknown_le_len(s: Seq<BranchText>)
    ensures
        unknown_count(s) <= s.len(),
    decreases s.len(),
{
    if s.len() > 0 {
        lemma_unknown_le_len(s.drop_last());
    }
}

proof fn lemma_voltage_le_unknown(s: Seq<BranchText>)
    ensures
        voltage_count(s) <= unknown_count(s),
    decreases s.len(),
{
    if s.len() > 0 {
        lemma_voltage_le_unknown(s.drop_last());
    }
}

fn stamp_current_column(
    m: &mut Matrix,
    col: usize,
    n1: usize,
    n2: usize,
    Ghost(rows): Ghost<nat>,
    Ghost(cols): Ghost<nat>,
)
    requires
        shaped(old(m).deep_view(), rows, cols),
        col < cols,
        n1 <= rows,
        n2 <= rows,
    ensures
        final(m).deep_view() == column_stamp(old(m).deep_view(), col as int, n1 as int, n2 as int),
        shaped(final(m).deep_view(), rows, cols),
{
    if n1 != 0 {
        set_cell(m, n1 - 1, col, Expr::one(), Ghost(rows), Ghost(cols));
    }
    if n2 != 0 {
        set_cell(m, n2 - 1, col, Expr::one().neg(), Ghost(rows), Ghost(cols));
    }
}

fn stamp_current_row(
    m: &mut Matrix,
    row: usize,
    n1: usize,
    n2: usize,
    Ghost(rows): Ghost<nat>,
    Ghost(cols): Ghost<nat>,
)
    requires
        shaped(old(m).deep_view(), rows, cols),
        row < rows,
        n1 <= cols,
        n2 <= cols,
    ensures
        final(m).deep_view() == row_stamp(old(m).deep_view(), row as int, n1 as int, n2 as int),
        shaped(final(m).deep_view(), rows, cols),
{
    if n1 != 0 {
        set_cell(m, row, n1 - 1, Expr::one(), Ghost(rows), Ghost(cols));
    }
    if n2 != 0 {
        set_cell(m, row, n2 - 1, Expr::one().neg(), Ghost(rows), Ghost(cols));
    }
}

fn stamp_b(df: &Vec<Branch>, b: &mut Matrix, Ghost(n): Ghost<nat>, Ghost(u): Ghost<nat>)
    requires
        shaped(old(b).deep_view(), n, u),
        nodes_fit(branch_texts(df@), n),
        unknown_count(branch_texts(df@)) == u,
    ensures
        final(b).deep_view() == b_fold(branch_texts(df@), old(b).deep_view()),
        shaped(final(b).deep_view(), n, u),
{
    let ghost all = branch_texts(df@);
    let ghost m0 = b.deep_view();
    let mut i: usize = 0;
    let mut sn: usize = 0;
    assert(all.take(0) =~= Seq::<BranchText>::empty());
    while i < df.len()
        invariant
            i <= df.len(),
            all == branch_texts(df@),
            nodes_fit(all, n),
            unknown_count(all) == u,
            sn as nat == unknown_count(all.take(i as int)),
            shaped(b.deep_view(), n, u),
            b.deep_view() == b_fold(all.take(i as int), m0),
        decreases df.len() - i,
    {
        let br = &df[i];
        assert(all[i as int] == br@);
        assert(all.take(i + 1).drop_last() =~= all.take(i as int));
        assert(all.take(i + 1).last() == br@);
        proof {
            lemma_unknown_count_prefix(all, i + 1);
            lemma_unknown_le_len(all);
        }
        let x = br.kind();
        if x == 'V' || x == 'H' || x == 'F' || x == 'E' || x == 'L' {
            stamp_current_column(
                b,
                sn,
                node_or_zero(br.p_node),
                node_or_zero(br.n_node),
                Ghost(n),
                Ghost(u),
            );
            sn = sn + 1;
        } else if x == 'O' {
            let vout = node_or_zero(br.vout);
            if vout != 0 {
                set_cell(b, vout - 1, sn, Expr::one(), Ghost(n), Ghost(u));
            }
            sn = sn + 1;
        }
        i = i + 1;
    }
    assert(all.take(df.len() as int) =~= all);
}

fn stamp_c(df: &Vec<Branch>, c: &mut Matrix, Ghost(n): Ghost<nat>, Ghost(u): Ghost<nat>)
    requires
        shaped(old(c).deep_view(), u, n),
        nodes_fit(branch_texts(df@), n),
        unknown_count(branch_texts(df@)) == u,
    ensures
        final(c).deep_view() == c_fold(branch_texts(df@), old(c).deep_view()),
        shaped(final(c).deep_view(), u, n),
{
    let ghost all = branch_texts(df@);
    let ghost m0 = c.deep_view();
    let mut i: usize = 0;
    let mut sn: usize = 0;
    assert(all.take(0) =~= Seq::<BranchText>::empty());
    while i < df.len()
        invariant
            i <= df.len(),
            all == branch_texts(df@),
            nodes_fit(all, n),
            unknown_count(all) == u,
            sn as nat == unknown_count(all.take(i as int)),
            shaped(c.deep_view(), u, n),
            c.deep_view() == c_fold(all.take(i as int), m0),
        decreases df.len() - i,
    {
        let br = &df[i];
        assert(all[i as int] == br@);
        assert(all.take(i + 1).drop_last() =~= all.take(i as int));
        assert(all.take(i + 1).last() == br@);
        proof {
            lemma_unknown_count_prefix(all, i + 1);
            lemma_unknown_le_len(all);
        }
        let x = br.kind();
        if x == 'V' || x == 'O' || x == 'H' || x == 'L' {
            stamp_current_row(
                c,
                sn,
                node_or_zero(br.p_node),
                node_or_zero(br.n_node),
                Ghost(u),
                Ghost(n),
            );
            sn = sn + 1;
        } else if x == 'F' {
            sn = sn + 1;
        } else if x == 'E' {
            stamp_current_row(
                c,
                sn,
                node_or_zero(br.p_node),
                node_or_zero(br.n_node),
                Ghost(u),
                Ghost(n),
            );
            let gain = controlled_expr(br);
            let cn1 = node_or_zero(br.cp_node);
            let cn2 = node_or_zero(br.cn_node);
            if cn1 != 0 {
                set_cell(c, sn, cn1 - 1, gain.neg(), Ghost(u), Ghost(n));
            }
            if cn2 != 0 {
                set_cell(c, sn, cn2 - 1, gain, Ghost(u), Ghost(n));
            }
            sn = sn + 1;
        }
        i = i + 1;
    }
    assert(all.take(df.len() as int) =~= all);
}

proof fn lemma_d_err_stays(
    s: Seq<BranchText>,
    df2: Seq<CurrentUnknownText>,
    m0: Seq<Seq<Seq<char>>>,
    k: int,
    j: int,
)
    requires
        0 <= k <= j <= s.len(),
        d_fold(s.take(k), df2, m0) is Err,
    ensures
        d_fold(s.take(j), df2, m0) == d_fold(s.take(k), df2, m0),
    decreases j - k,
{
    if k < j {
        lemma_d_err_stays(s, df2, m0, k, j - 1);
        assert(s.take(j).drop_last() =~= s.take(j - 1));
    }
}

fn strip_leading_k(s: &String) -> (r: String)
    ensures
        r@ == strip_leading(s@, 'k'),
{
    let v = chars_of(s.as_str());
    let mut i: usize = 0;
    assert(v@.skip(0) =~= v@);
    while i < v.len() && v[i] == 'k'
        invariant
            i <= v.len(),
            v@ == s@,
            strip_leading(s@, 'k') == strip_leading(v@.skip(i as int), 'k'),
        decreases v.len() - i,
    {
        assert(v@.skip(i as int).drop_first() =~= v@.skip(i + 1));
        i = i + 1;
    }
    assert(v@.skip(i as int) =~= v@.subrange(i as int, v.len() as int));
    string_of_range(&v, i, v.len())
}

fn mutual_expr(b: &Branch) -> (r: Expr)
    ensures
        r@ == neg_text(mul_text(s_text(), seq!['M'] + strip_leading(lowercase_of(b.element@), 'k'))),
{
    let lower = str_to_lowercase(b.element.as_str());
    let suffix = strip_leading_k(&lower);
    let mut name = String::new();
    name.push('M');
    push_str(&mut name, suffix.as_str());
    s_expr().mul(&Expr::from_text(name)).neg()
}

fn name_or_empty(o: &Option<String>) -> (r: String)
    ensures
        r@ == opt_text(opt_string_text(*o)),
{
    match o {
        Some(s) => s.clone(),
        None => String::new(),
    }
}

fn stamp_d(
    df: &Vec<Branch>,
    df2: &Vec<CurrentUnknown>,
    d: &mut Matrix,
    Ghost(u): Ghost<nat>,
) -> (r: Result<(), SmnaError>)
    requires
        shaped(old(d).deep_view(), u, u),
        unknown_count(branch_texts(df@)) == u,
        df2.len() == u,
    ensures
        match r {
            Ok(()) => d_fold(branch_texts(df@), unknown_texts(df2@), old(d).deep_view()) == Ok::<
                Seq<Seq<Seq<char>>>,
                SmnaErrorText,
            >(final(d).deep_view()),
            Err(e) => d_fold(branch_texts(df@), unknown_texts(df2@), old(d).deep_view()) == Err::<
                Seq<Seq<Seq<char>>>,
                SmnaErrorText,
            >(e@),
        },
        r is Ok ==> shaped(final(d).deep_view(), u, u),
{
    let ghost all = branch_texts(df@);
    let ghost us = unknown_texts(df2@);
    let ghost m0 = d.deep_view();
    let mut i: usize = 0;
    let mut sn: usize = 0;
    assert(all.take(0) =~= Seq::<BranchText>::empty());
    while i < df.len()
        invariant
            i <= df.len(),
            all == branch_texts(df@),
            us == unknown_texts(df2@),
            m0 == old(d).deep_view(),
            df2.len() == u,
            unknown_count(all) == u,
            sn as nat == unknown_count(all.take(i as int)),
            shaped(d.deep_view(), u, u),
            d_fold(all.take(i as int), us, m0) == Ok::<Seq<Seq<Seq<char>>>, SmnaErrorText>(
                d.deep_view(),
            ),
        decreases df.len() - i,
    {
        let br = &df[i];
        assert(all[i as int] == br@);
        assert(all.take(i + 1).drop_last() =~= all.take(i as int));
        assert(all.take(i + 1).last() == br@);
        proof {
            lemma_unknown_count_prefix(all, i + 1);
            lemma_unknown_le_len(all);
            lemma_find_unknown_bound(us, opt_text(br@.vname));
        }
        let x = br.kind();
        if x == 'V' || x == 'O' || x == 'E' {
            sn = sn + 1;
        } else if x == 'L' {
            let v = s_expr().mul(&element_expr(br)).neg();
            add_cell(d, sn, sn, &v, Ghost(u), Ghost(u));
            sn = sn + 1;
        } else if x == 'H' || x == 'F' {
            let name = name_or_empty(&br.vname);
            match find_vname(df2, &name) {
                None => {
                    proof {
                        lemma_d_err_stays(all, us, m0, i + 1, df.len() as int);
                        assert(all.take(df.len() as int) =~= all);
                    }
                    return Err(SmnaError::MissingBranch { name });
                },
                Some(index) => {
                    let v = controlled_expr(br).neg();
                    add_cell(d, sn, index, &v, Ghost(u), Ghost(u));
                    if x == 'F' {
                        set_cell(d, sn, sn, Expr::one(), Ghost(u), Ghost(u));
                    }
                },
            }
            sn = sn + 1;
        } else if x == 'K' {
            let l1 = name_or_empty(&br.lname1);
            let l2 = name_or_empty(&br.lname2);
            let ind1 = match find_vname(df2, &l1) {
                None => {
                    proof {
                        lemma_d_err_stays(all, us, m0, i + 1, df.len() as int);
                        assert(all.take(df.len() as int) =~= all);
                    }
                    return Err(SmnaError::MissingBranch { name: l1 });
                },
                Some(k) => k,
            };
            let ind2 = match find_vname(df2, &l2) {
                None => {
                    proof {
                        lemma_d_err_stays(all, us, m0, i + 1, df.len() as int);
                        assert(all.take(df.len() as int) =~= all);
                    }
                    return Err(SmnaError::MissingBranch { name: l2 });
                },
                Some(k) => k,
            };
            let mutual = mutual_expr(br);
            add_cell(d, ind1, ind2, &mutual, Ghost(u), Ghost(u));
            add_cell(d, ind2, ind1, &mutual, Ghost(u), Ghost(u));
        }
        i = i + 1;
    }
    assert(all.take(df.len() as int) =~= all);
    Ok(())
}

fn stamp_i(df: &Vec<Branch>, v: &mut Vector, Ghost(n): Ghost<nat>)
    requires
        old(v).len() == n,
        nodes_fit(branch_texts(df@), n),
    ensures
        final(v).deep_view() == i_fold(branch_texts(df@), old(v).deep_view()),
        final(v).len() == n,
{
    let ghost all = branch_texts(df@);
    let ghost v0 = v.deep_view();
    let mut i: usize = 0;
    assert(all.take(0) =~= Seq::<BranchText>::empty());
    while i < df.len()
        invariant
            i <= df.len(),
            all == branch_texts(df@),
            nodes_fit(all, n),
            v.len() == n,
            v.deep_view() == i_fold(all.take(i as int), v0),
        decreases df.len() - i,
    {
        let br = &df[i];
        assert(all[i as int] == br@);
        assert(all.take(i + 1).drop_last() =~= all.take(i as int));
        assert(all.take(i + 1).last() == br@);
        if br.kind() == 'I' {
            let src = element_expr(br);
            let n1 = node_or_zero(br.p_node);
            let n2 = node_or_zero(br.n_node);
            if n1 != 0 {
                let e = v[n1 - 1].sub(&src);
                v.set(n1 - 1, e);
            }
            if n2 != 0 {
                let e = v[n2 - 1].add(&src);
                v.set(n2 - 1, e);
            }
        }
        assert(v.deep_view() =~= i_fold(all.take(i + 1), v0));
        i = i + 1;
    }
    assert(all.take(df.len() as int) =~= all);
}

fn stamp_ev(df: &Vec<Branch>, ev: &mut Vector, Ghost(u): Ghost<nat>)
    requires
        old(ev).len() == u,
        unknown_count(branch_texts(df@)) == u,
    ensures
        final(ev).deep_view() == ev_fold(branch_texts(df@), old(ev).deep_view()),
        final(ev).len() == u,
{
    let ghost all = branch_texts(df@);
    let ghost v0 = ev.deep_view();
    let mut i: usize = 0;
    let mut sn: usize = 0;
    assert(all.take(0) =~= Seq::<BranchText>::empty());
    while i < df.len()
        invariant
            i <= df.len(),
            all == branch_texts(df@),
            unknown_count(all) == u,
            ev.len() == u,
            sn as nat == voltage_count(all.take(i as int)),
            ev.deep_view() == ev_fold(all.take(i as int), v0),
        decreases df.len() - i,
    {
        let br = &df[i];
        assert(all[i as int] == br@);
        assert(all.take(i + 1).drop_last() =~= all.take(i as int));
        assert(all.take(i + 1).last() == br@);
        proof {
            lemma_unknown_count_prefix(all, i + 1);
            lemma_unknown_le_len(all);
        }
        if br.kind() == 'V' {
            ev.set(sn, element_expr(br));
            sn = sn + 1;
        }
        assert(ev.deep_view() =~= ev_fold(all.take(i + 1), v0));
        i = i + 1;
    }
    assert(all.take(df.len() as int) =~= all);
}

// ---------------------------------------------------------------------------
// Sizes
// ---------------------------------------------------------------------------
proof fn lemma_split_lines_len(s: Seq<char>)
    ensures
        split_lines(s).len() <= s.len() + 1,
    decreases s.len(),
{
    if s.len() > 0 {
        lemma_split_lines_len(s.drop_last());
        lemma_split_lines_nonempty(s.drop_last());
    }
}

proof fn lemma_processed_lines_len(raws: Seq<Seq<char>>)
    ensures
        processed_lines(raws).len() <= raws.len(),
    decreases raws.len(),
{
    if raws.len() > 0 {
        lemma_processed_lines_len(raws.drop_last());
    }
}

proof fn lemma_parse_prefix_len(content: Seq<Seq<char>>, k: nat)
    requires
        parse_prefix(content, k) is Ok,
    ensures
        parse_prefix(content, k)->Ok_0.len() == k,
    decreases k,
{
    if k > 0 {
        lemma_parse_prefix_len(content, (k - 1) as nat);
    }
}

proof fn lemma_voltage_sources_first_len(df: Seq<BranchText>)
    ensures
        voltage_sources(df).len() + other_elements(df).len() == df.len(),
    decreases df.len(),
{
    if df.len() > 0 {
        lemma_voltage_sources_first_len(df.drop_last());
    }
}

proof fn lemma_current_unknowns_len(df: Seq<BranchText>)
    ensures
        current_unknowns_spec(df).len() == unknown_count(df),
    decreases df.len(),
{
    if df.len() > 0 {
        lemma_current_unknowns_len(df.drop_last());
    }
}

proof fn lemma_first_unseen_none(df: Seq<BranchText>, lc: nat, from: nat, to: nat, k: nat)
    requires
        first_unseen(df, lc, from, to) is None,
        from <= k < to,
    ensures
        node_seen(df, lc, k),
    decreases to - from,
{
    if from < k {
        lemma_first_unseen_none(df, lc, from + 1, to, k);
    }
}

proof fn lemma_node_count_bound(df: Seq<BranchText>, lc: nat)
    requires
        node_count_spec(df, lc) is Ok,
    ensures
        largest_node(df) <= lc + 1,
{
    let top = largest_node(df);
    if top >= 2 {
        lemma_first_unseen_none(df, lc, 1, top, (top - 1) as nat);
    }
}

proof fn lemma_nodes_fit(df: Seq<BranchText>, n: nat)
    requires
        largest_node(df) == n,
        control_nodes_fit(df, n),
    ensures
        nodes_fit(df, n),
{
    lemma_largest_node_bounds(df);
    assert forall|i: int| 0 <= i < df.len() implies {
        let b = #[trigger] df[i];
        &&& kind_of(b) != 'K' ==> unwrap0(b.p_node) <= n && unwrap0(b.n_node) <= n
        &&& (kind_of(b) == 'G' || kind_of(b) == 'E') ==> unwrap0(b.cp_node) <= n && unwrap0(
            b.cn_node,
        ) <= n
        &&& kind_of(b) == 'O' ==> unwrap0(b.vout) <= n
    } by {
        let b = df[i];
        if kind_of(b) != 'K' {
            assert(unwrap0(df[i].p_node) <= largest_node(df));
        }
    }
}

// ---------------------------------------------------------------------------
// Assembly
// ---------------------------------------------------------------------------
fn joined_row(left: &Vec<Expr>, right: &Vec<Expr>) -> (r: Vec<Expr>)
    ensures
        r.deep_view() == left.deep_view() + right.deep_view(),
{
    let mut out = copy_row(left);
    assert(out@.len() == out.deep_view().len());
    assert forall|q: int| 0 <= q < left@.len() implies (#[trigger] out@[q])@ == left@[q]@ by {
        assert(out.deep_view()[q] == left.deep_view()[q]);
    }
    let mut j: usize = 0;
    while j < right.len()
        invariant
            j <= right.len(),
            out@.len() == left@.len() + j,
            forall|q: int| 0 <= q < left@.len() ==> (#[trigger] out@[q])@ == left@[q]@,
            forall|q: int|
                0 <= q < j ==> (#[trigger] out@[left@.len() + q])@ == right@[q]@,
        decreases right.len() - j,
    {
        out.push(right[j].duplicate());
        j = j + 1;
    }
    assert(out.deep_view() =~= left.deep_view() + right.deep_view()) by {
        assert forall|q: int| 0 <= q < out@.len() implies out.deep_view()[q] == (
        left.deep_view() + right.deep_view())[q] by {
            if q >= left@.len() {
                assert(out@[left@.len() + (q - left@.len())]@ == right@[q - left@.len()]@);
            }
        }
    }
    out
}

fn system_matrix(g: &Matrix, b: &Matrix, c: &Matrix, d: &Matrix) -> (a: Matrix)
    requires
        g.len() == b.len(),
        c.len() == d.len(),
    ensures
        a.deep_view() == assemble(g.deep_view(), b.deep_view(), c.deep_view(), d.deep_view()),
{
    let ghost target = assemble(g.deep_view(), b.deep_view(), c.deep_view(), d.deep_view());
    let mut a: Matrix = Vec::new();
    let mut r: usize = 0;
    while r < g.len()
        invariant
            r <= g.len(),
            g.len() == b.len(),
            c.len() == d.len(),
            target == assemble(g.deep_view(), b.deep_view(), c.deep_view(), d.deep_view()),
            a@.len() == r,
            forall|q: int| 0 <= q < r ==> (#[trigger] a@[q]).deep_view() == target[q],
        decreases g.len() - r,
    {
        let row = joined_row(&g[r], &b[r]);
        a.push(row);
        r = r + 1;
    }
    let mut r: usize = 0;
    while r < c.len()
        invariant
            r <= c.len(),
            g.len() == b.len(),
            c.len() == d.len(),
            target == assemble(g.deep_view(), b.deep_view(), c.deep_view(), d.deep_view()),
            a@.len() == g.len() + r,
            forall|q: int| 0 <= q < g.len() + r ==> (#[trigger] a@[q]).deep_view() == target[q],
        decreases c.len() - r,
    {
        let row = joined_row(&c[r], &d[r]);
        a.push(row);
        proof {
            assert(a@[g.len() + r].deep_view() == target[g.len() + r]);
        }
        r = r + 1;
    }
    assert(a.deep_view() =~= target);
    a
}

fn joined_vector(left: Vector, right: &Vector) -> (r: Vector)
    ensures
        r.deep_view() == left.deep_view() + right.deep_view(),
{
    joined_row(&left, right)
}

fn unknown_names(n: usize, df2: &Vec<CurrentUnknown>) -> (x: Vector)
    ensures
        x.deep_view() == unknowns_spec(n as nat, unknown_texts(df2@)),
{
    let ghost target = unknowns_spec(n as nat, unknown_texts(df2@));
    let mut x: Vector = Vec::new();
    let mut k: usize = 0;
    while k < n
        invariant
            k <= n,
            target == unknowns_spec(n as nat, unknown_texts(df2@)),
            x@.len() == k,
            forall|q: int| 0 <= q < k ==> (#[trigger] x@[q])@ == target[q],
        decreases n - k,
    {
        let mut name = String::new();
        name.push('v');
        push_usize(&mut name, k + 1);
        x.push(Expr::from_text(name));
        k = k + 1;
    }
    let mut j: usize = 0;
    while j < df2.len()
        invariant
            j <= df2.len(),
            target == unknowns_spec(n as nat, unknown_texts(df2@)),
            x@.len() == n + j,
            forall|q: int| 0 <= q < n + j ==> (#[trigger] x@[q])@ == target[q],
        decreases df2.len() - j,
    {
        let mut name = String::new();
        name.push('I');
        name.push('_');
        push_str(&mut name, df2[j].element.as_str());
        x.push(Expr::from_text(name));
        proof {
            assert(x@[n + j]@ == target[n + j]);
        }
        j = j + 1;
    }
    assert(x.deep_view() =~= target);
    x
}

fn report_text(c: &Counts, line_cnt: usize, num_nodes: usize, i_unk: usize) -> (r: String)
    ensures
        r@ == report_spec(c@, line_cnt as nat, num_nodes as nat, i_unk as nat),
{
    let mut s = String::new();
    push_str(&mut s, "Net list report\nnumber of lines in netlist: ");
    push_usize(&mut s, line_cnt);
    push_str(&mut s, "\nnumber of branches: ");
    push_usize(&mut s, c.branch_cnt);
    push_str(&mut s, "\nnumber of nodes: ");
    push_usize(&mut s, num_nodes);
    push_str(&mut s, "\nnumber of unknown currents: ");
    push_usize(&mut s, i_unk);
    push_str(&mut s, "\nnumber of RLC (passive components): ");
    push_usize(&mut s, c.num_rlc);
    push_str(&mut s, "\nnumber of inductors: ");
    push_usize(&mut s, c.num_ind);
    push_str(&mut s, "\nnumber of independent voltage sources: ");
    push_usize(&mut s, c.num_v);
    push_str(&mut s, "\nnumber of independent current sources: ");
    push_usize(&mut s, c.num_i);
    push_str(&mut s, "\nnumber of op amps: ");
    push_usize(&mut s, c.num_opamps);
    push_str(&mut s, "\nnumber of E - VCVS: ");
    push_usize(&mut s, c.num_vcvs);
    push_str(&mut s, "\nnumber of G - VCCS: ");
    push_usize(&mut s, c.num_vccs);
    push_str(&mut s, "\nnumber of F - CCCS: ");
    push_usize(&mut s, c.num_cccs);
    push_str(&mut s, "\nnumber of H - CCVS: ");
    push_usize(&mut s, c.num_ccvs);
    push_str(&mut s, "\nnumber of K - Coupled inductors: ");
    push_usize(&mut s, c.num_cpld_ind);
    push_str(&mut s, "\n");
    s
}

// ---------------------------------------------------------------------------
// The analysis
// ---------------------------------------------------------------------------
impl View for SmnaResult {
    type V = SmnaText;

    open spec fn view(&self) -> SmnaText {
        SmnaText {
            report: self.report@,
            df: branch_texts(self.df@),
            df2: unknown_texts(self.df2@),
            a: self.a.deep_view(),
            x: self.x.deep_view(),
            z: self.z.deep_view(),
        }
    }
}

fn control_nodes_ok(df: &Vec<Branch>, n: usize) -> (r: bool)
    ensures
        r == control_nodes_fit(branch_texts(df@), n as nat),
{
    let ghost all = branch_texts(df@);
    let mut i: usize = 0;
    while i < df.len()
        invariant
            i <= df.len(),
            all == branch_texts(df@),
            control_nodes_fit(all.take(i as int), n as nat),
        decreases df.len() - i,
    {
        let b = &df[i];
        assert(all[i as int] == b@);
        let x = b.kind();
        if x == 'G' || x == 'E' {
            if node_or_zero(b.cp_node) > n || node_or_zero(b.cn_node) > n {
                assert(!control_nodes_fit(all, n as nat)) by {
                    assert(all[i as int] == b@);
                }
                return false;
            }
        } else if x == 'O' {
            if node_or_zero(b.vout) > n {
                assert(!control_nodes_fit(all, n as nat)) by {
                    assert(all[i as int] == b@);
                }
                return false;
            }
        }
        assert forall|q: int| 0 <= q < i + 1 implies {
            let bq = #[trigger] all.take(i + 1)[q];
            &&& (kind_of(bq) == 'G' || kind_of(bq) == 'E') ==> unwrap0(bq.cp_node) <= n
                && unwrap0(bq.cn_node) <= n
            &&& kind_of(bq) == 'O' ==> unwrap0(bq.vout) <= n
        } by {
            if q < i {
                assert(all.take(i + 1)[q] == all.take(i as int)[q]);
            }
        }
        i = i + 1;
    }
    assert(all.take(df.len() as int) =~= all);
    true
}

/// Whether the analysis of `net_list` stays within its matrices: `false`
/// exactly when an op amp output or a controlling node of an E or G source
/// lies beyond the node count of a netlist that otherwise analyses.
pub fn smna_in_range(net_list: &str) -> (r: bool)
    requires
        net_list@.len() < usize::MAX / 2,
    ensures
        r == !smna_out_of_range(net_list@),
{
    let content = preprocess(net_list);
    proof {
        lemma_split_lines_len(net_list@);
        lemma_processed_lines_len(split_lines(net_list@));
    }
    if count_elements(&content).is_err() {
        return true;
    }
    let df0 = match parse_branches(&content) {
        Ok(d) => d,
        Err(_) => {
            return true;
        },
    };
    let df = move_voltage_sources_first(&df0);
    match count_nodes(&df, content.len()) {
        Ok(n) => control_nodes_ok(&df, n),
        Err(_) => true,
    }
}

/// Symbolic modified nodal analysis of a SPICE-like netlist: the report,
/// the elements with the voltage sources first, the unknown currents and
/// the system `a·x = z`, or the first error met.
pub fn smna(net_list: &str) -> (r: Result<SmnaResult, SmnaError>)
    requires
        net_list@.len() < usize::MAX / 2,
        !smna_out_of_range(net_list@),
    ensures
        match r {
            Ok(res) => smna_spec(net_list@) == Ok::<SmnaText, SmnaErrorText>(res@),
            Err(e) => smna_spec(net_list@) == Err::<SmnaText, SmnaErrorText>(e@),
        },
{
    let content = preprocess(net_list);
    proof {
        lemma_split_lines_len(net_list@);
        lemma_processed_lines_len(split_lines(net_list@));
        assert(texts(content@).len() == content@.len());
    }
    smna_lines(&content)
}

/// Symbolic modified nodal analysis of the analysed lines of a netlist
/// (without comments, trimmed, in capitals): the report, the elements with
/// the voltage sources first, the unknown currents and the system
/// `a·x = z`, or the first error met.
pub fn smna_lines(content: &Vec<String>) -> (r: Result<SmnaResult, SmnaError>)
    requires
        content@.len() <= usize::MAX / 2,
        !lines_out_of_range(texts(content@)),
    ensures
        match r {
            Ok(res) => smna_lines_spec(texts(content@)) == Ok::<SmnaText, SmnaErrorText>(res@),
            Err(e) => smna_lines_spec(texts(content@)) == Err::<SmnaText, SmnaErrorText>(e@),
        },
{
    let counts = match count_elements(&content) {
        Ok(c) => c,
        Err(e) => {
            return Err(e);
        },
    };
    let line_cnt = content.len();
    let df0 = match parse_branches(&content) {
        Ok(d) => d,
        Err(e) => {
            return Err(e);
        },
    };
    let df = move_voltage_sources_first(&df0);
    let num_nodes = match count_nodes(&df, line_cnt) {
        Ok(n) => n,
        Err(e) => {
            return Err(e);
        },
    };
    let df2 = current_unknowns(&df);
    let i_unk = df2.len();
    let ghost dfs = branch_texts(df@);
    proof {
        lemma_parse_prefix_len(texts(content@), content.len() as nat);
        lemma_voltage_sources_first_len(branch_texts(df0@));
        lemma_current_unknowns_len(dfs);
        lemma_node_count_bound(dfs, line_cnt as nat);
        lemma_nodes_fit(dfs, num_nodes as nat);
    }
    let mut g = zeros(num_nodes, num_nodes);
    let mut b = zeros(num_nodes, i_unk);
    let mut c = zeros(i_unk, num_nodes);
    let mut d = zeros(i_unk, i_unk);
    let mut i_vec = zero_vector(num_nodes);
    let mut ev = zero_vector(i_unk);
    stamp_g(&df, &mut g, Ghost(num_nodes as nat));
    stamp_b(&df, &mut b, Ghost(num_nodes as nat), Ghost(i_unk as nat));
    stamp_c(&df, &mut c, Ghost(num_nodes as nat), Ghost(i_unk as nat));
    match stamp_d(&df, &df2, &mut d, Ghost(i_unk as nat)) {
        Ok(()) => {},
        Err(e) => {
            return Err(e);
        },
    }
    stamp_i(&df, &mut i_vec, Ghost(num_nodes as nat));
    stamp_ev(&df, &mut ev, Ghost(i_unk as nat));
    let x = unknown_names(num_nodes, &df2);
    let z = joined_vector(i_vec, &ev);
    let a = system_matrix(&g, &b, &c, &d);
    let report = report_text(&counts, line_cnt, num_nodes, i_unk);
    Ok(SmnaResult { report, df, df2, a, x, z })
}

// ---------------------------------------------------------------------------
// The system is square
// ---------------------------------------------------------------------------
proof fn lemma_nodes_fit_prefix(df: Seq<BranchText>, n: nat)
    requires
        df.len() > 0,
        nodes_fit(df, n),
    ensures
        nodes_fit(df.drop_last(), n),
        kind_of(df.last()) != 'K' ==> unwrap0(df.last().p_node) <= n && unwrap0(df.last().n_node) <= n,
        (kind_of(df.last()) == 'G' || kind_of(df.last()) == 'E') ==> unwrap0(df.last().cp_node) <= n
            && unwrap0(df.last().cn_node) <= n,
        kind_of(df.last()) == 'O' ==> unwrap0(df.last().vout) <= n,
{
    assert(df.last() == df[df.len() - 1]);
    assert forall|i: int| 0 <= i < df.drop_last().len() implies {
        let b = #[trigger] df.drop_last()[i];
        &&& kind_of(b) != 'K' ==> unwrap0(b.p_node) <= n && unwrap0(b.n_node) <= n
        &&& (kind_of(b) == 'G' || kind_of(b) == 'E') ==> unwrap0(b.cp_node) <= n && unwrap0(
            b.cn_node,
        ) <= n
        &&& kind_of(b) == 'O' ==> unwrap0(b.vout) <= n
    } by {
        assert(df.drop_last()[i] == df[i]);
    }
}

proof fn lemma_g_fold_shape(df: Seq<BranchText>, m: Seq<Seq<Seq<char>>>, n: nat)
    requires
        shaped(m, n, n),
        nodes_fit(df, n),
    ensures
        shaped(g_fold(df, m), n, n),
    decreases df.len(),
{
    if df.len() > 0 {
        lemma_nodes_fit_prefix(df, n);
        lemma_g_fold_shape(df.drop_last(), m, n);
    }
}

proof fn lemma_b_fold_shape(df: Seq<BranchText>, m: Seq<Seq<Seq<char>>>, n: nat, u: nat)
    requires
        shaped(m, n, u),
        nodes_fit(df, n),
        unknown_count(df) <= u,
    ensures
        shaped(b_fold(df, m), n, u),
    decreases df.len(),
{
    if df.len() > 0 {
        lemma_nodes_fit_prefix(df, n);
        lemma_b_fold_shape(df.drop_last(), m, n, u);
    }
}

proof fn lemma_c_fold_shape(df: Seq<BranchText>, m: Seq<Seq<Seq<char>>>, n: nat, u: nat)
    requires
        shaped(m, u, n),
        nodes_fit(df, n),
        unknown_count(df) <= u,
    ensures
        shaped(c_fold(df, m), u, n),
    decreases df.len(),
{
    if df.len() > 0 {
        lemma_nodes_fit_prefix(df, n);
        lemma_c_fold_shape(df.drop_last(), m, n, u);
    }
}

proof fn lemma_d_fold_shape(
    df: Seq<BranchText>,
    df2: Seq<CurrentUnknownText>,
    m: Seq<Seq<Seq<char>>>,
    u: nat,
)
    requires
        shaped(m, u, u),
        df2.len() == u,
        unknown_count(df) <= u,
    ensures
        d_fold(df, df2, m) matches Ok(d) ==> shaped(d, u, u),
    decreases df.len(),
{
    if df.len() > 0 {
        lemma_d_fold_shape(df.drop_last(), df2, m, u);
        let b = df.last();
        lemma_find_unknown_bound(df2, opt_text(b.vname));
        lemma_find_unknown_bound(df2, opt_text(b.lname1));
        lemma_find_unknown_bound(df2, opt_text(b.lname2));
    }
}

proof fn lemma_i_fold_len(df: Seq<BranchText>, v: Seq<Seq<char>>, n: nat)
    requires
        v.len() == n,
        nodes_fit(df, n),
    ensures
        i_fold(df, v).len() == n,
    decreases df.len(),
{
    if df.len() > 0 {
        lemma_nodes_fit_prefix(df, n);
        lemma_i_fold_len(df.drop_last(), v, n);
    }
}

proof fn lemma_ev_fold_len(df: Seq<BranchText>, v: Seq<Seq<char>>, u: nat)
    requires
        v.len() == u,
        voltage_count(df) <= u,
    ensures
        ev_fold(df, v).len() == u,
    decreases df.len(),
{
    if df.len() > 0 {
        lemma_ev_fold_len(df.drop_last(), v, u);
    }
}

/// The system of a netlist that analyses is square: an unknown per node
/// and per element whose current is unknown, a row of the matrix and an
/// entry of the right-hand side for each.
pub proof fn law_system_is_square(net: Seq<char>)
    requires
        !smna_out_of_range(net),
    ensures
        smna_spec(net) matches Ok(r) ==> {
            &&& r.x.len() == r.z.len()
            &&& shaped(r.a, r.x.len(), r.x.len())
            &&& node_count_spec(r.df, preprocess_spec(net).len()) matches Ok(n) && r.x.len() == n
                + r.df2.len()
        },
{
    match parsed_spec(net) {
        Err(_) => {},
        Ok((counts, df)) => match node_count_spec(df, preprocess_spec(net).len()) {
            Err(_) => {},
            Ok(n) => {
                let df2 = current_unknowns_spec(df);
                let u = df2.len();
                lemma_current_unknowns_len(df);
                lemma_voltage_le_unknown(df);
                lemma_nodes_fit(df, n);
                lemma_g_fold_shape(df, zeros_text(n, n), n);
                lemma_b_fold_shape(df, zeros_text(n, u), n, u);
                lemma_c_fold_shape(df, zeros_text(u, n), n, u);
                lemma_d_fold_shape(df, df2, zeros_text(u, u), u);
                lemma_i_fold_len(df, Seq::new(n, |k: int| zero_text()), n);
                lemma_ev_fold_len(df, Seq::new(u, |k: int| zero_text()), u);
                match d_fold(df, df2, zeros_text(u, u)) {
                    Err(_) => {},
                    Ok(d) => {
                        let g = g_fold(df, zeros_text(n, n));
                        let b = b_fold(df, zeros_text(n, u));
                        let c = c_fold(df, zeros_text(u, n));
                        let a = assemble(g, b, c, d);
                        assert forall|i: int| 0 <= i < n + u implies (#[trigger] a[i]).len() == n + u by {
                            if i < n {
                                assert(a[i] == g[i] + b[i]);
                            } else {
                                assert(a[i] == c[i - n] + d[i - n]);
                            }
                        }
                    },
                }
            },
        },
    }
}

/// Whether every coupling of the elements joins two different inductor
/// currents (where it names two that exist).
pub open spec fn couplings_join_two(df: Seq<BranchText>, df2: Seq<CurrentUnknownText>) -> bool {
    forall|k: int|
        0 <= k < df.len() && kind_of(#[trigger] df[k]) == 'K' && find_unknown(
            df2,
            opt_text(df[k].lname1),
        ) is Some && find_unknown(df2, opt_text(df[k].lname2)) is Some ==> find_unknown(
            df2,
            opt_text(df[k].lname1),
        ) != find_unknown(df2, opt_text(df[k].lname2))
}

/// Whether an element has a row of its own in the D block.
pub open spec fn owns_d_row(b: BranchText) -> bool {
    kind_of(b) == 'L' || kind_of(b) == 'H' || kind_of(b) == 'F'
}

proof fn lemma_unknown_count_grows(s: Seq<BranchText>, a: int, b: int)
    requires
        0 <= a < b <= s.len(),
        has_current_unknown(kind_of(s[a])),
    ensures
        unknown_count(s.take(a)) < unknown_count(s.take(b)),
{
    assert(s.take(a + 1).drop_last() =~= s.take(a));
    assert(s.take(a + 1).last() == s[a]);
    lemma_unknown_count_prefix(s.take(b), a + 1);
    assert(s.take(b).take(a + 1) =~= s.take(a + 1));
}

proof fn lemma_d_step_keeps_diagonal(
    df: Seq<BranchText>,
    df2: Seq<CurrentUnknownText>,
    m: Seq<Seq<Seq<char>>>,
    prev: Seq<Seq<Seq<char>>>,
    u: nat,
    r: int,
)
    requires
        df.len() > 0,
        d_fold(df.drop_last(), df2, m) == Ok::<Seq<Seq<Seq<char>>>, SmnaErrorText>(prev),
        shaped(prev, u, u),
        df2.len() == u,
        unknown_count(df) <= u,
        0 <= r < u,
        couplings_join_two(df, df2),
        owns_d_row(df.last()) ==> unknown_count(df.drop_last()) != r,
    ensures
        d_fold(df, df2, m) matches Ok(d) ==> d[r][r] == prev[r][r],
{
    let b = df.last();
    assert(df[df.len() - 1] == b);
    lemma_find_unknown_bound(df2, opt_text(b.vname));
    lemma_find_unknown_bound(df2, opt_text(b.lname1));
    lemma_find_unknown_bound(df2, opt_text(b.lname2));
}

proof fn lemma_d_fold_keeps_diagonal(
    df: Seq<BranchText>,
    df2: Seq<CurrentUnknownText>,
    m: Seq<Seq<Seq<char>>>,
    u: nat,
    r: int,
)
    requires
        shaped(m, u, u),
        df2.len() == u,
        unknown_count(df) <= u,
        0 <= r < u,
        couplings_join_two(df, df2),
        forall|k: int|
            0 <= k < df.len() && owns_d_row(#[trigger] df[k]) ==> unknown_count(df.take(k)) != r,
    ensures
        d_fold(df, df2, m) matches Ok(d) ==> d[r][r] == m[r][r],
    decreases df.len(),
{
    if df.len() > 0 {
        let dl = df.drop_last();
        assert(df.take(df.len() - 1) =~= dl);
        lemma_unknown_count_prefix(df, df.len() - 1);
        assert forall|k: int| 0 <= k < dl.len() && kind_of(#[trigger] dl[k]) == 'K' && find_unknown(
            df2,
            opt_text(dl[k].lname1),
        ) is Some && find_unknown(df2, opt_text(dl[k].lname2)) is Some implies find_unknown(
            df2,
            opt_text(dl[k].lname1),
        ) != find_unknown(df2, opt_text(dl[k].lname2)) by {
            assert(dl[k] == df[k]);
        }
        assert forall|k: int| 0 <= k < dl.len() && owns_d_row(#[trigger] dl[k]) implies unknown_count(
            dl.take(k),
        ) != r by {
            assert(dl[k] == df[k]);
            assert(dl.take(k) =~= df.take(k));
        }
        lemma_d_fold_keeps_diagonal(dl, df2, m, u, r);
        lemma_d_fold_shape(dl, df2, m, u);
        if let Ok(prev) = d_fold(dl, df2, m) {
            assert(df[df.len() - 1] == df.last());
            lemma_d_step_keeps_diagonal(df, df2, m, prev, u, r);
        }
    }
}

proof fn lemma_inductor_diagonal(
    df: Seq<BranchText>,
    df2: Seq<CurrentUnknownText>,
    m: Seq<Seq<Seq<char>>>,
    u: nat,
    j: int,
)
    requires
        shaped(m, u, u),
        df2.len() == u,
        unknown_count(df) <= u,
        couplings_join_two(df, df2),
        0 <= j < df.len(),
        kind_of(df[j]) == 'L',
    ensures
        unknown_count(df.take(j)) < u,
        d_fold(df, df2, m) matches Ok(d) ==> d[unknown_count(df.take(j)) as int][unknown_count(
            df.take(j),
        ) as int] == add_text(
            m[unknown_count(df.take(j)) as int][unknown_count(df.take(j)) as int],
            neg_text(mul_text(s_text(), df[j].element)),
        ),
    decreases df.len(),
{
    let dl = df.drop_last();
    let sn = unknown_count(df.take(j)) as int;
    assert(df.take(df.len() - 1) =~= dl);
    lemma_unknown_count_prefix(df, df.len() - 1);
    lemma_unknown_count_grows(df, j, df.len() as int);
    assert(df.take(df.len() as int) =~= df);
    assert forall|k: int| 0 <= k < dl.len() && kind_of(#[trigger] dl[k]) == 'K' && find_unknown(
        df2,
        opt_text(dl[k].lname1),
    ) is Some && find_unknown(df2, opt_text(dl[k].lname2)) is Some implies find_unknown(
        df2,
        opt_text(dl[k].lname1),
    ) != find_unknown(df2, opt_text(dl[k].lname2)) by {
        assert(dl[k] == df[k]);
    }
    lemma_d_fold_shape(dl, df2, m, u);
    if j == df.len() - 1 {
        assert forall|k: int| 0 <= k < dl.len() && owns_d_row(#[trigger] dl[k]) implies unknown_count(
            dl.take(k),
        ) != sn by {
            assert(dl[k] == df[k]);
            assert(dl.take(k) =~= df.take(k));
            lemma_unknown_count_grows(df, k, j);
        }
        lemma_d_fold_keeps_diagonal(dl, df2, m, u, sn);
    } else {
        assert(dl[j] == df[j]);
        assert(dl.take(j) =~= df.take(j));
        lemma_inductor_diagonal(dl, df2, m, u, j);
        if let Ok(prev) = d_fold(dl, df2, m) {
            assert(df[df.len() - 1] == df.last());
            lemma_unknown_count_grows(df, j, df.len() - 1);
            lemma_unknown_count_prefix(dl, j + 1);
            assert(dl.take(j + 1) =~= df.take(j + 1));
            assert(df.take(j + 1).drop_last() =~= df.take(j));
            assert(df.take(j + 1).last() == df[j]);
            lemma_d_step_keeps_diagonal(df, df2, m, prev, u, sn);
        }
    }
}

/// An inductor's branch equation carries its impedance with a minus sign:
/// in the system of analysed lines, the diagonal entry of the row and
/// column of an inductor's current is `-s*L`, its name times `s`, negated,
/// where no coupling joins an inductor current with itself.
#[verifier::spinoff_prover]
#[verifier::rlimit(50)]
pub proof fn law_inductor_impedance(content: Seq<Seq<char>>, j: int)
    requires
        !lines_out_of_range(content),
    ensures
        smna_lines_spec(content) matches Ok(t) ==> (0 <= j < t.df.len() && kind_of(t.df[j]) == 'L'
            && couplings_join_two(t.df, t.df2) ==> (node_count_spec(t.df, content.len()) matches Ok(
            n,
        ) && t.a[(n + unknown_count(t.df.take(j))) as int][(n + unknown_count(t.df.take(j))) as int] == neg_text(
            mul_text(s_text(), t.df[j].element),
        ))),
{
    match parsed_lines(content) {
        Err(_) => {},
        Ok((counts, df)) => match node_count_spec(df, content.len()) {
            Err(_) => {},
            Ok(n) => {
                let df2 = current_unknowns_spec(df);
                let u = df2.len();
                lemma_current_unknowns_len(df);
                lemma_nodes_fit(df, n);
                lemma_c_fold_shape(df, zeros_text(u, n), n, u);
                lemma_d_fold_shape(df, df2, zeros_text(u, u), u);
                lemma_g_fold_shape(df, zeros_text(n, n), n);
                match d_fold(df, df2, zeros_text(u, u)) {
                    Err(_) => {},
                    Ok(d) => {
                        if 0 <= j < df.len() && kind_of(df[j]) == 'L' && couplings_join_two(df, df2) {
                            lemma_inductor_diagonal(df, df2, zeros_text(u, u), u, j);
                            let sn = unknown_count(df.take(j)) as int;
                            let g = g_fold(df, zeros_text(n, n));
                            let b = b_fold(df, zeros_text(n, u));
                            let c = c_fold(df, zeros_text(u, n));
                            let a = assemble(g, b, c, d);
                            assert(a[n + sn] == c[sn] + d[sn]);
                            assert((c[sn] + d[sn])[n + sn] == d[sn][sn]);
                        }
                    },
                }
            },
        },
    }
}

/// The two inductor currents a coupling joins, where both exist.
pub open spec fn coupled_pair(df2: Seq<CurrentUnknownText>, b: BranchText) -> Option<(nat, nat)> {
    match find_unknown(df2, opt_text(b.lname1)) {
        Some(i1) => match find_unknown(df2, opt_text(b.lname2)) {
            Some(i2) => Some((i1, i2)),
            None => None,
        },
        None => None,
    }
}

/// Whether element `k` writes into the D entry `(r, c)`: an H or F element
/// in its own row, an inductor on its own diagonal, a coupling on the two
/// entries of the pair it joins.
pub open spec fn stamps_d_cell(
    df: Seq<BranchText>,
    df2: Seq<CurrentUnknownText>,
    k: int,
    r: int,
    c: int,
) -> bool {
    let b = df[k];
    let own = unknown_count(df.take(k)) as int;
    ||| (kind_of(b) == 'H' || kind_of(b) == 'F') && own == r
    ||| kind_of(b) == 'L' && own == r && own == c
    ||| kind_of(b) == 'K' && (coupled_pair(df2, b) matches Some((i1, i2)) && ((i1 == r && i2
        == c) || (i2 == r && i1 == c)))
}

proof fn lemma_d_step_keeps_cell(
    df: Seq<BranchText>,
    df2: Seq<CurrentUnknownText>,
    m: Seq<Seq<Seq<char>>>,
    prev: Seq<Seq<Seq<char>>>,
    u: nat,
    r: int,
    c: int,
)
    requires
        df.len() > 0,
        d_fold(df.drop_last(), df2, m) == Ok::<Seq<Seq<Seq<char>>>, SmnaErrorText>(prev),
        shaped(prev, u, u),
        df2.len() == u,
        unknown_count(df) <= u,
        0 <= r < u,
        0 <= c < u,
        !stamps_d_cell(df, df2, df.len() - 1, r, c),
    ensures
        d_fold(df, df2, m) matches Ok(d) ==> d[r][c] == prev[r][c],
{
    let b = df.last();
    assert(df[df.len() - 1] == b);
    assert(df.take(df.len() - 1) =~= df.drop_last());
    lemma_find_unknown_bound(df2, opt_text(b.vname));
    lemma_find_unknown_bound(df2, opt_text(b.lname1));
    lemma_find_unknown_bound(df2, opt_text(b.lname2));
}

proof fn lemma_d_fold_keeps_cell(
    df: Seq<BranchText>,
    df2: Seq<CurrentUnknownText>,
    m: Seq<Seq<Seq<char>>>,
    u: nat,
    r: int,
    c: int,
)
    requires
        shaped(m, u, u),
        df2.len() == u,
        unknown_count(df) <= u,
        0 <= r < u,
        0 <= c < u,
        forall|k: int| 0 <= k < df.len() ==> !#[trigger] stamps_d_cell(df, df2, k, r, c),
    ensures
        d_fold(df, df2, m) matches Ok(d) ==> d[r][c] == m[r][c],
    decreases df.len(),
{
    if df.len() > 0 {
        let dl = df.drop_last();
        assert(df.take(df.len() - 1) =~= dl);
        lemma_unknown_count_prefix(df, df.len() - 1);
        assert forall|k: int| 0 <= k < dl.len() implies !#[trigger] stamps_d_cell(dl, df2, k, r, c) by {
            assert(dl[k] == df[k]);
            assert(dl.take(k) =~= df.take(k));
            assert(!stamps_d_cell(df, df2, k, r, c));
        }
        lemma_d_fold_keeps_cell(dl, df2, m, u, r, c);
        lemma_d_fold_shape(dl, df2, m, u);
        if let Ok(prev) = d_fold(dl, df2, m) {
            assert(!stamps_d_cell(df, df2, df.len() - 1, r, c));
            lemma_d_step_keeps_cell(df, df2, m, prev, u, r, c);
        }
    }
}

/// Whether no element but the `j`-th writes into the D entry `(r, c)`.
pub open spec fn only_writer(
    df: Seq<BranchText>,
    df2: Seq<CurrentUnknownText>,
    j: int,
    r: int,
    c: int,
) -> bool {
    forall|k: int| 0 <= k < df.len() && k != j ==> !#[trigger] stamps_d_cell(df, df2, k, r, c)
}

proof fn lemma_only_writer_before(df: Seq<BranchText>, df2: Seq<CurrentUnknownText>, j: int, r: int, c: int)
    requires
        df.len() > 0,
        only_writer(df, df2, j, r, c),
    ensures
        j == df.len() - 1 ==> forall|k: int|
            0 <= k < df.drop_last().len() ==> !#[trigger] stamps_d_cell(df.drop_last(), df2, k, r, c),
        j < df.len() - 1 ==> only_writer(df.drop_last(), df2, j, r, c),
        j < df.len() - 1 ==> !stamps_d_cell(df, df2, df.len() - 1, r, c),
{
    let dl = df.drop_last();
    assert forall|k: int| 0 <= k < dl.len() && k != j implies !#[trigger] stamps_d_cell(dl, df2, k, r, c) by {
        assert(dl[k] == df[k]);
        assert(dl.take(k) =~= df.take(k));
        assert(!stamps_d_cell(df, df2, k, r, c));
    }
    if j < df.len() - 1 {
        assert(!stamps_d_cell(df, df2, df.len() - 1, r, c));
    }
}

proof fn lemma_coupling_entries(
    df: Seq<BranchText>,
    df2: Seq<CurrentUnknownText>,
    m: Seq<Seq<Seq<char>>>,
    u: nat,
    j: int,
    i1: int,
    i2: int,
)
    requires
        shaped(m, u, u),
        df2.len() == u,
        unknown_count(df) <= u,
        0 <= j < df.len(),
        kind_of(df[j]) == 'K',
        0 <= i1 && 0 <= i2,
        coupled_pair(df2, df[j]) == Some((i1 as nat, i2 as nat)),
        i1 != i2,
        only_writer(df, df2, j, i1, i2),
        only_writer(df, df2, j, i2, i1),
    ensures
        i1 < u && i2 < u,
        d_fold(df, df2, m) matches Ok(d) ==> {
            let mutual = neg_text(
                mul_text(s_text(), seq!['M'] + strip_leading(lowercase_of(df[j].element), 'k')),
            );
            &&& d[i1][i2] == add_text(m[i1][i2], mutual)
            &&& d[i2][i1] == add_text(m[i2][i1], mutual)
        },
    decreases df.len(),
{
    let dl = df.drop_last();
    let b = df[j];
    lemma_find_unknown_bound(df2, opt_text(b.lname1));
    lemma_find_unknown_bound(df2, opt_text(b.lname2));
    assert(df.take(df.len() - 1) =~= dl);
    lemma_unknown_count_prefix(df, df.len() - 1);
    lemma_d_fold_shape(dl, df2, m, u);
    lemma_only_writer_before(df, df2, j, i1, i2);
    lemma_only_writer_before(df, df2, j, i2, i1);
    if j == df.len() - 1 {
        lemma_d_fold_keeps_cell(dl, df2, m, u, i1, i2);
        lemma_d_fold_keeps_cell(dl, df2, m, u, i2, i1);
        assert(df.last() == b);
    } else {
        assert(dl[j] == b);
        lemma_coupling_entries(dl, df2, m, u, j, i1, i2);
        if let Ok(prev) = d_fold(dl, df2, m) {
            lemma_d_step_keeps_cell(df, df2, m, prev, u, i1, i2);
            lemma_d_step_keeps_cell(df, df2, m, prev, u, i2, i1);
        }
    }
}

/// A coupling of two inductors puts the mutual impedance `-s*M<k>` on both
/// entries between their currents, where nothing else writes there: in the
/// system of analysed lines, the entries of the rows and columns of the two
/// currents it joins are `-s*M` and the suffix of its lower-cased name.
#[verifier::spinoff_prover]
#[verifier::rlimit(50)]
pub proof fn law_coupling_mutual_impedance(content: Seq<Seq<char>>, j: int)
    requires
        !lines_out_of_range(content),
    ensures
        smna_lines_spec(content) matches Ok(t) ==> (0 <= j < t.df.len() && kind_of(t.df[j]) == 'K'
            && coupled_pair(t.df2, t.df[j]) is Some && coupled_pair(t.df2, t.df[j])->Some_0.0
            != coupled_pair(t.df2, t.df[j])->Some_0.1 && only_writer(
            t.df,
            t.df2,
            j,
            coupled_pair(t.df2, t.df[j])->Some_0.0 as int,
            coupled_pair(t.df2, t.df[j])->Some_0.1 as int,
        ) && only_writer(
            t.df,
            t.df2,
            j,
            coupled_pair(t.df2, t.df[j])->Some_0.1 as int,
            coupled_pair(t.df2, t.df[j])->Some_0.0 as int,
        ) ==> (node_count_spec(t.df, content.len()) matches Ok(n) && {
            let i1 = coupled_pair(t.df2, t.df[j])->Some_0.0;
            let i2 = coupled_pair(t.df2, t.df[j])->Some_0.1;
            let mutual = neg_text(
                mul_text(s_text(), seq!['M'] + strip_leading(lowercase_of(t.df[j].element), 'k')),
            );
            &&& t.a[(n + i1) as int][(n + i2) as int] == mutual
            &&& t.a[(n + i2) as int][(n + i1) as int] == mutual
        })),
{
    if let Ok(t) = smna_lines_spec(content) {
        if 0 <= j < t.df.len() && kind_of(t.df[j]) == 'K' && coupled_pair(t.df2, t.df[j]) is Some {
            let i1 = coupled_pair(t.df2, t.df[j])->Some_0.0 as int;
            let i2 = coupled_pair(t.df2, t.df[j])->Some_0.1 as int;
            if i1 != i2 && only_writer(t.df, t.df2, j, i1, i2) && only_writer(t.df, t.df2, j, i2, i1) {
                let u = t.df2.len();
                lemma_system_d_entry(content, i1, i2);
                lemma_system_d_entry(content, i2, i1);
                lemma_coupling_entries(t.df, t.df2, zeros_text(u, u), u, j, i1, i2);
                assert(zeros_text(u, u)[i1][i2] == zero_text());
                assert(zeros_text(u, u)[i2][i1] == zero_text());
            }
        }
    }
}

proof fn lemma_system_d_entry(content: Seq<Seq<char>>, r: int, c: int)
    requires
        !lines_out_of_range(content),
    ensures
        smna_lines_spec(content) matches Ok(t) ==> (node_count_spec(t.df, content.len()) matches Ok(
            n,
        ) && (t.df2 == current_unknowns_spec(t.df) && unknown_count(t.df) == t.df2.len() && (d_fold(
            t.df,
            t.df2,
            zeros_text(t.df2.len(), t.df2.len()),
        ) matches Ok(d) && (0 <= r < t.df2.len() && 0 <= c < t.df2.len() ==> t.a[n + r][n + c]
            == d[r][c])))),
{
    match parsed_lines(content) {
        Err(_) => {},
        Ok((counts, df)) => match node_count_spec(df, content.len()) {
            Err(_) => {},
            Ok(n) => {
                let df2 = current_unknowns_spec(df);
                let u = df2.len();
                lemma_current_unknowns_len(df);
                lemma_nodes_fit(df, n);
                lemma_c_fold_shape(df, zeros_text(u, n), n, u);
                lemma_d_fold_shape(df, df2, zeros_text(u, u), u);
                lemma_g_fold_shape(df, zeros_text(n, n), n);
                match d_fold(df, df2, zeros_text(u, u)) {
                    Err(_) => {},
                    Ok(d) => {
                        if 0 <= r < u && 0 <= c < u {
                            let g = g_fold(df, zeros_text(n, n));
                            let b = b_fold(df, zeros_text(n, u));
                            let cm = c_fold(df, zeros_text(u, n));
                            let a = assemble(g, b, cm, d);
                            assert(a[n + r] == cm[r] + d[r]);
                            assert((cm[r] + d[r])[n + c] == d[r][c]);
                        }
                    },
                }
            },
        },
    }
}

proof fn lemma_controlled_entries(
    df: Seq<BranchText>,
    df2: Seq<CurrentUnknownText>,
    m: Seq<Seq<Seq<char>>>,
    u: nat,
    j: int,
    r: int,
    c: int,
)
    requires
        shaped(m, u, u),
        df2.len() == u,
        unknown_count(df) <= u,
        0 <= j < df.len(),
        kind_of(df[j]) == 'H' || kind_of(df[j]) == 'F',
        r == unknown_count(df.take(j)),
        0 <= c,
        find_unknown(df2, opt_text(df[j].vname)) == Some(c as nat),
        only_writer(df, df2, j, r, c),
        kind_of(df[j]) == 'F' ==> only_writer(df, df2, j, r, r),
    ensures
        r < u && c < u,
        d_fold(df, df2, m) matches Ok(d) ==> {
            &&& kind_of(df[j]) == 'F' ==> d[r][r] == one_text()
            &&& (kind_of(df[j]) == 'H' || r != c) ==> d[r][c] == add_text(
                m[r][c],
                neg_text(lowercase_of(df[j].element)),
            )
        },
    decreases df.len(),
{
    let dl = df.drop_last();
    let b = df[j];
    lemma_find_unknown_bound(df2, opt_text(b.vname));
    assert(df.take(df.len() - 1) =~= dl);
    lemma_unknown_count_prefix(df, df.len() - 1);
    lemma_unknown_count_grows(df, j, df.len() as int);
    assert(df.take(df.len() as int) =~= df);
    lemma_d_fold_shape(dl, df2, m, u);
    lemma_only_writer_before(df, df2, j, r, c);
    if kind_of(b) == 'F' {
        lemma_only_writer_before(df, df2, j, r, r);
    }
    if j == df.len() - 1 {
        assert(dl =~= df.take(j));
        lemma_d_fold_keeps_cell(dl, df2, m, u, r, c);
        assert(df.last() == b);
    } else {
        assert(dl[j] == b);
        assert(dl.take(j) =~= df.take(j));
        lemma_controlled_entries(dl, df2, m, u, j, r, c);
        if let Ok(prev) = d_fold(dl, df2, m) {
            lemma_d_step_keeps_cell(df, df2, m, prev, u, r, c);
            if kind_of(b) == 'F' {
                lemma_d_step_keeps_cell(df, df2, m, prev, u, r, r);
            }
        }
    }
}

/// A current-controlled source writes minus its lower-cased name into its
/// own row at the column of its controlling current, and a current-
/// controlled current source puts `1` on its own diagonal, where nothing
/// else writes there: in the system of analysed lines, at the row of its
/// own current and the column of the current it names.
#[verifier::spinoff_prover]
#[verifier::rlimit(50)]
pub proof fn law_controlled_source_entries(content: Seq<Seq<char>>, j: int)
    requires
        !lines_out_of_range(content),
    ensures
        smna_lines_spec(content) matches Ok(t) ==> (0 <= j < t.df.len() && (kind_of(t.df[j]) == 'H'
            || kind_of(t.df[j]) == 'F') && find_unknown(t.df2, opt_text(t.df[j].vname)) is Some
            && only_writer(
            t.df,
            t.df2,
            j,
            unknown_count(t.df.take(j)) as int,
            find_unknown(t.df2, opt_text(t.df[j].vname))->Some_0 as int,
        ) && (kind_of(t.df[j]) == 'F' ==> only_writer(
            t.df,
            t.df2,
            j,
            unknown_count(t.df.take(j)) as int,
            unknown_count(t.df.take(j)) as int,
        )) ==> (node_count_spec(t.df, content.len()) matches Ok(n) && {
            let r = unknown_count(t.df.take(j));
            let c = find_unknown(t.df2, opt_text(t.df[j].vname))->Some_0;
            &&& kind_of(t.df[j]) == 'F' ==> t.a[(n + r) as int][(n + r) as int] == one_text()
            &&& (kind_of(t.df[j]) == 'H' || r != c) ==> t.a[(n + r) as int][(n + c) as int]
                == neg_text(lowercase_of(t.df[j].element))
        })),
{
    if let Ok(t) = smna_lines_spec(content) {
        if 0 <= j < t.df.len() && (kind_of(t.df[j]) == 'H' || kind_of(t.df[j]) == 'F') && find_unknown(
            t.df2,
            opt_text(t.df[j].vname),
        ) is Some {
            let r = unknown_count(t.df.take(j)) as int;
            let c = find_unknown(t.df2, opt_text(t.df[j].vname))->Some_0 as int;
            if only_writer(t.df, t.df2, j, r, c) && (kind_of(t.df[j]) == 'F' ==> only_writer(
                t.df,
                t.df2,
                j,
                r,
                r,
            )) {
                let u = t.df2.len();
                lemma_system_d_entry(content, r, c);
                lemma_system_d_entry(content, r, r);
                lemma_controlled_entries(t.df, t.df2, zeros_text(u, u), u, j, r, c);
                assert(zeros_text(u, u)[r][c] == zero_text());
            }
        }
    }
}

} // verus!
