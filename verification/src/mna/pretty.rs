use vstd::prelude::*;
use crate::analysis::output::{equation_lhs, equation_line, equations_spec, lhs_text, rhs_text, EquationText};
use crate::mna::expr::Expr;
use crate::mna::mna::{solution_entries, solution_le, sorted_solutions};
use crate::text::{push_str, push_usize};

verus! {

/// The equation lines of the rows of `a`, each ended by a newline.
pub open spec fn system_lines(a: Seq<Seq<Seq<char>>>, x: Seq<Seq<char>>, z: Seq<Seq<char>>) -> Seq<
    char,
>
    decreases a.len(),
{
    if a.len() == 0 {
        seq![]
    } else {
        let i = a.len() - 1;
        system_lines(a.drop_last(), x, z) + equation_line(
            (i + 1) as nat,
            lhs_text(a.last(), x),
            rhs_text(z, i),
        ) + seq!['\n']
    }
}

/// The system `a·x = z` as text: a title, then one `eq_<n>: lhs = rhs` line
/// per row.
pub open spec fn system_text(a: Seq<Seq<Seq<char>>>, x: Seq<Seq<char>>, z: Seq<Seq<char>>) -> Seq<
    char,
> {
    "MNA system\n==========\n\n"@ + if a.len() == 0 {
        "<empty system>\n"@
    } else {
        system_lines(a, x, z)
    }
}

/// One `name = expression` line per solution, in order.
pub open spec fn solution_lines(entries: Seq<(Seq<char>, Seq<char>)>) -> Seq<char>
    decreases entries.len(),
{
    if entries.len() == 0 {
        seq![]
    } else {
        solution_lines(entries.drop_last()) + entries.last().0 + " = "@ + entries.last().1 + seq![
            '\n',
        ]
    }
}

/// The solutions as text: a title, then one line per unknown by name.
pub open spec fn solutions_text(entries: Seq<(Seq<char>, Seq<char>)>) -> Seq<char> {
    "MNA solutions\n=============\n\n"@ + if entries.len() == 0 {
        "<empty solutions>\n"@
    } else {
        solution_lines(entries.sort_by(solution_le()))
    }
}

/// The system `a·x = z` written out equation by equation.
pub fn pretty_system(a: &Vec<Vec<Expr>>, x: &Vec<Expr>, z: &Vec<Expr>) -> (r: String)
    ensures
        r@ == system_text(a.deep_view(), x.deep_view(), z.deep_view()),
{
    let mut out = String::new();
    push_str(&mut out, "MNA system\n==========\n\n");
    if a.len() == 0 {
        push_str(&mut out, "<empty system>\n");
        return out;
    }
    let ghost head = out@;
    let ghost av = a.deep_view();
    let ghost xv = x.deep_view();
    let ghost zv = z.deep_view();
    let mut i: usize = 0;
    assert(av.take(0) =~= Seq::<Seq<Seq<char>>>::empty());
    while i < a.len()
        invariant
            i <= a.len(),
            av == a.deep_view(),
            xv == x.deep_view(),
            zv == z.deep_view(),
            out@ == head + system_lines(av.take(i as int), xv, zv),
        decreases a.len() - i,
    {
        assert(av.take(i + 1).drop_last() =~= av.take(i as int));
        assert(av.take(i + 1).last() == a@[i as int].deep_view());
        let lhs = equation_lhs(&a[i], x);
        push_str(&mut out, "eq_");
        push_usize(&mut out, i + 1);
        push_str(&mut out, ": ");
        push_str(&mut out, lhs.as_str());
        push_str(&mut out, " = ");
        if i < z.len() {
            push_str(&mut out, z[i].as_str());
        } else {
            push_str(&mut out, "<missing rhs>");
        }
        out.push('\n');
        assert(out@ =~= head + system_lines(av.take(i + 1), xv, zv));
        i = i + 1;
    }
    assert(av.take(a.len() as int) =~= av);
    out
}

/// The solutions written out one per line, ordered by name.
pub fn pretty_solutions(solutions: &Vec<(String, String)>) -> (r: String)
    ensures
        r@ == solutions_text(solution_entries(solutions@)),
{
    let mut out = String::new();
    push_str(&mut out, "MNA solutions\n=============\n\n");
    if solutions.len() == 0 {
        push_str(&mut out, "<empty solutions>\n");
        return out;
    }
    let entries = sorted_solutions(solutions);
    let ghost head = out@;
    let ghost ev = solution_entries(entries@);
    let mut i: usize = 0;
    assert(ev.take(0) =~= Seq::<(Seq<char>, Seq<char>)>::empty());
    while i < entries.len()
        invariant
            i <= entries.len(),
            ev == solution_entries(entries@),
            out@ == head + solution_lines(ev.take(i as int)),
        decreases entries.len() - i,
    {
        assert(ev.take(i + 1).drop_last() =~= ev.take(i as int));
        push_str(&mut out, entries[i].0.as_str());
        push_str(&mut out, " = ");
        push_str(&mut out, entries[i].1.as_str());
        out.push('\n');
        assert(out@ =~= head + solution_lines(ev.take(i + 1)));
        i = i + 1;
    }
    assert(ev.take(entries.len() as int) =~= ev);
    out
}

/// The texts of equations, each followed by a newline.
pub open spec fn equation_block(eqs: Seq<EquationText>) -> Seq<char>
    decreases eqs.len(),
{
    if eqs.len() == 0 {
        seq![]
    } else {
        equation_block(eqs.drop_last()) + eqs.last().text + seq!['\n']
    }
}

proof fn lemma_system_lines_block(a: Seq<Seq<Seq<char>>>, x: Seq<Seq<char>>, z: Seq<Seq<char>>)
    ensures
        system_lines(a, x, z) == equation_block(equations_spec(a, x, z)),
    decreases a.len(),
{
    if a.len() > 0 {
        lemma_system_lines_block(a.drop_last(), x, z);
        assert(equations_spec(a, x, z).drop_last() =~= equations_spec(a.drop_last(), x, z));
    }
}

/// The printed system is its equations, as the structured output lists
/// them, one per line under the title.
pub proof fn law_system_text_lists_equations(
    a: Seq<Seq<Seq<char>>>,
    x: Seq<Seq<char>>,
    z: Seq<Seq<char>>,
)
    requires
        a.len() > 0,
    ensures
        system_text(a, x, z) == "MNA system\n==========\n\n"@ + equation_block(
            equations_spec(a, x, z),
        ),
{
    lemma_system_lines_block(a, x, z);
}

} // verus!
