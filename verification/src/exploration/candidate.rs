use vstd::prelude::*;
use crate::text::{str_eq, string_from};

verus! {

/// Why a candidate set could not be built from columns.
#[derive(Debug, Clone, PartialEq, Eq)]
pub enum CandidateSetBuildError {
    EmptyColumns,
    ColumnLengthMismatch { column: String, expected: usize, actual: usize },
}

/// Why an expression could not be evaluated on a candidate.
#[derive(Debug, Clone, PartialEq, Eq)]
pub enum CandidateEvaluationError {
    MissingValue { candidate: usize, column: String },
    UnsupportedPreparedSource { source: &'static str },
    Expression { candidate: usize, expression: String, reason: String },
}

/// Why candidates could not be generated.
#[derive(Debug, Clone, PartialEq, Eq)]
pub enum CandidateGenerationError {
    EmptyAxis { axis: String },
    EmptySet { set: String },
}

/// A candidate's named values, by name text.
pub open spec fn pairs_view<V>(p: Seq<(String, V)>) -> Seq<(Seq<char>, V)> {
    p.map_values(|x: (String, V)| (x.0@, x.1))
}

/// Candidates, each by its named values.
pub open spec fn points_view<V>(ps: Seq<Vec<(String, V)>>) -> Seq<Seq<(Seq<char>, V)>> {
    ps.map_values(|p: Vec<(String, V)>| pairs_view(p@))
}

/// Every candidate followed by every addition: the first candidate with
/// each addition in order, then the next candidate, and so on.
pub open spec fn extend_each<V>(
    cands: Seq<Seq<(Seq<char>, V)>>,
    additions: Seq<Seq<(Seq<char>, V)>>,
) -> Seq<Seq<(Seq<char>, V)>>
    decreases cands.len(),
{
    if cands.len() == 0 {
        seq![]
    } else {
        extend_each(cands.drop_last(), additions) + Seq::new(
            additions.len(),
            |q: int| cands.last() + additions[q],
        )
    }
}

/// Axes by name text and values.
pub open spec fn axes_view<V>(axes: Seq<(String, Vec<V>)>) -> Seq<(Seq<char>, Seq<V>)> {
    axes.map_values(|a: (String, Vec<V>)| (a.0@, a.1@))
}

/// The grid of the axes: every choice of one value per axis, the last axis
/// varying fastest; the first axis without values, if one is.
pub open spec fn grid_of<V>(axes: Seq<(Seq<char>, Seq<V>)>) -> Result<
    Seq<Seq<(Seq<char>, V)>>,
    Seq<char>,
>
    decreases axes.len(),
{
    if axes.len() == 0 {
        Ok(seq![seq![]])
    } else {
        match grid_of(axes.drop_last()) {
            Err(a) => Err(a),
            Ok(prev) => {
                let axis = axes.last();
                if axis.1.len() == 0 {
                    Err(axis.0)
                } else {
                    Ok(extend_each(prev, Seq::new(axis.1.len(), |q: int| seq![(axis.0, axis.1[q])])))
                }
            },
        }
    }
}

/// Sets by name text and points.
pub open spec fn sets_view<V>(sets: Seq<(String, Vec<Vec<(String, V)>>)>) -> Seq<
    (Seq<char>, Seq<Seq<(Seq<char>, V)>>),
> {
    sets.map_values(|s: (String, Vec<Vec<(String, V)>>)| (s.0@, points_view(s.1@)))
}

/// Every choice of one point per set, their values joined in set order,
/// the last set varying fastest; the first set without points, if one is.
pub open spec fn combinations_of<V>(sets: Seq<(Seq<char>, Seq<Seq<(Seq<char>, V)>>)>) -> Result<
    Seq<Seq<(Seq<char>, V)>>,
    Seq<char>,
>
    decreases sets.len(),
{
    if sets.len() == 0 {
        Ok(seq![seq![]])
    } else {
        match combinations_of(sets.drop_last()) {
            Err(a) => Err(a),
            Ok(prev) => {
                let set = sets.last();
                if set.1.len() == 0 {
                    Err(set.0)
                } else {
                    Ok(extend_each(prev, set.1))
                }
            },
        }
    }
}

fn join_values<V: Copy>(a: &Vec<(String, V)>, b: &Vec<(String, V)>) -> (r: Vec<(String, V)>)
    ensures
        pairs_view(r@) == pairs_view(a@) + pairs_view(b@),
{
    let mut out: Vec<(String, V)> = Vec::new();
    let mut i: usize = 0;
    while i < a.len()
        invariant
            i <= a@.len(),
            pairs_view(out@) == pairs_view(a@).take(i as int),
        decreases a.len() - i,
    {
        let (name, value) = (string_from(a[i].0.as_str()), a[i].1);
        let ghost before = pairs_view(out@);
        out.push((name, value));
        proof {
            assert(pairs_view(out@) =~= before.push((a@[i as int].0@, a@[i as int].1)));
            assert(pairs_view(a@)[i as int] == (a@[i as int].0@, a@[i as int].1));
            assert(pairs_view(a@).take(i + 1) =~= pairs_view(a@).take(i as int).push(
                pairs_view(a@)[i as int],
            ));
            assert(pairs_view(out@) =~= pairs_view(a@).take(i + 1));
        }
        i = i + 1;
    }
    let mut j: usize = 0;
    while j < b.len()
        invariant
            j <= b@.len(),
            pairs_view(out@) == pairs_view(a@) + pairs_view(b@).take(j as int),
        decreases b.len() - j,
    {
        let (name, value) = (string_from(b[j].0.as_str()), b[j].1);
        let ghost before = pairs_view(out@);
        out.push((name, value));
        proof {
            assert(pairs_view(out@) =~= before.push((b@[j as int].0@, b@[j as int].1)));
            assert(pairs_view(b@)[j as int] == (b@[j as int].0@, b@[j as int].1));
            assert(pairs_view(b@).take(j + 1) =~= pairs_view(b@).take(j as int).push(
                pairs_view(b@)[j as int],
            ));
            assert(pairs_view(out@) =~= pairs_view(a@) + pairs_view(b@).take(j + 1));
        }
        j = j + 1;
    }
    proof {
        assert(pairs_view(a@).take(a@.len() as int) =~= pairs_view(a@));
        assert(pairs_view(b@).take(b@.len() as int) =~= pairs_view(b@));
    }
    out
}

fn extend_candidates<V: Copy>(cands: &Vec<Vec<(String, V)>>, additions: &Vec<Vec<(String, V)>>) -> (r:
    Vec<Vec<(String, V)>>)
    ensures
        points_view(r@) == extend_each(points_view(cands@), points_view(additions@)),
{
    let ghost pc = points_view(cands@);
    let ghost pa = points_view(additions@);
    let mut out: Vec<Vec<(String, V)>> = Vec::new();
    let mut i: usize = 0;
    proof {
        assert(pc.take(0) =~= Seq::<Seq<(Seq<char>, V)>>::empty());
        assert(points_view(out@) =~= Seq::<Seq<(Seq<char>, V)>>::empty());
    }
    while i < cands.len()
        invariant
            i <= cands@.len(),
            pc == points_view(cands@),
            pa == points_view(additions@),
            points_view(out@) == extend_each(pc.take(i as int), pa),
        decreases cands.len() - i,
    {
        let ghost base = points_view(out@);
        let mut j: usize = 0;
        while j < additions.len()
            invariant
                i < cands@.len(),
                j <= additions@.len(),
                pc == points_view(cands@),
                pa == points_view(additions@),
                points_view(out@).len() == base.len() + j,
                forall|q: int| 0 <= q < base.len() ==> points_view(out@)[q] == base[q],
                forall|q: int|
                    base.len() <= q < base.len() + j ==> #[trigger] points_view(out@)[q]
                        == pc[i as int] + pa[q - base.len()],
            decreases additions.len() - j,
        {
            let joined = join_values(&cands[i], &additions[j]);
            proof {
                assert(pc[i as int] == pairs_view(cands@[i as int]@));
                assert(pa[j as int] == pairs_view(additions@[j as int]@));
            }
            let ghost before = points_view(out@);
            out.push(joined);
            proof {
                assert(points_view(out@) =~= before.push(pairs_view(joined@)));
            }
            j = j + 1;
        }
        proof {
            let t = pc.take(i + 1);
            assert(t.drop_last() =~= pc.take(i as int));
            assert(t.last() == pc[i as int]);
            let ext = extend_each(pc.take(i as int), pa) + Seq::new(
                pa.len(),
                |q: int| t.last() + pa[q],
            );
            assert(ext.len() == points_view(out@).len());
            assert forall|q: int| 0 <= q < ext.len() implies #[trigger] points_view(out@)[q]
                == ext[q] by {
                if q >= base.len() {
                    assert(points_view(out@)[q] == pc[i as int] + pa[q - base.len()]);
                }
            }
            assert(points_view(out@) =~= ext);
        }
        i = i + 1;
    }
    proof {
        assert(pc.take(cands@.len() as int) =~= pc);
    }
    out
}

/// Every choice of one value per axis, each as the named values in axis
/// order, the last axis varying fastest; an axis without values is an
/// error.
pub fn generate_grid<V: Copy>(axes: &Vec<(String, Vec<V>)>) -> (r: Result<
    Vec<Vec<(String, V)>>,
    CandidateGenerationError,
>)
    ensures
        match r {
            Ok(c) => grid_of(axes_view(axes@)) == Ok::<_, Seq<char>>(points_view(c@)),
            Err(CandidateGenerationError::EmptyAxis { axis }) => grid_of(axes_view(axes@)) == Err::<
                Seq<Seq<(Seq<char>, V)>>,
                _,
            >(axis@),
            Err(CandidateGenerationError::EmptySet { .. }) => false,
        },
{
    let ghost av = axes_view(axes@);
    let mut cands: Vec<Vec<(String, V)>> = Vec::new();
    let empty: Vec<(String, V)> = Vec::new();
    proof {
        assert(pairs_view(empty@) =~= Seq::<(Seq<char>, V)>::empty());
    }
    cands.push(empty);
    let mut k: usize = 0;
    proof {
        assert(av.take(0) =~= Seq::<(Seq<char>, Seq<V>)>::empty());
        assert(points_view(cands@) =~= seq![Seq::<(Seq<char>, V)>::empty()]);
    }
    while k < axes.len()
        invariant
            k <= axes@.len(),
            av == axes_view(axes@),
            grid_of(av.take(k as int)) == Ok::<_, Seq<char>>(points_view(cands@)),
        decreases axes.len() - k,
    {
        let axis = &axes[k];
        proof {
            assert(av.take(k + 1).drop_last() =~= av.take(k as int));
            assert(av.take(k + 1).last() == (axis.0@, axis.1@));
        }
        if axis.1.len() == 0 {
            proof {
                lemma_grid_prefix_err(av, k + 1);
            }
            return Err(CandidateGenerationError::EmptyAxis { axis: string_from(axis.0.as_str()) });
        }
        let mut additions: Vec<Vec<(String, V)>> = Vec::new();
        let mut j: usize = 0;
        while j < axis.1.len()
            invariant
                j <= axis.1@.len(),
                points_view(additions@) == Seq::new(j as nat, |q: int| seq![(axis.0@, axis.1@[q])]),
            decreases axis.1.len() - j,
        {
            let mut one: Vec<(String, V)> = Vec::new();
            one.push((string_from(axis.0.as_str()), axis.1[j]));
            proof {
                assert(pairs_view(one@) =~= seq![(axis.0@, axis.1@[j as int])]);
            }
            let ghost before = points_view(additions@);
            additions.push(one);
            proof {
                assert(points_view(additions@) =~= before.push(pairs_view(one@)));
                assert(points_view(additions@) =~= Seq::new(
                    (j + 1) as nat,
                    |q: int| seq![(axis.0@, axis.1@[q])],
                ));
            }
            j = j + 1;
        }
        cands = extend_candidates(&cands, &additions);
        k = k + 1;
    }
    proof {
        assert(av.take(axes@.len() as int) =~= av);
    }
    Ok(cands)
}

proof fn lemma_grid_prefix_err<V>(axes: Seq<(Seq<char>, Seq<V>)>, n: int)
    requires
        0 < n <= axes.len(),
        grid_of(axes.take(n)) is Err,
    ensures
        grid_of(axes) == grid_of(axes.take(n)),
    decreases axes.len() - n,
{
    if n < axes.len() {
        assert(axes.take(n + 1).drop_last() =~= axes.take(n));
        lemma_grid_prefix_err(axes, n + 1);
    } else {
        assert(axes.take(n) =~= axes);
    }
}

proof fn lemma_combinations_prefix_err<V>(sets: Seq<(Seq<char>, Seq<Seq<(Seq<char>, V)>>)>, n: int)
    requires
        0 < n <= sets.len(),
        combinations_of(sets.take(n)) is Err,
    ensures
        combinations_of(sets) == combinations_of(sets.take(n)),
    decreases sets.len() - n,
{
    if n < sets.len() {
        assert(sets.take(n + 1).drop_last() =~= sets.take(n));
        lemma_combinations_prefix_err(sets, n + 1);
    } else {
        assert(sets.take(n) =~= sets);
    }
}

/// Every choice of one point per set, each as the values of the chosen
/// points joined in set order, the last set varying fastest; a set without
/// points is an error.
pub fn generate_combinations<V: Copy>(sets: &Vec<(String, Vec<Vec<(String, V)>>)>) -> (r: Result<
    Vec<Vec<(String, V)>>,
    CandidateGenerationError,
>)
    ensures
        match r {
            Ok(c) => combinations_of(sets_view(sets@)) == Ok::<_, Seq<char>>(points_view(c@)),
            Err(CandidateGenerationError::EmptySet { set }) => combinations_of(sets_view(sets@))
                == Err::<Seq<Seq<(Seq<char>, V)>>, _>(set@),
            Err(CandidateGenerationError::EmptyAxis { .. }) => false,
        },
{
    let ghost sv = sets_view(sets@);
    let mut cands: Vec<Vec<(String, V)>> = Vec::new();
    let empty: Vec<(String, V)> = Vec::new();
    proof {
        assert(pairs_view(empty@) =~= Seq::<(Seq<char>, V)>::empty());
    }
    cands.push(empty);
    let mut k: usize = 0;
    proof {
        assert(sv.take(0) =~= Seq::<(Seq<char>, Seq<Seq<(Seq<char>, V)>>)>::empty());
        assert(points_view(cands@) =~= seq![Seq::<(Seq<char>, V)>::empty()]);
    }
    while k < sets.len()
        invariant
            k <= sets@.len(),
            sv == sets_view(sets@),
            combinations_of(sv.take(k as int)) == Ok::<_, Seq<char>>(points_view(cands@)),
        decreases sets.len() - k,
    {
        let set = &sets[k];
        proof {
            assert(sv.take(k + 1).drop_last() =~= sv.take(k as int));
            assert(sv.take(k + 1).last() == (set.0@, points_view(set.1@)));
        }
        if set.1.len() == 0 {
            proof {
                lemma_combinations_prefix_err(sv, k + 1);
            }
            return Err(CandidateGenerationError::EmptySet { set: string_from(set.0.as_str()) });
        }
        cands = extend_candidates(&cands, &set.1);
        k = k + 1;
    }
    proof {
        assert(sv.take(sets@.len() as int) =~= sv);
    }
    Ok(cands)
}

/// The first of the first `k` columns whose length is not `n`.
pub open spec fn first_length_mismatch<V>(cols: Seq<(Seq<char>, Seq<V>)>, n: nat, k: nat) -> Option<
    int,
>
    decreases k,
{
    if k == 0 {
        None
    } else {
        match first_length_mismatch(cols, n, (k - 1) as nat) {
            Some(j) => Some(j),
            None => if cols[k - 1].1.len() != n {
                Some(k - 1)
            } else {
                None
            },
        }
    }
}

/// The `n` rows of columns, each row the named values of that row.
pub open spec fn rows_of<V>(cols: Seq<(Seq<char>, Seq<V>)>, n: nat) -> Seq<Seq<(Seq<char>, V)>> {
    Seq::new(n, |r: int| Seq::new(cols.len(), |c: int| (cols[c].0, cols[c].1[r])))
}

/// The candidates that columns of equal length give, one for each row, with
/// the columns' names in order; no columns, or a column whose length is
/// not the first column's, is an error.
pub fn candidate_points_from_columns<V: Copy>(columns: &Vec<(String, Vec<V>)>) -> (r: Result<
    Vec<Vec<(String, V)>>,
    CandidateSetBuildError,
>)
    ensures
        ({
            let cv = axes_view(columns@);
            match r {
                Ok(points) => {
                    &&& cv.len() > 0
                    &&& first_length_mismatch(cv, cv[0].1.len(), cv.len()) is None
                    &&& points_view(points@) == rows_of(cv, cv[0].1.len())
                },
                Err(CandidateSetBuildError::EmptyColumns) => cv.len() == 0,
                Err(CandidateSetBuildError::ColumnLengthMismatch { column, expected, actual }) => {
                    &&& cv.len() > 0
                    &&& first_length_mismatch(cv, cv[0].1.len(), cv.len()) matches Some(j)
                    &&& column@ == cv[j].0
                    &&& expected == cv[0].1.len()
                    &&& actual == cv[j].1.len()
                },
            }
        }),
{
    let ghost cv = axes_view(columns@);
    if columns.len() == 0 {
        return Err(CandidateSetBuildError::EmptyColumns);
    }
    let row_count = columns[0].1.len();
    let mut c: usize = 0;
    while c < columns.len()
        invariant
            c <= columns@.len(),
            cv == axes_view(columns@),
            row_count == cv[0].1.len(),
            first_length_mismatch(cv, row_count as nat, c as nat) is None,
            forall|q: int| 0 <= q < c ==> (#[trigger] cv[q]).1.len() == row_count,
        decreases columns.len() - c,
    {
        let actual = columns[c].1.len();
        proof {
            assert(cv[c as int] == (columns@[c as int].0@, columns@[c as int].1@));
        }
        if actual != row_count {
            proof {
                lemma_mismatch_stays(cv, row_count as nat, (c + 1) as nat);
            }
            return Err(
                CandidateSetBuildError::ColumnLengthMismatch {
                    column: string_from(columns[c].0.as_str()),
                    expected: row_count,
                    actual,
                },
            );
        }
        c = c + 1;
    }
    let ghost rows = rows_of(cv, row_count as nat);
    let mut points: Vec<Vec<(String, V)>> = Vec::new();
    let mut r: usize = 0;
    while r < row_count
        invariant
            r <= row_count,
            cv == axes_view(columns@),
            row_count == cv[0].1.len(),
            forall|q: int| 0 <= q < cv.len() ==> (#[trigger] cv[q]).1.len() == row_count,
            rows == rows_of(cv, row_count as nat),
            points_view(points@) == rows.take(r as int),
        decreases row_count - r,
    {
        let mut point: Vec<(String, V)> = Vec::new();
        let mut k: usize = 0;
        while k < columns.len()
            invariant
                r < row_count,
                k <= columns@.len(),
                cv == axes_view(columns@),
                forall|q: int| 0 <= q < cv.len() ==> (#[trigger] cv[q]).1.len() == row_count,
                pairs_view(point@) == rows[r as int].take(k as int),
                rows == rows_of(cv, row_count as nat),
            decreases columns.len() - k,
        {
            proof {
                assert(cv[k as int] == (columns@[k as int].0@, columns@[k as int].1@));
            }
            let name = string_from(columns[k].0.as_str());
            let value = columns[k].1[r];
            let ghost before = pairs_view(point@);
            point.push((name, value));
            proof {
                assert(pairs_view(point@) =~= before.push((cv[k as int].0, cv[k as int].1[r as int])));
                assert(rows[r as int].take(k + 1) =~= rows[r as int].take(k as int).push(
                    rows[r as int][k as int],
                ));
            }
            k = k + 1;
        }
        proof {
            assert(rows[r as int].take(columns@.len() as int) =~= rows[r as int]);
        }
        let ghost before = points_view(points@);
        points.push(point);
        proof {
            assert(points_view(points@) =~= before.push(pairs_view(point@)));
            assert(rows.take(r + 1) =~= rows.take(r as int).push(rows[r as int]));
        }
        r = r + 1;
    }
    proof {
        assert(rows.take(row_count as int) =~= rows);
    }
    Ok(points)
}

proof fn lemma_mismatch_stays<V>(cols: Seq<(Seq<char>, Seq<V>)>, n: nat, k: nat)
    requires
        0 < k <= cols.len(),
        first_length_mismatch(cols, n, k) is Some,
    ensures
        first_length_mismatch(cols, n, cols.len()) == first_length_mismatch(cols, n, k),
    decreases cols.len() - k,
{
    if k < cols.len() {
        lemma_mismatch_stays(cols, n, k + 1);
    }
}

/// The value of the first entry of a candidate named `name`.
pub open spec fn value_named<V>(point: Seq<(Seq<char>, V)>, name: Seq<char>) -> Option<V>
    decreases point.len(),
{
    if point.len() == 0 {
        None
    } else if point[0].0 == name {
        Some(point[0].1)
    } else {
        value_named(point.drop_first(), name)
    }
}

/// The value a candidate gives `name`: that of its first entry of that name.
pub fn candidate_value<V: Copy>(point: &Vec<(String, V)>, name: &str) -> (r: Option<V>)
    ensures
        r == value_named(pairs_view(point@), name@),
{
    let ghost pv = pairs_view(point@);
    let mut i: usize = 0;
    assert(pv.skip(0) =~= pv);
    while i < point.len()
        invariant
            i <= point@.len(),
            pv == pairs_view(point@),
            value_named(pv, name@) == value_named(pv.skip(i as int), name@),
        decreases point.len() - i,
    {
        proof {
            assert(pv.skip(i as int)[0] == (point@[i as int].0@, point@[i as int].1));
            assert(pv.skip(i as int).drop_first() =~= pv.skip(i + 1));
        }
        if str_eq(point[i].0.as_str(), name) {
            return Some(point[i].1);
        }
        i = i + 1;
    }
    proof {
        assert(pv.skip(i as int) =~= Seq::<(Seq<char>, V)>::empty());
    }
    None
}

/// The values the first `n` candidates give `name`, skipping those that
/// have no entry of that name.
pub open spec fn values_named<V>(points: Seq<Seq<(Seq<char>, V)>>, name: Seq<char>, n: nat) -> Seq<V>
    decreases n,
{
    if n == 0 {
        seq![]
    } else {
        let prev = values_named(points, name, (n - 1) as nat);
        match value_named(points[n - 1], name) {
            Some(v) => prev.push(v),
            None => prev,
        }
    }
}

/// The columns of candidates: one for each entry name of the first
/// candidate, in order, with the value each candidate gives that name.
pub open spec fn columns_of<V>(points: Seq<Seq<(Seq<char>, V)>>) -> Seq<(Seq<char>, Seq<V>)> {
    if points.len() == 0 {
        seq![]
    } else {
        Seq::new(
            points[0].len(),
            |c: int| (points[0][c].0, values_named(points, points[0][c].0, points.len())),
        )
    }
}

/// The candidates as columns, named after the entries of the first one.
pub fn candidate_columns<V: Copy>(points: &Vec<Vec<(String, V)>>) -> (r: Vec<(String, Vec<V>)>)
    ensures
        axes_view(r@) == columns_of(points_view(points@)),
{
    let ghost pv = points_view(points@);
    let mut out: Vec<(String, Vec<V>)> = Vec::new();
    if points.len() == 0 {
        proof {
            assert(axes_view(out@) =~= columns_of(pv));
        }
        return out;
    }
    let first = &points[0];
    proof {
        assert(pv[0] == pairs_view(first@));
    }
    let mut c: usize = 0;
    while c < first.len()
        invariant
            c <= first@.len(),
            pv == points_view(points@),
            pv.len() > 0,
            pv[0] == pairs_view(first@),
            axes_view(out@) == columns_of(pv).take(c as int),
        decreases first.len() - c,
    {
        let name = first[c].0.as_str();
        proof {
            assert(pv[0][c as int] == (first@[c as int].0@, first@[c as int].1));
        }
        let mut values: Vec<V> = Vec::new();
        let mut i: usize = 0;
        while i < points.len()
            invariant
                i <= points@.len(),
                pv == points_view(points@),
                values@ == values_named(pv, name@, i as nat),
            decreases points.len() - i,
        {
            proof {
                assert(pv[i as int] == pairs_view(points@[i as int]@));
            }
            match candidate_value(&points[i], name) {
                Some(v) => values.push(v),
                None => {},
            }
            i = i + 1;
        }
        let ghost before = axes_view(out@);
        out.push((string_from(name), values));
        proof {
            assert(axes_view(out@) =~= before.push((name@, values@)));
            assert(columns_of(pv).take(c + 1) =~= columns_of(pv).take(c as int).push(
                columns_of(pv)[c as int],
            ));
        }
        c = c + 1;
    }
    proof {
        assert(columns_of(pv).take(first@.len() as int) =~= columns_of(pv));
    }
    out
}

proof fn lemma_no_mismatch<V>(cols: Seq<(Seq<char>, Seq<V>)>, n: nat, k: nat)
    requires
        k <= cols.len(),
        first_length_mismatch(cols, n, k) is None,
    ensures
        forall|c: int| 0 <= c < k ==> (#[trigger] cols[c]).1.len() == n,
    decreases k,
{
    if k > 0 {
        lemma_no_mismatch(cols, n, (k - 1) as nat);
    }
}

proof fn lemma_value_at_first_name<V>(point: Seq<(Seq<char>, V)>, c: int)
    requires
        0 <= c < point.len(),
        forall|d: int| 0 <= d < c ==> (#[trigger] point[d]).0 != point[c].0,
    ensures
        value_named(point, point[c].0) == Some(point[c].1),
    decreases c,
{
    if c > 0 {
        let rest = point.drop_first();
        assert forall|d: int| 0 <= d < c - 1 implies (#[trigger] rest[d]).0 != rest[c - 1].0 by {
            assert(rest[d] == point[d + 1]);
        }
        lemma_value_at_first_name(rest, c - 1);
        assert(point[0].0 != point[c].0);
    }
}

proof fn lemma_values_of_column<V>(cols: Seq<(Seq<char>, Seq<V>)>, n: nat, c: int, k: nat)
    requires
        0 <= c < cols.len(),
        k <= n,
        forall|j: int| 0 <= j < cols.len() ==> (#[trigger] cols[j]).1.len() == n,
        forall|i: int, j: int| 0 <= i < j < cols.len() ==> (#[trigger] cols[i]).0 != (#[trigger] cols[j]).0,
    ensures
        values_named(rows_of(cols, n), cols[c].0, k) == cols[c].1.take(k as int),
    decreases k,
{
    if k > 0 {
        lemma_values_of_column(cols, n, c, (k - 1) as nat);
        let row = rows_of(cols, n)[k - 1];
        assert forall|d: int| 0 <= d < c implies (#[trigger] row[d]).0 != row[c].0 by {
            assert(row[d].0 == cols[d].0);
            assert(cols[d].0 != cols[c].0);
        }
        lemma_value_at_first_name(row, c);
        assert(cols[c].1.take(k as int) =~= cols[c].1.take(k - 1).push(cols[c].1[k - 1]));
    }
}

/// Candidates built from columns turn back into the same columns: where
/// there is at least one row and no two columns share a name, the columns
/// of the candidates are the columns they were built from.
pub proof fn law_candidate_columns_round_trip<V>(cols: Seq<(Seq<char>, Seq<V>)>)
    requires
        cols.len() > 0,
        cols[0].1.len() > 0,
        first_length_mismatch(cols, cols[0].1.len(), cols.len()) is None,
        forall|i: int, j: int| 0 <= i < j < cols.len() ==> (#[trigger] cols[i]).0 != (#[trigger] cols[j]).0,
    ensures
        columns_of(rows_of(cols, cols[0].1.len())) == cols,
{
    let n = cols[0].1.len();
    lemma_no_mismatch(cols, n, cols.len());
    let points = rows_of(cols, n);
    assert forall|c: int| 0 <= c < cols.len() implies #[trigger] columns_of(points)[c] == cols[c] by {
        lemma_values_of_column(cols, n, c, n);
        assert(cols[c].1.take(n as int) =~= cols[c].1);
    }
    assert(columns_of(points) =~= cols);
}

} // verus!

