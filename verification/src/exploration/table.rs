use vstd::prelude::*;
use crate::exploration::candidate::axes_view;
use crate::text::string_from;

verus! {

/// Why a table of exploration results could not be built or extended.
#[derive(Debug, Clone, PartialEq, Eq)]
pub enum ExplorationTableError {
    MissingColumn { column: String },
    MaskLengthMismatch { column: String, mask_len: usize, values_len: usize },
    ColumnLengthMismatch { column: String, expected: usize, actual: usize },
}

/// How many rows a mask keeps.
pub open spec fn kept_count(mask: Seq<bool>) -> nat
    decreases mask.len(),
{
    if mask.len() == 0 {
        0
    } else {
        kept_count(mask.drop_last()) + if mask.last() {
            1nat
        } else {
            0nat
        }
    }
}

/// The values of the rows a mask keeps, in order.
pub open spec fn masked<V>(values: Seq<V>, mask: Seq<bool>) -> Seq<V>
    decreases mask.len(),
{
    if mask.len() == 0 || values.len() == 0 {
        seq![]
    } else if mask.last() {
        masked(values.drop_last(), mask.drop_last()).push(values.last())
    } else {
        masked(values.drop_last(), mask.drop_last())
    }
}

/// The first of the first `k` columns whose length is not the mask's.
pub open spec fn first_mask_mismatch<V>(cols: Seq<(Seq<char>, Seq<V>)>, n: nat, k: nat) -> Option<int>
    decreases k,
{
    if k == 0 {
        None
    } else {
        match first_mask_mismatch(cols, n, (k - 1) as nat) {
            Some(j) => Some(j),
            None => if cols[k - 1].1.len() != n {
                Some(k - 1)
            } else {
                None
            },
        }
    }
}

proof fn lemma_masked_len<V>(values: Seq<V>, mask: Seq<bool>)
    requires
        values.len() == mask.len(),
    ensures
        masked(values, mask).len() == kept_count(mask),
    decreases mask.len(),
{
    if mask.len() > 0 {
        lemma_masked_len(values.drop_last(), mask.drop_last());
    }
}

proof fn lemma_mask_mismatch_stays<V>(cols: Seq<(Seq<char>, Seq<V>)>, n: nat, k: nat)
    requires
        0 < k <= cols.len(),
        first_mask_mismatch(cols, n, k) is Some,
    ensures
        first_mask_mismatch(cols, n, cols.len()) == first_mask_mismatch(cols, n, k),
    decreases cols.len() - k,
{
    if k < cols.len() {
        lemma_mask_mismatch_stays(cols, n, k + 1);
    }
}

fn kept_rows(mask: &Vec<bool>) -> (r: usize)
    ensures
        r == kept_count(mask@),
{
    let mut count: usize = 0;
    let mut i: usize = 0;
    while i < mask.len()
        invariant
            i <= mask@.len(),
            count == kept_count(mask@.take(i as int)),
            count <= i,
        decreases mask.len() - i,
    {
        proof {
            assert(mask@.take(i + 1).drop_last() =~= mask@.take(i as int));
        }
        if mask[i] {
            count = count + 1;
        }
        i = i + 1;
    }
    proof {
        assert(mask@.take(mask@.len() as int) =~= mask@);
    }
    count
}

fn mask_values<V: Copy>(values: &Vec<V>, mask: &Vec<bool>) -> (r: Vec<V>)
    requires
        values@.len() == mask@.len(),
    ensures
        r@ == masked(values@, mask@),
{
    let mut out: Vec<V> = Vec::new();
    let mut i: usize = 0;
    while i < values.len()
        invariant
            i <= values@.len(),
            values@.len() == mask@.len(),
            out@ == masked(values@.take(i as int), mask@.take(i as int)),
        decreases values.len() - i,
    {
        proof {
            assert(values@.take(i + 1).drop_last() =~= values@.take(i as int));
            assert(mask@.take(i + 1).drop_last() =~= mask@.take(i as int));
        }
        if mask[i] {
            out.push(values[i]);
        }
        i = i + 1;
    }
    proof {
        assert(values@.take(values@.len() as int) =~= values@);
        assert(mask@.take(mask@.len() as int) =~= mask@);
    }
    out
}

/// Columns with their values, by name text and values.
pub open spec fn masked_columns<V>(cols: Seq<(Seq<char>, Seq<V>)>, mask: Seq<bool>) -> Seq<
    (Seq<char>, Seq<V>),
> {
    Seq::new(cols.len(), |c: int| (cols[c].0, masked(cols[c].1, mask)))
}

/// The columns with only the rows that `mask` keeps, and how many rows
/// that is; a column whose length is not the mask's is an error.
pub fn filter_columns_by_mask<V: Copy>(columns: &Vec<(String, Vec<V>)>, mask: &Vec<bool>) -> (r: Result<
    (Vec<(String, Vec<V>)>, usize),
    ExplorationTableError,
>)
    ensures
        ({
            let cv = axes_view(columns@);
            match r {
                Ok((kept, rows)) => {
                    &&& first_mask_mismatch(cv, mask@.len(), cv.len()) is None
                    &&& axes_view(kept@) == masked_columns(cv, mask@)
                    &&& rows == kept_count(mask@)
                },
                Err(ExplorationTableError::MaskLengthMismatch { column, mask_len, values_len }) => {
                    &&& first_mask_mismatch(cv, mask@.len(), cv.len()) matches Some(j)
                    &&& column@ == cv[j].0
                    &&& mask_len == mask@.len()
                    &&& values_len == cv[j].1.len()
                },
                Err(_) => false,
            }
        }),
{
    let ghost cv = axes_view(columns@);
    let rows = kept_rows(mask);
    let mut out: Vec<(String, Vec<V>)> = Vec::new();
    let mut c: usize = 0;
    while c < columns.len()
        invariant
            c <= columns@.len(),
            cv == axes_view(columns@),
            rows == kept_count(mask@),
            first_mask_mismatch(cv, mask@.len(), c as nat) is None,
            axes_view(out@) == masked_columns(cv.take(c as int), mask@),
        decreases columns.len() - c,
    {
        proof {
            assert(cv[c as int] == (columns@[c as int].0@, columns@[c as int].1@));
        }
        if columns[c].1.len() != mask.len() {
            proof {
                lemma_mask_mismatch_stays(cv, mask@.len(), (c + 1) as nat);
            }
            return Err(
                ExplorationTableError::MaskLengthMismatch {
                    column: string_from(columns[c].0.as_str()),
                    mask_len: mask.len(),
                    values_len: columns[c].1.len(),
                },
            );
        }
        let values = mask_values(&columns[c].1, mask);
        proof {
            lemma_masked_len(columns@[c as int].1@, mask@);
        }
        if values.len() != rows {
            return Err(
                ExplorationTableError::ColumnLengthMismatch {
                    column: string_from(columns[c].0.as_str()),
                    expected: rows,
                    actual: values.len(),
                },
            );
        }
        let ghost before = axes_view(out@);
        out.push((string_from(columns[c].0.as_str()), values));
        proof {
            assert(axes_view(out@) =~= before.push((cv[c as int].0, masked(cv[c as int].1, mask@))));
            assert(masked_columns(cv.take(c + 1), mask@) =~= masked_columns(cv.take(c as int), mask@).push(
                (cv[c as int].0, masked(cv[c as int].1, mask@)),
            ));
        }
        c = c + 1;
    }
    proof {
        assert(cv.take(columns@.len() as int) =~= cv);
    }
    Ok((out, rows))
}

/// Each row with its mask entry, in order.
pub open spec fn rows_with_mask<V>(values: Seq<V>, mask: Seq<bool>) -> Seq<(V, bool)> {
    Seq::new(values.len(), |i: int| (values[i], mask[i]))
}

/// A mask keeps a row exactly when its entry is true: the number of rows
/// kept is the number of true entries, and the values kept are those of
/// the rows whose entry is true, in their order.
pub proof fn law_mask_keeps_exactly_true_rows<V>(values: Seq<V>, mask: Seq<bool>)
    requires
        values.len() == mask.len(),
    ensures
        kept_count(mask) == mask.filter(|b: bool| b).len(),
        masked(values, mask) == rows_with_mask(values, mask).filter(|p: (V, bool)| p.1).map_values(
            |p: (V, bool)| p.0,
        ),
    decreases mask.len(),
{
    reveal(Seq::filter);
    let keep = |b: bool| b;
    let take = |p: (V, bool)| p.1;
    let first = |p: (V, bool)| p.0;
    let z = rows_with_mask(values, mask);
    if mask.len() == 0 {
        assert(z =~= Seq::<(V, bool)>::empty());
        assert(z.filter(take).map_values(first) =~= Seq::<V>::empty());
    } else {
        let vd = values.drop_last();
        let md = mask.drop_last();
        law_mask_keeps_exactly_true_rows(vd, md);
        let zd = rows_with_mask(vd, md);
        assert(z.drop_last() =~= zd);
        assert(z.last() == (values.last(), mask.last()));
        assert(mask.filter(keep) == if mask.last() {
            md.filter(keep).push(mask.last())
        } else {
            md.filter(keep)
        });
        assert(z.filter(take) == if mask.last() {
            zd.filter(take).push(z.last())
        } else {
            zd.filter(take)
        });
        if mask.last() {
            assert(zd.filter(take).push(z.last()).map_values(first) =~= zd.filter(take).map_values(
                first,
            ).push(values.last()));
        }
    }
}

} // verus!

