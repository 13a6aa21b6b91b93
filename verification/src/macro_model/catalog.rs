use vstd::prelude::*;
use vstd::relations::{sorted_by, total_ordering};
use crate::macro_model::model::MacroModel;
use crate::circuit::instance::macro_of;
use crate::text::{lemma_text_order_total, str_eq, text_leq, text_order};

verus! {

/// The macros known to a design, by name.
#[derive(Debug)]
pub struct MacroCatalog {
    macros: Vec<MacroModel>,
}

/// The macro named `name` among `entries`.
pub open spec fn lookup_macro(entries: Seq<MacroModel>, name: Seq<char>) -> Option<
    MacroModel,
>
    decreases entries.len(),
{
    if entries.len() == 0 {
        None
    } else if entries.last().name@ == name {
        Some(entries.last())
    } else {
        lookup_macro(entries.drop_last(), name)
    }
}

/// No two entries share a name.
pub open spec fn macro_names_distinct(entries: Seq<MacroModel>) -> bool {
    forall|i: int, j: int|
        0 <= i < j < entries.len() ==> (#[trigger] entries[i]).name@ != (#[trigger] entries[j]).name@
}

/// The names of the entries, in order.
pub open spec fn macro_names(entries: Seq<MacroModel>) -> Seq<Seq<char>> {
    entries.map_values(|p: MacroModel| p.name@)
}

/// The entries after registering `p`: an entry of the same name is replaced
/// in place, otherwise `p` is added.
pub open spec fn register_spec(entries: Seq<MacroModel>, p: MacroModel) -> Seq<
    MacroModel,
> {
    match index_of_macro(entries, p.name@) {
        Some(k) => entries.update(k as int, p),
        None => entries.push(p),
    }
}

pub open spec fn index_of_macro(entries: Seq<MacroModel>, name: Seq<char>) -> Option<
    nat,
>
    decreases entries.len(),
{
    if entries.len() == 0 {
        None
    } else if entries.last().name@ == name {
        Some((entries.len() - 1) as nat)
    } else {
        index_of_macro(entries.drop_last(), name)
    }
}

pub proof fn lemma_index_of_macro(entries: Seq<MacroModel>, name: Seq<char>)
    ensures
        match index_of_macro(entries, name) {
            Some(k) => k < entries.len() && entries[k as int].name@ == name && lookup_macro(
                entries,
                name,
            ) == Some(entries[k as int]),
            None => lookup_macro(entries, name) is None && forall|i: int|
                0 <= i < entries.len() ==> (#[trigger] entries[i]).name@ != name,
        },
    decreases entries.len(),
{
    if entries.len() > 0 {
        lemma_index_of_macro(entries.drop_last(), name);
        if entries.last().name@ != name {
            assert forall|i: int| 0 <= i < entries.len() - 1 implies #[trigger] entries[i]
                == entries.drop_last()[i] by {}
        }
    }
}

/// The catalog macro found under `name` is its entry of that name.
pub proof fn lemma_found_entry(mcat: Seq<MacroModel>, name: Seq<char>) -> (k: int)
    requires
        lookup_macro(mcat, name) is Some,
    ensures
        0 <= k < mcat.len(),
        mcat[k].name@ == name,
        lookup_macro(mcat, name) == Some(mcat[k]),
{
    lemma_index_of_macro(mcat, name);
    index_of_macro(mcat, name)->Some_0 as int
}

/// An entry of a listing of the catalog, which holds the catalog's macros
/// in some order, is the catalog's macro of its name.
pub proof fn lemma_listed_entry(cat: Seq<MacroModel>, listed: Seq<MacroModel>, i: int)
    requires
        macro_names_distinct(cat),
        listed.to_multiset() == cat.to_multiset(),
        0 <= i < listed.len(),
    ensures
        lookup_macro(cat, listed[i].name@) == Some(listed[i]),
{
    listed.to_multiset_ensures();
    cat.to_multiset_ensures();
    assert(listed.contains(listed[i]));
    assert(listed.to_multiset().count(listed[i]) > 0);
    assert(cat.to_multiset().count(listed[i]) > 0);
    assert(cat.contains(listed[i]));
    let k = choose|k: int| 0 <= k < cat.len() && cat[k] == listed[i];
    lemma_lookup_distinct(cat, k);
}

pub proof fn lemma_lookup_distinct(entries: Seq<MacroModel>, i: int)
    requires
        macro_names_distinct(entries),
        0 <= i < entries.len(),
    ensures
        lookup_macro(entries, entries[i].name@) == Some(entries[i]),
    decreases entries.len(),
{
    if i < entries.len() - 1 {
        assert(entries.drop_last()[i] == entries[i]);
        assert(entries.last().name@ != entries[i].name@);
        lemma_lookup_distinct(entries.drop_last(), i);
    }
}

proof fn lemma_lookup_after_register(entries: Seq<MacroModel>, p: MacroModel)
    ensures
        lookup_macro(register_spec(entries, p), p.name@) == Some(p),
{
    lemma_index_of_macro(entries, p.name@);
    let after = register_spec(entries, p);
    if let Some(k) = index_of_macro(entries, p.name@) {
        lemma_lookup_update(entries, k as int, p);
    }
}

proof fn lemma_lookup_update(entries: Seq<MacroModel>, k: int, p: MacroModel)
    requires
        0 <= k < entries.len(),
        index_of_macro(entries, p.name@) == Some(k as nat),
    ensures
        lookup_macro(entries.update(k, p), p.name@) == Some(p),
    decreases entries.len(),
{
    let after = entries.update(k, p);
    if k < entries.len() - 1 {
        assert(after.drop_last() =~= entries.drop_last().update(k, p));
        lemma_lookup_update(entries.drop_last(), k, p);
    }
}

proof fn lemma_lookup_update_other(
    entries: Seq<MacroModel>,
    k: int,
    p: MacroModel,
    name: Seq<char>,
)
    requires
        0 <= k < entries.len(),
        entries[k].name@ == p.name@,
        name != p.name@,
    ensures
        lookup_macro(entries.update(k, p), name) == lookup_macro(entries, name),
    decreases entries.len(),
{
    let after = entries.update(k, p);
    if k < entries.len() - 1 {
        assert(after.drop_last() =~= entries.drop_last().update(k, p));
        lemma_lookup_update_other(entries.drop_last(), k, p, name);
    } else {
        assert(after.drop_last() =~= entries.drop_last());
    }
}

/// Registering a macro makes it the one found under its name and leaves
/// every other name as it was.
pub proof fn law_register_then_lookup(
    entries: Seq<MacroModel>,
    p: MacroModel,
    name: Seq<char>,
)
    ensures
        lookup_macro(register_spec(entries, p), p.name@) == Some(p),
        name != p.name@ ==> lookup_macro(register_spec(entries, p), name) == lookup_macro(
            entries,
            name,
        ),
{
    lemma_lookup_after_register(entries, p);
    lemma_index_of_macro(entries, p.name@);
    if name != p.name@ {
        match index_of_macro(entries, p.name@) {
            Some(k) => {
                lemma_lookup_update_other(entries, k as int, p, name);
            },
            None => {
                assert(entries.push(p).drop_last() =~= entries);
            },
        }
    }
}

impl View for MacroCatalog {
    type V = Seq<MacroModel>;

    closed spec fn view(&self) -> Seq<MacroModel> {
        self.macros@
    }
}

impl MacroCatalog {
    #[verifier::type_invariant]
    pub closed spec fn names_unique(self) -> bool {
        macro_names_distinct(self.macros@)
    }

    /// An empty catalog.
    pub fn new() -> (r: Self)
        ensures
            r@ == Seq::<MacroModel>::empty(),
    {
        MacroCatalog { macros: Vec::new() }
    }

    /// Adds a macro, replacing one of the same name.
    pub fn register(&mut self, macro_model: MacroModel)
        ensures
            final(self)@ == register_spec(old(self)@, macro_model),
            lookup_macro(final(self)@, macro_model.name@) == Some(macro_model),
    {
        proof {
            use_type_invariant(&*self);
            lemma_index_of_macro(self.macros@, macro_model.name@);
        }
        let ghost p = macro_model;
        let found = self.find(macro_model.name.as_str());
        let mut entries = Vec::new();
        std::mem::swap(&mut entries, &mut self.macros);
        match found {
            Some(k) => {
                entries.set(k, macro_model);
            },
            None => {
                entries.push(macro_model);
            },
        }
        proof {
            lemma_lookup_after_register(old(self)@, p);
            assert(macro_names_distinct(entries@)) by {
                assert forall|i: int, j: int| 0 <= i < j < entries@.len() implies (
                #[trigger] entries@[i]).name@ != (#[trigger] entries@[j]).name@ by {
                    if found is None && j == entries@.len() - 1 {
                        assert(old(self).macros@[i] == entries@[i]);
                    } else if let Some(k) = found {
                        if i == k {
                            assert(entries@[j] == old(self).macros@[j]);
                        } else if j == k {
                            assert(entries@[i] == old(self).macros@[i]);
                        } else {
                            assert(entries@[i] == old(self).macros@[i]);
                            assert(entries@[j] == old(self).macros@[j]);
                        }
                    }
                }
            }
        }
        self.macros = entries;
    }

    pub(crate) fn find(&self, name: &str) -> (r: Option<usize>)
        ensures
            match r {
                Some(k) => index_of_macro(self@, name@) == Some(k as nat),
                None => index_of_macro(self@, name@) is None,
            },
    {
        let mut i = self.macros.len();
        assert(self@.take(i as int) =~= self@);
        while i > 0
            invariant
                i <= self.macros.len(),
                index_of_macro(self@, name@) == index_of_macro(
                    self@.take(i as int),
                    name@,
                ),
            decreases i,
        {
            assert(self@.take(i as int).drop_last() =~= self@.take(i - 1));
            if str_eq(self.macros[i - 1].name.as_str(), name) {
                return Some(i - 1);
            }
            i = i - 1;
        }
        None
    }

    /// The macro named `name`.
    pub fn get(&self, name: &str) -> (r: Option<&MacroModel>)
        ensures
            match r {
                Some(p) => lookup_macro(self@, name@) == Some(*p),
                None => lookup_macro(self@, name@) is None,
            },
    {
        proof {
            lemma_index_of_macro(self@, name@);
        }
        match self.find(name) {
            Some(k) => Some(&self.macros[k]),
            None => None,
        }
    }

    /// Whether a macro is named `name`.
    pub fn contains(&self, name: &str) -> (r: bool)
        ensures
            r == lookup_macro(self@, name@) is Some,
    {
        self.get(name).is_some()
    }

    /// The macros ordered by name.
    pub fn list(&self) -> (r: Vec<&MacroModel>)
        ensures
            r.len() == self@.len(),
            r@.map_values(|p: &MacroModel| p.name@) == macro_names(self@).sort_by(
                text_order(),
            ),
            r@.map_values(|p: &MacroModel| *p).to_multiset() == self@.to_multiset(),
    {
        proof {
            lemma_text_order_total();
        }
        let ghost le = text_order();
        let ghost names = macro_names(self@);
        let mut out: Vec<&MacroModel> = Vec::new();
        let mut i: usize = 0;
        assert(out@.map_values(|p: &MacroModel| p.name@) =~= names.take(0));
        assert(out@.map_values(|p: &MacroModel| *p) =~= self@.take(0));
        while i < self.macros.len()
            invariant
                i <= self.macros.len(),
                le == text_order(),
                total_ordering(le),
                names == macro_names(self@),
                out.len() == i,
                sorted_by(out@.map_values(|p: &MacroModel| p.name@), le),
                out@.map_values(|p: &MacroModel| p.name@).to_multiset() == names.take(
                    i as int,
                ).to_multiset(),
                out@.map_values(|p: &MacroModel| *p).to_multiset() == self@.take(
                    i as int,
                ).to_multiset(),
            decreases self.macros.len() - i,
        {
            let e = &self.macros[i];
            let ghost ev = e.name@;
            let ghost before = out@.map_values(|p: &MacroModel| p.name@);
            let ghost before_vals = out@.map_values(|p: &MacroModel| *p);
            let mut pos: usize = 0;
            while pos < out.len() && text_leq(out[pos].name.as_str(), e.name.as_str())
                invariant
                    pos <= out.len(),
                    before == out@.map_values(|p: &MacroModel| p.name@),
                    ev == e.name@,
                    le == text_order(),
                    forall|k: int| 0 <= k < pos ==> le(#[trigger] before[k], ev),
                decreases out.len() - pos,
            {
                pos = pos + 1;
            }
            out.insert(pos, e);
            proof {
                let after = out@.map_values(|p: &MacroModel| p.name@);
                assert(after =~= before.insert(pos as int, ev));
                if pos < before.len() {
                    assert(!le(before[pos as int], ev));
                    assert(le(ev, before[pos as int]));
                }
                assert forall|a: int, b: int| 0 <= a < b < after.len() implies #[trigger] le(
                    after[a],
                    after[b],
                ) by {
                    if b < pos {
                        assert(after[a] == before[a] && after[b] == before[b]);
                    } else if b == pos {
                        assert(after[a] == before[a]);
                    } else if a < pos {
                        assert(after[a] == before[a] && after[b] == before[b - 1]);
                        assert(le(before[a], ev));
                        assert(le(ev, before[pos as int]));
                        assert(le(before[pos as int], before[b - 1]) || pos == b - 1);
                    } else if a == pos {
                        assert(after[b] == before[b - 1]);
                        assert(le(before[pos as int], before[b - 1]) || pos == b - 1);
                    } else {
                        assert(after[a] == before[a - 1] && after[b] == before[b - 1]);
                    }
                }
                assert(out@.map_values(|p: &MacroModel| *p) =~= before_vals.insert(
                    pos as int,
                    self@[i as int],
                ));
                vstd::seq_lib::to_multiset_insert(before_vals, pos as int, self@[i as int]);
                assert(self@.take(i + 1) =~= self@.take(i as int).push(self@[i as int]));
                vstd::seq_lib::to_multiset_build(self@.take(i as int), self@[i as int]);
                vstd::seq_lib::to_multiset_insert(before, pos as int, ev);
                assert(names.take(i + 1) =~= names.take(i as int).push(ev));
                vstd::seq_lib::to_multiset_build(names.take(i as int), ev);
            }
            i = i + 1;
        }
        proof {
            assert(names.take(self.macros.len() as int) =~= names);
            assert(self@.take(self.macros.len() as int) =~= self@);
            names.lemma_sort_by_ensures(le);
            vstd::seq_lib::lemma_sorted_unique(
                out@.map_values(|p: &MacroModel| p.name@),
                names.sort_by(le),
                le,
            );
        }
        out
    }
}

impl Default for MacroCatalog {
    /// An empty catalog.
    fn default() -> (r: Self)
        ensures
            r@ == Seq::<MacroModel>::empty(),
    {
        MacroCatalog::new()
    }
}

/// No two macros of a catalog share a name.
pub proof fn lemma_catalog_names_distinct(catalog: &MacroCatalog)
    requires
        catalog.names_unique(),
    ensures
        macro_names_distinct(catalog@),
{
}

// ---------------------------------------------------------------------------
// The dependency graph of a catalog
// ---------------------------------------------------------------------------
/// `m` places an instance of the catalog's macro `child`.
pub open spec fn uses_macro(cat: Seq<MacroModel>, m: MacroModel, child: Seq<char>) -> bool {
    &&& lookup_macro(cat, child) is Some
    &&& exists|i: int|
        0 <= i < m.circuit.instances@.len() && macro_of(#[trigger] m.circuit.instances@[i]) == Some(
            child,
        )
}

/// `m` uses the catalog's macro `child` and expanding `m` goes into it:
/// always, unless `stop_at_compact` and `child` has a compact small-signal
/// model, which then stands for it.
pub open spec fn expands_into(
    cat: Seq<MacroModel>,
    m: MacroModel,
    child: Seq<char>,
    stop_at_compact: bool,
) -> bool {
    &&& uses_macro(cat, m, child)
    &&& !(stop_at_compact && (lookup_macro(cat, child) matches Some(c) && c.small_signal is Some))
}

/// `rank` places each macro of the catalog above the macros it uses.
pub open spec fn ranks_macros(cat: Seq<MacroModel>, rank: spec_fn(Seq<char>) -> nat) -> bool {
    forall|j: int, child: Seq<char>|
        0 <= j < cat.len() && #[trigger] uses_macro(cat, cat[j], child) ==> rank(child) < rank(
            cat[j].name@,
        )
}

/// No macro of the catalog uses itself, directly or through others: the
/// macros can be ranked so that each uses only lower ones.
pub open spec fn macros_acyclic(cat: Seq<MacroModel>) -> bool {
    exists|rank: spec_fn(Seq<char>) -> nat| #[trigger] ranks_macros(cat, rank)
}

/// `rank` ranks the macros that rendering `m` reaches: each catalog macro
/// `m` uses has a rank below the catalog's size, and each macro so ranked
/// uses only macros of lower rank.
pub open spec fn ranks_from(
    cat: Seq<MacroModel>,
    m: MacroModel,
    rank: spec_fn(Seq<char>) -> nat,
    stop_at_compact: bool,
) -> bool {
    &&& forall|c: Seq<char>| #[trigger] expands_into(cat, m, c, stop_at_compact) ==> rank(c) < cat.len()
    &&& ranks_below_size(cat, rank, stop_at_compact)
}

/// Each catalog macro whose rank is below the catalog's size uses only
/// macros of lower rank.
pub open spec fn ranks_below_size(
    cat: Seq<MacroModel>,
    rank: spec_fn(Seq<char>) -> nat,
    stop_at_compact: bool,
) -> bool {
    forall|j: int, c: Seq<char>|
        0 <= j < cat.len() && rank(cat[j].name@) < cat.len() && #[trigger] expands_into(
            cat,
            cat[j],
            c, stop_at_compact) ==> rank(c) < rank(cat[j].name@)
}

/// No macro that `m` reaches through the catalog uses itself, directly or
/// through others: following the macros used from `m` always ends.
pub open spec fn no_cycle_below(cat: Seq<MacroModel>, m: MacroModel, stop_at_compact: bool) -> bool {
    exists|rank: spec_fn(Seq<char>) -> nat| #[trigger] ranks_from(cat, m, rank, stop_at_compact)
}

/// Among the macros not ready whose rank is below `bound`, one whose rank is
/// least.
proof fn lemma_least_unready_ranked(
    cat: Seq<MacroModel>,
    level: Seq<Option<usize>>,
    rank: spec_fn(Seq<char>) -> nat,
    bound: nat,
    j: int,
) -> (m: int)
    requires
        level.len() == cat.len(),
        0 <= j < cat.len(),
        level[j] is None,
        rank(cat[j].name@) < bound,
    ensures
        0 <= m < cat.len(),
        level[m] is None,
        rank(cat[m].name@) < bound,
        forall|k: int|
            0 <= k < cat.len() && level[k] is None && rank(#[trigger] cat[k].name@) < bound ==> rank(
                cat[m].name@,
            ) <= rank(cat[k].name@),
    decreases rank(cat[j].name@),
{
    if exists|k: int| 0 <= k < cat.len() && level[k] is None && rank(#[trigger] cat[k].name@) < rank(
        cat[j].name@,
    ) {
        let k = choose|k: int|
            0 <= k < cat.len() && level[k] is None && rank(#[trigger] cat[k].name@) < rank(
                cat[j].name@,
            );
        lemma_least_unready_ranked(cat, level, rank, bound, k)
    } else {
        j
    }
}

/// Every catalog macro that `m` uses is ready in `level`.
pub open spec fn uses_ready(
    cat: Seq<MacroModel>,
    m: MacroModel,
    level: Seq<Option<usize>>,
    stop_at_compact: bool,
) -> bool {
    forall|c: Seq<char>|
        #[trigger] expands_into(cat, m, c, stop_at_compact) ==> (index_of_macro(cat, c) matches Some(k) && level[k as int]
            is Some)
}

/// Each ready macro is ready after the macros it uses, and before `round`.
pub open spec fn levels_consistent(
    cat: Seq<MacroModel>,
    level: Seq<Option<usize>>,
    round: nat,
    stop_at_compact: bool,
) -> bool {
    forall|j: int|
        0 <= j < cat.len() && (#[trigger] level[j]) is Some ==> {
            &&& level[j]->Some_0 < round
            &&& forall|c: Seq<char>|
                #[trigger] expands_into(cat, cat[j], c, stop_at_compact) ==> (index_of_macro(cat, c) matches Some(k)
                    && level[k as int] matches Some(lk) && lk < level[j]->Some_0)
        }
}

pub open spec fn ready_count(level: Seq<Option<usize>>) -> nat
    decreases level.len(),
{
    if level.len() == 0 {
        0
    } else {
        ready_count(level.drop_last()) + if level.last() is Some {
            1nat
        } else {
            0nat
        }
    }
}

proof fn lemma_ready_count_bound(level: Seq<Option<usize>>)
    ensures
        ready_count(level) <= level.len(),
    decreases level.len(),
{
    if level.len() > 0 {
        lemma_ready_count_bound(level.drop_last());
    }
}

proof fn lemma_ready_count_grows(a: Seq<Option<usize>>, b: Seq<Option<usize>>, j: int)
    requires
        a.len() == b.len(),
        0 <= j < a.len(),
        a[j] is None,
        b[j] is Some,
        forall|k: int| 0 <= k < a.len() && (#[trigger] a[k]) is Some ==> b[k] is Some,
    ensures
        ready_count(a) < ready_count(b),
    decreases a.len(),
{
    if j < a.len() - 1 {
        lemma_ready_count_grows(a.drop_last(), b.drop_last(), j);
        lemma_ready_count_mono(a.drop_last(), b.drop_last());
    } else {
        lemma_ready_count_mono(a.drop_last(), b.drop_last());
    }
}

proof fn lemma_ready_count_mono(a: Seq<Option<usize>>, b: Seq<Option<usize>>)
    requires
        a.len() == b.len(),
        forall|k: int| 0 <= k < a.len() && (#[trigger] a[k]) is Some ==> b[k] is Some,
    ensures
        ready_count(a) <= ready_count(b),
    decreases a.len(),
{
    if a.len() > 0 {
        assert forall|k: int| 0 <= k < a.drop_last().len() && (#[trigger] a.drop_last()[k]) is Some
            implies b.drop_last()[k] is Some by {
            assert(a.drop_last()[k] == a[k]);
        }
        lemma_ready_count_mono(a.drop_last(), b.drop_last());
    }
}

/// One round of marking keeps the levels consistent: a macro marked in this
/// round uses only macros that were ready before it.
proof fn lemma_round_step(
    cat: Seq<MacroModel>,
    snap: Seq<Option<usize>>,
    level: Seq<Option<usize>>,
    round: usize,
    stop_at_compact: bool,
)
    requires
        snap.len() == cat.len(),
        level.len() == cat.len(),
        levels_consistent(cat, snap, round as nat, stop_at_compact),
        forall|q: int| 0 <= q < cat.len() && (#[trigger] snap[q]) is Some ==> level[q] == snap[q],
        forall|q: int|
            0 <= q < cat.len() && (#[trigger] level[q]) is Some ==> (snap[q] is Some || (level[q]
                == Some(round) && uses_ready(cat, cat[q], snap, stop_at_compact))),
    ensures
        levels_consistent(cat, level, (round + 1) as nat, stop_at_compact),
{
    assert forall|q: int| 0 <= q < cat.len() && (#[trigger] level[q]) is Some implies {
        &&& level[q]->Some_0 < round + 1
        &&& forall|c: Seq<char>|
            #[trigger] expands_into(cat, cat[q], c, stop_at_compact) ==> (index_of_macro(cat, c) matches Some(kk)
                && level[kk as int] matches Some(lk) && lk < level[q]->Some_0)
    } by {
        assert forall|c: Seq<char>| #[trigger] expands_into(cat, cat[q], c, stop_at_compact) implies (index_of_macro(
            cat,
            c,
        ) matches Some(kk) && level[kk as int] matches Some(lk) && lk < level[q]->Some_0) by {
            lemma_index_of_macro(cat, c);
            if snap[q] is Some {
                let kk = index_of_macro(cat, c)->Some_0;
                assert(snap[kk as int] is Some);
                assert(level[kk as int] == snap[kk as int]);
            } else {
                assert(uses_ready(cat, cat[q], snap, stop_at_compact));
                let kk = index_of_macro(cat, c)->Some_0;
                assert(snap[kk as int] is Some);
                assert(level[kk as int] == snap[kk as int]);
            }
        }
    }
}

impl MacroCatalog {
    fn uses_ready_exec(&self, m: &MacroModel, level: &Vec<Option<usize>>, stop_at_compact: bool) -> (r: bool)
        requires
            level.len() == self@.len(),
        ensures
            r == uses_ready(self@, *m, level@, stop_at_compact),
    {
        let ghost insts = m.circuit.instances@;
        let mut i: usize = 0;
        while i < m.circuit.instances.len()
            invariant
                i <= m.circuit.instances.len(),
                insts == m.circuit.instances@,
                level.len() == self@.len(),
                forall|q: int|
                    0 <= q < i ==> match macro_of(#[trigger] insts[q]) {
                        Some(c) => match index_of_macro(self@, c) {
                            Some(k) => level@[k as int] is Some || (stop_at_compact
                                && self@[k as int].small_signal is Some),
                            None => true,
                        },
                        None => true,
                    },
            decreases m.circuit.instances.len() - i,
        {
            match m.circuit.instances[i].macro_name() {
                Some(c) => {
                    proof {
                        lemma_index_of_macro(self@, c@);
                    }
                    match self.find(c) {
                        Some(k) => {
                            if level[k].is_none() && !(stop_at_compact
                                && self.macros[k].small_signal.is_some()) {
                                proof {
                                    assert(expands_into(self@, *m, c@, stop_at_compact));
                                }
                                return false;
                            }
                        },
                        None => {},
                    }
                },
                None => {},
            }
            i = i + 1;
        }
        proof {
            assert forall|c: Seq<char>| #[trigger] expands_into(self@, *m, c, stop_at_compact) implies (index_of_macro(
                self@,
                c,
            ) matches Some(k) && level@[k as int] is Some) by {
                lemma_index_of_macro(self@, c);
                let q = choose|q: int|
                    0 <= q < insts.len() && macro_of(#[trigger] insts[q]) == Some(c);
            }
        }
        true
    }

    /// The round in which each macro becomes ready: in each round, every
    /// macro whose used macros are all ready becomes ready, until a round
    /// changes nothing. The macros left without a level are those from which
    /// a cycle can be reached.
    fn ready_levels(&self, stop_at_compact: bool) -> (level: Vec<Option<usize>>)
        ensures
            level.len() == self@.len(),
            macro_names_distinct(self@),
            levels_consistent(self@, level@, self@.len() as nat, stop_at_compact),
            forall|q: int|
                0 <= q < self@.len() && (#[trigger] level@[q]) is None ==> !uses_ready(
                    self@,
                    self@[q],
                    level@, stop_at_compact),
    {
        proof {
            use_type_invariant(self);
        }
        let n = self.macros.len();
        let mut level: Vec<Option<usize>> = Vec::new();
        let mut k: usize = 0;
        while k < n
            invariant
                k <= n == self@.len(),
                level.len() == k,
                forall|q: int| 0 <= q < k ==> (#[trigger] level@[q]) is None,
            decreases n - k,
        {
            level.push(None);
            k = k + 1;
        }
        let mut round: usize = 0;
        loop
            invariant
                n == self@.len(),
                level.len() == n,
                macro_names_distinct(self@),
                levels_consistent(self@, level@, round as nat, stop_at_compact),
                round <= ready_count(level@),
            ensures
                forall|q: int|
                    0 <= q < n && (#[trigger] level@[q]) is None ==> !uses_ready(
                        self@,
                        self@[q],
                        level@, stop_at_compact),
            decreases n - ready_count(level@),
        {
            proof {
                lemma_ready_count_bound(level@);
            }
            let snap = level.clone();
            let mut changed = false;
            let mut j: usize = 0;
            while j < n
                invariant
                    n == self@.len(),
                    level.len() == n,
                    snap@.len() == n,
                    j <= n,
                    round <= ready_count(snap@),
                    ready_count(snap@) <= n,
                    levels_consistent(self@, snap@, round as nat, stop_at_compact),
                    forall|q: int|
                        0 <= q < n && (#[trigger] snap@[q]) is Some ==> level@[q] == snap@[q],
                    forall|q: int|
                        0 <= q < n && (#[trigger] level@[q]) is Some ==> (snap@[q] is Some || (
                        level@[q] == Some(round) && uses_ready(self@, self@[q], snap@, stop_at_compact))),
                    forall|q: int|
                        j <= q < n ==> (#[trigger] level@[q]) == snap@[q],
                    forall|q: int|
                        0 <= q < j && (#[trigger] snap@[q]) is None ==> (level@[q] is Some
                            <==> uses_ready(self@, self@[q], snap@, stop_at_compact)),
                    changed ==> ready_count(snap@) < ready_count(level@),
                    !changed ==> level@ == snap@,
                decreases n - j,
            {
                if snap[j].is_none() && self.uses_ready_exec(&self.macros[j], &snap, stop_at_compact) {
                    let ghost before = level@;
                    level.set(j, Some(round));
                    proof {
                        lemma_ready_count_grows(snap@, level@, j as int);
                    }
                    changed = true;
                }
                j = j + 1;
            }
            if !changed {
                break;
            }
            proof {
                lemma_round_step(self@, snap@, level@, round, stop_at_compact);
                lemma_ready_count_bound(level@);
            }
            round = round + 1;
        }
        proof {
            lemma_ready_count_bound(level@);
            assert forall|j: int| 0 <= j < n && (#[trigger] level@[j]) is Some implies level@[j]->Some_0
                < n by {}
        }
        level
    }

    /// Whether following the macros that `macro_model` uses through the
    /// catalog always ends: no macro it reaches uses itself, directly or
    /// through others.
    pub fn renders_finitely(&self, macro_model: &MacroModel, stop_at_compact: bool) -> (r: bool)
        ensures
            r == no_cycle_below(self@, *macro_model, stop_at_compact),
    {
        let level = self.ready_levels(stop_at_compact);
        let r = self.uses_ready_exec(macro_model, &level, stop_at_compact);
        proof {
            let cat = self@;
            let n = cat.len();
            let m = *macro_model;
            if r {
                let rank = |name: Seq<char>|
                    match index_of_macro(cat, name) {
                        Some(k) => match level@[k as int] {
                            Some(l) => l as nat,
                            None => n,
                        },
                        None => n,
                    };
                assert forall|c: Seq<char>| #[trigger] expands_into(cat, m, c, stop_at_compact) implies rank(c) < n by {
                    lemma_index_of_macro(cat, c);
                }
                assert forall|j: int, c: Seq<char>|
                    0 <= j < n && rank(cat[j].name@) < n && #[trigger] expands_into(
                        cat,
                        cat[j],
                        c, stop_at_compact) implies rank(c) < rank(cat[j].name@) by {
                    lemma_index_of_macro(cat, cat[j].name@);
                    lemma_index_of_macro(cat, c);
                    let kj = index_of_macro(cat, cat[j].name@)->Some_0;
                    if kj != j {
                        assert(cat[kj as int].name@ == cat[j].name@);
                    }
                    assert(level@[j] is Some);
                }
                assert(ranks_from(cat, m, rank, stop_at_compact));
            } else if no_cycle_below(cat, m, stop_at_compact) {
                let rank = choose|rank: spec_fn(Seq<char>) -> nat| #[trigger] ranks_from(cat, m, rank, stop_at_compact);
                let c = choose|c: Seq<char>|
                    #[trigger] expands_into(cat, m, c, stop_at_compact) && !(index_of_macro(cat, c) matches Some(k)
                        && level@[k as int] is Some);
                lemma_index_of_macro(cat, c);
                let kc = index_of_macro(cat, c)->Some_0;
                assert(cat[kc as int].name@ == c);
                let q = lemma_least_unready_ranked(cat, level@, rank, n, kc as int);
                assert(!uses_ready(cat, cat[q], level@, stop_at_compact));
                let c2 = choose|c2: Seq<char>|
                    #[trigger] expands_into(cat, cat[q], c2, stop_at_compact) && !(index_of_macro(cat, c2) matches Some(
                        k,
                    ) && level@[k as int] is Some);
                lemma_index_of_macro(cat, c2);
                let k2 = index_of_macro(cat, c2)->Some_0;
                assert(cat[k2 as int].name@ == c2);
                assert(rank(c2) < rank(cat[q].name@));
                assert(level@[k2 as int] is None);
                assert(rank(cat[q].name@) <= rank(cat[k2 as int].name@));
            }
        }
        r
    }
}

} // verus!
