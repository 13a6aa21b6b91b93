use vstd::prelude::*;
use vstd::relations::{sorted_by, total_ordering};
use crate::primitive::manifest::PrimitiveManifest;
use crate::text::{lemma_text_order_total, str_eq, text_leq, text_order};

verus! {

/// The primitives known to a design, by name.
#[derive(Debug, Clone)]
pub struct PrimitiveCatalog {
    primitives: Vec<PrimitiveManifest>,
}

/// The primitive named `name` among `entries`.
pub open spec fn lookup_primitive(entries: Seq<PrimitiveManifest>, name: Seq<char>) -> Option<
    PrimitiveManifest,
>
    decreases entries.len(),
{
    if entries.len() == 0 {
        None
    } else if entries.last().name@ == name {
        Some(entries.last())
    } else {
        lookup_primitive(entries.drop_last(), name)
    }
}

/// No two entries share a name.
pub open spec fn primitive_names_distinct(entries: Seq<PrimitiveManifest>) -> bool {
    forall|i: int, j: int|
        0 <= i < j < entries.len() ==> (#[trigger] entries[i]).name@ != (#[trigger] entries[j]).name@
}

/// The names of the entries, in order.
pub open spec fn primitive_names(entries: Seq<PrimitiveManifest>) -> Seq<Seq<char>> {
    entries.map_values(|p: PrimitiveManifest| p.name@)
}

/// The entries after registering `p`: an entry of the same name is replaced
/// in place, otherwise `p` is added.
pub open spec fn register_spec(entries: Seq<PrimitiveManifest>, p: PrimitiveManifest) -> Seq<
    PrimitiveManifest,
> {
    match index_of_primitive(entries, p.name@) {
        Some(k) => entries.update(k as int, p),
        None => entries.push(p),
    }
}

pub open spec fn index_of_primitive(entries: Seq<PrimitiveManifest>, name: Seq<char>) -> Option<
    nat,
>
    decreases entries.len(),
{
    if entries.len() == 0 {
        None
    } else if entries.last().name@ == name {
        Some((entries.len() - 1) as nat)
    } else {
        index_of_primitive(entries.drop_last(), name)
    }
}

proof fn lemma_index_of_primitive(entries: Seq<PrimitiveManifest>, name: Seq<char>)
    ensures
        match index_of_primitive(entries, name) {
            Some(k) => k < entries.len() && entries[k as int].name@ == name && lookup_primitive(
                entries,
                name,
            ) == Some(entries[k as int]),
            None => lookup_primitive(entries, name) is None && forall|i: int|
                0 <= i < entries.len() ==> (#[trigger] entries[i]).name@ != name,
        },
    decreases entries.len(),
{
    if entries.len() > 0 {
        lemma_index_of_primitive(entries.drop_last(), name);
        if entries.last().name@ != name {
            assert forall|i: int| 0 <= i < entries.len() - 1 implies #[trigger] entries[i]
                == entries.drop_last()[i] by {}
        }
    }
}

proof fn lemma_lookup_distinct(entries: Seq<PrimitiveManifest>, i: int)
    requires
        primitive_names_distinct(entries),
        0 <= i < entries.len(),
    ensures
        lookup_primitive(entries, entries[i].name@) == Some(entries[i]),
    decreases entries.len(),
{
    if i < entries.len() - 1 {
        assert(entries.drop_last()[i] == entries[i]);
        assert(entries.last().name@ != entries[i].name@);
        lemma_lookup_distinct(entries.drop_last(), i);
    }
}

proof fn lemma_lookup_after_register(entries: Seq<PrimitiveManifest>, p: PrimitiveManifest)
    ensures
        lookup_primitive(register_spec(entries, p), p.name@) == Some(p),
{
    lemma_index_of_primitive(entries, p.name@);
    let after = register_spec(entries, p);
    if let Some(k) = index_of_primitive(entries, p.name@) {
        lemma_lookup_update(entries, k as int, p);
    }
}

proof fn lemma_lookup_update(entries: Seq<PrimitiveManifest>, k: int, p: PrimitiveManifest)
    requires
        0 <= k < entries.len(),
        index_of_primitive(entries, p.name@) == Some(k as nat),
    ensures
        lookup_primitive(entries.update(k, p), p.name@) == Some(p),
    decreases entries.len(),
{
    let after = entries.update(k, p);
    if k < entries.len() - 1 {
        assert(after.drop_last() =~= entries.drop_last().update(k, p));
        lemma_lookup_update(entries.drop_last(), k, p);
    }
}

proof fn lemma_lookup_update_other(
    entries: Seq<PrimitiveManifest>,
    k: int,
    p: PrimitiveManifest,
    name: Seq<char>,
)
    requires
        0 <= k < entries.len(),
        entries[k].name@ == p.name@,
        name != p.name@,
    ensures
        lookup_primitive(entries.update(k, p), name) == lookup_primitive(entries, name),
    decreases entries.len(),
{
    let after = entries.update(k, p);
    if k < entries.len() - 1 {
        assert(after.drop_last() =~= entries.drop_last().update(k, p));
        lemma_lookup_update_other(entries.drop_last(), k, p, name);
    } else {
        assert(after.drop_last() =~= entries.drop_last());
    }
}

/// Registering a primitive makes it the one found under its name and leaves
/// every other name as it was.
pub proof fn law_register_then_lookup(
    entries: Seq<PrimitiveManifest>,
    p: PrimitiveManifest,
    name: Seq<char>,
)
    ensures
        lookup_primitive(register_spec(entries, p), p.name@) == Some(p),
        name != p.name@ ==> lookup_primitive(register_spec(entries, p), name) == lookup_primitive(
            entries,
            name,
        ),
{
    lemma_lookup_after_register(entries, p);
    lemma_index_of_primitive(entries, p.name@);
    if name != p.name@ {
        match index_of_primitive(entries, p.name@) {
            Some(k) => {
                lemma_lookup_update_other(entries, k as int, p, name);
            },
            None => {
                assert(entries.push(p).drop_last() =~= entries);
            },
        }
    }
}

impl View for PrimitiveCatalog {
    type V = Seq<PrimitiveManifest>;

    closed spec fn view(&self) -> Seq<PrimitiveManifest> {
        self.primitives@
    }
}

impl PrimitiveCatalog {
    /// An empty catalog.
    pub fn new() -> (r: Self)
        ensures
            r@ == Seq::<PrimitiveManifest>::empty(),
    {
        PrimitiveCatalog { primitives: Vec::new() }
    }

    /// Adds a primitive, replacing one of the same name.
    pub fn register(&mut self, primitive: PrimitiveManifest)
        ensures
            final(self)@ == register_spec(old(self)@, primitive),
            lookup_primitive(final(self)@, primitive.name@) == Some(primitive),
    {
        proof {
            lemma_index_of_primitive(self.primitives@, primitive.name@);
        }
        let ghost p = primitive;
        let found = self.find(primitive.name.as_str());
        let mut entries = Vec::new();
        std::mem::swap(&mut entries, &mut self.primitives);
        match found {
            Some(k) => {
                entries.set(k, primitive);
            },
            None => {
                entries.push(primitive);
            },
        }
        proof {
            lemma_lookup_after_register(old(self)@, p);
        }
        self.primitives = entries;
    }

    fn find(&self, name: &str) -> (r: Option<usize>)
        ensures
            match r {
                Some(k) => index_of_primitive(self@, name@) == Some(k as nat),
                None => index_of_primitive(self@, name@) is None,
            },
    {
        let mut i = self.primitives.len();
        assert(self@.take(i as int) =~= self@);
        while i > 0
            invariant
                i <= self.primitives.len(),
                index_of_primitive(self@, name@) == index_of_primitive(
                    self@.take(i as int),
                    name@,
                ),
            decreases i,
        {
            assert(self@.take(i as int).drop_last() =~= self@.take(i - 1));
            if str_eq(self.primitives[i - 1].name.as_str(), name) {
                return Some(i - 1);
            }
            i = i - 1;
        }
        None
    }

    /// The primitive named `name`.
    pub fn get(&self, name: &str) -> (r: Option<&PrimitiveManifest>)
        ensures
            match r {
                Some(p) => lookup_primitive(self@, name@) == Some(*p),
                None => lookup_primitive(self@, name@) is None,
            },
    {
        proof {
            lemma_index_of_primitive(self@, name@);
        }
        match self.find(name) {
            Some(k) => Some(&self.primitives[k]),
            None => None,
        }
    }

    /// Whether a primitive is named `name`.
    pub fn contains(&self, name: &str) -> (r: bool)
        ensures
            r == lookup_primitive(self@, name@) is Some,
    {
        self.get(name).is_some()
    }

    /// The primitives ordered by name.
    pub fn list(&self) -> (r: Vec<&PrimitiveManifest>)
        ensures
            r.len() == self@.len(),
            r@.map_values(|p: &PrimitiveManifest| p.name@) == primitive_names(self@).sort_by(
                text_order(),
            ),
            r@.map_values(|p: &PrimitiveManifest| *p).to_multiset() == self@.to_multiset(),
    {
        proof {
            lemma_text_order_total();
        }
        let ghost le = text_order();
        let ghost names = primitive_names(self@);
        let mut out: Vec<&PrimitiveManifest> = Vec::new();
        let mut i: usize = 0;
        assert(out@.map_values(|p: &PrimitiveManifest| p.name@) =~= names.take(0));
        assert(out@.map_values(|p: &PrimitiveManifest| *p) =~= self@.take(0));
        while i < self.primitives.len()
            invariant
                i <= self.primitives.len(),
                le == text_order(),
                total_ordering(le),
                names == primitive_names(self@),
                out.len() == i,
                sorted_by(out@.map_values(|p: &PrimitiveManifest| p.name@), le),
                out@.map_values(|p: &PrimitiveManifest| p.name@).to_multiset() == names.take(
                    i as int,
                ).to_multiset(),
                out@.map_values(|p: &PrimitiveManifest| *p).to_multiset() == self@.take(
                    i as int,
                ).to_multiset(),
            decreases self.primitives.len() - i,
        {
            let e = &self.primitives[i];
            let ghost ev = e.name@;
            let ghost before = out@.map_values(|p: &PrimitiveManifest| p.name@);
            let ghost before_vals = out@.map_values(|p: &PrimitiveManifest| *p);
            let mut pos: usize = 0;
            while pos < out.len() && text_leq(out[pos].name.as_str(), e.name.as_str())
                invariant
                    pos <= out.len(),
                    before == out@.map_values(|p: &PrimitiveManifest| p.name@),
                    ev == e.name@,
                    le == text_order(),
                    forall|k: int| 0 <= k < pos ==> le(#[trigger] before[k], ev),
                decreases out.len() - pos,
            {
                pos = pos + 1;
            }
            out.insert(pos, e);
            proof {
                let after = out@.map_values(|p: &PrimitiveManifest| p.name@);
                assert(after =~= before.insert(pos as int, ev));
                if pos < before.len() {
                    assert(!le(before[pos as int], ev));
                    assert(le(ev, before[pos as int]));
                }
                assert forall|a: int, b: int| 0 <= a < b < after.len() implies #[trigger] le(
                    after[a],
                    after[b],
                ) by {
                    if b < pos {
                        assert(after[a] == before[a] && after[b] == before[b]);
                    } else if b == pos {
                        assert(after[a] == before[a]);
                    } else if a < pos {
                        assert(after[a] == before[a] && after[b] == before[b - 1]);
                        assert(le(before[a], ev));
                        assert(le(ev, before[pos as int]));
                        assert(le(before[pos as int], before[b - 1]) || pos == b - 1);
                    } else if a == pos {
                        assert(after[b] == before[b - 1]);
                        assert(le(before[pos as int], before[b - 1]) || pos == b - 1);
                    } else {
                        assert(after[a] == before[a - 1] && after[b] == before[b - 1]);
                    }
                }
                assert(out@.map_values(|p: &PrimitiveManifest| *p) =~= before_vals.insert(
                    pos as int,
                    self@[i as int],
                ));
                vstd::seq_lib::to_multiset_insert(before_vals, pos as int, self@[i as int]);
                assert(self@.take(i + 1) =~= self@.take(i as int).push(self@[i as int]));
                vstd::seq_lib::to_multiset_build(self@.take(i as int), self@[i as int]);
                vstd::seq_lib::to_multiset_insert(before, pos as int, ev);
                assert(names.take(i + 1) =~= names.take(i as int).push(ev));
                vstd::seq_lib::to_multiset_build(names.take(i as int), ev);
            }
            i = i + 1;
        }
        proof {
            assert(names.take(self.primitives.len() as int) =~= names);
            assert(self@.take(self.primitives.len() as int) =~= self@);
            names.lemma_sort_by_ensures(le);
            vstd::seq_lib::lemma_sorted_unique(
                out@.map_values(|p: &PrimitiveManifest| p.name@),
                names.sort_by(le),
                le,
            );
        }
        out
    }
}

impl Default for PrimitiveCatalog {
    /// An empty catalog.
    fn default() -> (r: Self)
        ensures
            r@ == Seq::<PrimitiveManifest>::empty(),
    {
        PrimitiveCatalog::new()
    }
}

} // verus!
