use vstd::prelude::*;
use crate::exploration::spec::{DutRef, TestbenchElement, TestbenchSpec};
use crate::macro_model::render::contains_name;
use crate::text::{str_eq, texts};

verus! {

/// Why exploration files could not be read or written, or refer to
/// testbenches wrongly.
#[derive(Debug)]
pub enum ExplorationIoError {
    Io(std::io::Error),
    Json(serde_json::Error),
    DuplicateTestbench { name: String },
    MissingTestbench { name: String },
}

/// The names of the testbenches, in order.
pub open spec fn testbench_names(testbenches: Seq<TestbenchSpec>) -> Seq<Seq<char>> {
    testbenches.map_values(|t: TestbenchSpec| t.name@)
}

/// The first name that repeats an earlier one, if any.
pub open spec fn first_repeat(names: Seq<Seq<char>>) -> Option<Seq<char>>
    decreases names.len(),
{
    if names.len() == 0 {
        None
    } else {
        match first_repeat(names.drop_last()) {
            Some(x) => Some(x),
            None => if names.drop_last().contains(names.last()) {
                Some(names.last())
            } else {
                None
            },
        }
    }
}

/// The testbench named `name` among `testbenches`, the first of that name.
pub open spec fn testbench_named(testbenches: Seq<TestbenchSpec>, name: Seq<char>) -> Option<
    TestbenchSpec,
>
    decreases testbenches.len(),
{
    if testbenches.len() == 0 {
        None
    } else if testbenches[0].name@ == name {
        Some(testbenches[0])
    } else {
        testbench_named(testbenches.drop_first(), name)
    }
}

/// The testbenches of an exploration, each known by its name.
#[derive(Debug)]
pub struct TestbenchMap {
    testbenches: Vec<TestbenchSpec>,
}

impl View for TestbenchMap {
    type V = Seq<TestbenchSpec>;

    closed spec fn view(&self) -> Seq<TestbenchSpec> {
        self.testbenches@
    }
}

impl TestbenchMap {
    #[verifier::type_invariant]
    closed spec fn names_unique(self) -> bool {
        testbench_names(self.testbenches@).no_duplicates()
    }

    /// The testbench named `name`.
    pub fn get(&self, name: &str) -> (r: Option<&TestbenchSpec>)
        ensures
            match r {
                Some(t) => testbench_named(self@, name@) == Some(*t),
                None => testbench_named(self@, name@) is None,
            },
    {
        let ghost all = self@;
        let mut i: usize = 0;
        assert(all.skip(0) =~= all);
        while i < self.testbenches.len()
            invariant
                i <= self.testbenches.len(),
                all == self@,
                all.len() == self.testbenches.len(),
                testbench_named(all, name@) == testbench_named(all.skip(i as int), name@),
            decreases self.testbenches.len() - i,
        {
            assert(all.skip(i as int)[0] == all[i as int]);
            if str_eq(self.testbenches[i].name.as_str(), name) {
                return Some(&self.testbenches[i]);
            }
            assert(all.skip(i as int).drop_first() =~= all.skip(i + 1));
            i = i + 1;
        }
        None
    }
}

impl TestbenchElement {
    /// A copy of this element.
    pub fn duplicate(&self) -> (r: Self)
        ensures
            r == *self,
    {
        match self {
            TestbenchElement::VoltageSource { name, nplus, nminus, value } =>
                TestbenchElement::VoltageSource {
                name: name.clone(),
                nplus: nplus.clone(),
                nminus: nminus.clone(),
                value: value.clone(),
            },
            TestbenchElement::CurrentSource { name, nplus, nminus, value } =>
                TestbenchElement::CurrentSource {
                name: name.clone(),
                nplus: nplus.clone(),
                nminus: nminus.clone(),
                value: value.clone(),
            },
            TestbenchElement::Resistor { name, n1, n2, value } => TestbenchElement::Resistor {
                name: name.clone(),
                n1: n1.clone(),
                n2: n2.clone(),
                value: value.clone(),
            },
            TestbenchElement::Capacitor { name, n1, n2, value } => TestbenchElement::Capacitor {
                name: name.clone(),
                n1: n1.clone(),
                n2: n2.clone(),
                value: value.clone(),
            },
        }
    }
}

impl TestbenchSpec {
    /// A copy of this testbench.
    pub fn duplicate(&self) -> (r: Self)
        ensures
            r.name == self.name,
            r.view == self.view,
            r.elements@ == self.elements@,
            r.extra_body == self.extra_body,
            r.dut == self.dut,
    {
        let mut elements: Vec<TestbenchElement> = Vec::new();
        let mut i: usize = 0;
        while i < self.elements.len()
            invariant
                i <= self.elements.len(),
                elements@ == self.elements@.take(i as int),
            decreases self.elements.len() - i,
        {
            elements.push(self.elements[i].duplicate());
            assert(self.elements@.take(i + 1) =~= self.elements@.take(i as int).push(
                self.elements@[i as int],
            ));
            i = i + 1;
        }
        assert(self.elements@.take(self.elements.len() as int) =~= self.elements@);
        let extra_body = match &self.extra_body {
            Some(b) => Some(b.clone()),
            None => None,
        };
        let dut = match &self.dut {
            Some(DutRef::Macro(m)) => Some(DutRef::Macro(m.clone())),
            Some(DutRef::Circuit(c)) => Some(DutRef::Circuit(c.clone())),
            None => None,
        };
        TestbenchSpec { name: self.name.clone(), view: self.view, elements, extra_body, dut }
    }
}

/// Indexes testbenches by name; the first name met twice is reported.
pub fn testbench_map(testbenches: &[TestbenchSpec]) -> (r: Result<TestbenchMap, ExplorationIoError>)
    ensures
        match r {
            Ok(map) => first_repeat(testbench_names(testbenches@)) is None && map@.len()
                == testbenches@.len() && forall|i: int|
                0 <= i < testbenches@.len() ==> (#[trigger] map@[i]).name == testbenches@[i].name
                    && map@[i].elements@ == testbenches@[i].elements@ && map@[i].view
                    == testbenches@[i].view && map@[i].extra_body == testbenches@[i].extra_body
                    && map@[i].dut == testbenches@[i].dut,
            Err(ExplorationIoError::DuplicateTestbench { name }) => first_repeat(
                testbench_names(testbenches@),
            ) == Some(name@),
            Err(_) => false,
        },
{
    let ghost names = testbench_names(testbenches@);
    let mut seen: Vec<String> = Vec::new();
    let mut by_name: Vec<TestbenchSpec> = Vec::new();
    let mut i: usize = 0;
    assert(names.take(0) =~= Seq::<Seq<char>>::empty());
    while i < testbenches.len()
        invariant
            i <= testbenches.len(),
            names == testbench_names(testbenches@),
            texts(seen@) == names.take(i as int),
            first_repeat(names.take(i as int)) is None,
            by_name@.len() == i,
            forall|k: int|
                0 <= k < i ==> (#[trigger] by_name@[k]).name == testbenches@[k].name
                    && by_name@[k].elements@ == testbenches@[k].elements@ && by_name@[k].view
                    == testbenches@[k].view && by_name@[k].extra_body == testbenches@[k].extra_body
                    && by_name@[k].dut == testbenches@[k].dut,
        decreases testbenches.len() - i,
    {
        let t = &testbenches[i];
        assert(names.take(i + 1).drop_last() =~= names.take(i as int));
        assert(names.take(i + 1).last() == t.name@);
        if contains_name(&seen, t.name.as_str()) {
            assert(first_repeat(names.take(i + 1)) == Some(t.name@));
            proof {
                lemma_first_repeat_stays(names, i + 1);
            }
            return Err(ExplorationIoError::DuplicateTestbench { name: t.name.clone() });
        }
        let ghost before = texts(seen@);
        seen.push(t.name.clone());
        assert(texts(seen@) =~= before.push(t.name@));
        by_name.push(t.duplicate());
        i = i + 1;
    }
    assert(names.take(testbenches.len() as int) =~= names);
    proof {
        lemma_no_repeat_distinct(names);
        assert(testbench_names(by_name@) =~= names);
    }
    Ok(TestbenchMap { testbenches: by_name })
}

proof fn lemma_first_repeat_stays(names: Seq<Seq<char>>, k: int)
    requires
        0 <= k <= names.len(),
        first_repeat(names.take(k)) is Some,
    ensures
        first_repeat(names) == first_repeat(names.take(k)),
    decreases names.len() - k,
{
    if k < names.len() {
        assert(names.take(k + 1).drop_last() =~= names.take(k));
        lemma_first_repeat_stays(names, k + 1);
    } else {
        assert(names.take(k) =~= names);
    }
}

proof fn lemma_no_repeat_distinct(names: Seq<Seq<char>>)
    requires
        first_repeat(names) is None,
    ensures
        names.no_duplicates(),
    decreases names.len(),
{
    if names.len() > 0 {
        let init = names.drop_last();
        lemma_no_repeat_distinct(init);
        assert forall|i: int, j: int|
            0 <= i < names.len() && 0 <= j < names.len() && i != j implies names[i] != names[j] by {
            if i == names.len() - 1 && j < init.len() {
                assert(init[j] == names[j]);
                if names[i] == names[j] {
                    assert(init.contains(names.last()));
                }
            } else if j == names.len() - 1 && i < init.len() {
                assert(init[i] == names[i]);
                if names[i] == names[j] {
                    assert(init.contains(names.last()));
                }
            } else if i < init.len() && j < init.len() {
                assert(init[i] == names[i] && init[j] == names[j]);
            }
        }
    }
}

/// The testbench that an exploration spec names, or the error that none
/// has that name.
pub fn resolve_testbench(map: &TestbenchMap, name: &str) -> (r: Result<
    TestbenchSpec,
    ExplorationIoError,
>)
    ensures
        match r {
            Ok(t) => testbench_named(map@, name@) matches Some(found) && t.name == found.name
                && t.elements@ == found.elements@ && t.view == found.view && t.extra_body
                == found.extra_body && t.dut == found.dut,
            Err(ExplorationIoError::MissingTestbench { name: missing }) => testbench_named(
                map@,
                name@,
            ) is None && missing@ == name@,
            Err(_) => false,
        },
{
    match map.get(name) {
        Some(t) => Ok(t.duplicate()),
        None => Err(ExplorationIoError::MissingTestbench { name: crate::text::string_from(name) }),
    }
}

} // verus!
