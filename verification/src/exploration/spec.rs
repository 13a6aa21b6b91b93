use vstd::prelude::*;
use crate::text::{
    is_blank, join, join_strings, push_str, string_from, texts, trim, trim_str,
};

verus! {

/// Where the value of an exploration specification comes from.
#[derive(Debug, Clone, PartialEq)]
pub enum SpecSource {
    CandidateExpression { expression: String },
    TransferFunction { testbench: TestbenchSpec, input: String, output: String },
    Composed,
}

/// A named parameter of a specification and the expression giving its value.
#[derive(Debug, Clone, PartialEq)]
pub struct SpecParameter {
    pub name: String,
    pub value: String,
}

impl SpecParameter {
    pub fn new(name: &str, value: &str) -> (r: Self)
        ensures
            r.name@ == name@,
            r.value@ == value@,
    {
        SpecParameter { name: string_from(name), value: string_from(value) }
    }
}

/// The view of the circuit that a testbench is rendered against.
#[derive(Debug, Clone, Copy, PartialEq, Eq)]
pub enum CircuitView {
    SmallSignal,
}

/// A testbench: extra SPICE elements and text appended to a rendered circuit.
#[derive(Debug, Clone, PartialEq)]
pub struct TestbenchSpec {
    pub name: String,
    pub view: CircuitView,
    pub elements: Vec<TestbenchElement>,
    pub extra_body: Option<String>,
    pub dut: Option<DutRef>,
}

/// The design a testbench exercises: a macro of the catalog or a circuit.
#[derive(Debug, Clone, PartialEq, Eq)]
pub enum DutRef {
    Macro(String),
    Circuit(String),
}

/// One SPICE element of a testbench.
#[derive(Debug, Clone, PartialEq)]
pub enum TestbenchElement {
    VoltageSource { name: String, nplus: String, nminus: String, value: String },
    CurrentSource { name: String, nplus: String, nminus: String, value: String },
    Resistor { name: String, n1: String, n2: String, value: String },
    Capacitor { name: String, n1: String, n2: String, value: String },
}

/// `a b c d` with single spaces.
pub open spec fn four_fields(a: Seq<char>, b: Seq<char>, c: Seq<char>, d: Seq<char>) -> Seq<
    char,
> {
    a + seq![' '] + b + seq![' '] + c + seq![' '] + d
}

/// The SPICE line of a testbench element: name, the two nodes, the value.
pub open spec fn spice_line(e: TestbenchElement) -> Seq<char> {
    match e {
        TestbenchElement::VoltageSource { name, nplus, nminus, value } => four_fields(
            name@,
            nplus@,
            nminus@,
            value@,
        ),
        TestbenchElement::CurrentSource { name, nplus, nminus, value } => four_fields(
            name@,
            nplus@,
            nminus@,
            value@,
        ),
        TestbenchElement::Resistor { name, n1, n2, value } => four_fields(
            name@,
            n1@,
            n2@,
            value@,
        ),
        TestbenchElement::Capacitor { name, n1, n2, value } => four_fields(
            name@,
            n1@,
            n2@,
            value@,
        ),
    }
}

/// The SPICE lines of the elements, in order.
pub open spec fn element_lines(elements: Seq<TestbenchElement>) -> Seq<Seq<char>> {
    elements.map_values(|e: TestbenchElement| spice_line(e))
}

/// The body of a testbench: the element lines, then the trimmed extra
/// body when it is not blank, joined by newlines.
pub open spec fn body_text_spec(t: TestbenchSpec) -> Seq<char> {
    let lines = element_lines(t.elements@);
    let lines = match t.extra_body {
        Some(extra) => if trim(extra@).len() > 0 {
            lines.push(trim(extra@))
        } else {
            lines
        },
        None => lines,
    };
    join(lines, seq!['\n'])
}

fn four_field_line(a: &String, b: &String, c: &String, d: &String) -> (r: String)
    ensures
        r@ == four_fields(a@, b@, c@, d@),
{
    let mut out = a.clone();
    push_str(&mut out, " ");
    push_str(&mut out, b.as_str());
    push_str(&mut out, " ");
    push_str(&mut out, c.as_str());
    push_str(&mut out, " ");
    push_str(&mut out, d.as_str());
    proof {
        reveal_strlit(" ");
    }
    out
}

impl TestbenchElement {
    /// The SPICE line of this element.
    pub fn to_spice(&self) -> (r: String)
        ensures
            r@ == spice_line(*self),
    {
        match self {
            TestbenchElement::VoltageSource { name, nplus, nminus, value } => four_field_line(
                name,
                nplus,
                nminus,
                value,
            ),
            TestbenchElement::CurrentSource { name, nplus, nminus, value } => four_field_line(
                name,
                nplus,
                nminus,
                value,
            ),
            TestbenchElement::Resistor { name, n1, n2, value } => four_field_line(
                name,
                n1,
                n2,
                value,
            ),
            TestbenchElement::Capacitor { name, n1, n2, value } => four_field_line(
                name,
                n1,
                n2,
                value,
            ),
        }
    }
}

impl TestbenchSpec {
    /// An empty small-signal testbench.
    pub fn new(name: &str) -> (r: Self)
        ensures
            r.name@ == name@,
            r.view == CircuitView::SmallSignal,
            r.elements@.len() == 0,
            r.extra_body is None,
            r.dut is None,
    {
        TestbenchSpec {
            name: string_from(name),
            view: CircuitView::SmallSignal,
            elements: Vec::new(),
            extra_body: None,
            dut: None,
        }
    }

    /// This testbench with `element` appended.
    pub fn with_element(self, element: TestbenchElement) -> (r: Self)
        ensures
            r.name == self.name,
            r.view == self.view,
            r.elements@ == self.elements@.push(element),
            r.extra_body == self.extra_body,
            r.dut == self.dut,
    {
        let mut t = self;
        t.elements.push(element);
        t
    }

    /// This testbench with `extra_body` as its extra body text.
    pub fn with_extra_body(self, extra_body: &str) -> (r: Self)
        ensures
            r.name == self.name,
            r.view == self.view,
            r.elements == self.elements,
            r.extra_body matches Some(b) && b@ == extra_body@,
            r.dut == self.dut,
    {
        let mut t = self;
        t.extra_body = Some(string_from(extra_body));
        t
    }

    /// This testbench with the catalog macro `macro_name` as the design it
    /// exercises.
    pub fn with_macro_dut(self, macro_name: &str) -> (r: Self)
        ensures
            r.name == self.name,
            r.view == self.view,
            r.elements == self.elements,
            r.extra_body == self.extra_body,
            r.dut matches Some(DutRef::Macro(m)) && m@ == macro_name@,
    {
        let mut t = self;
        t.dut = Some(DutRef::Macro(string_from(macro_name)));
        t
    }

    /// The SPICE lines of the elements, in order.
    pub fn body_lines(&self) -> (r: Vec<String>)
        ensures
            texts(r@) == element_lines(self.elements@),
    {
        let mut out: Vec<String> = Vec::new();
        let mut i: usize = 0;
        while i < self.elements.len()
            invariant
                i <= self.elements.len(),
                texts(out@) == element_lines(self.elements@.take(i as int)),
            decreases self.elements.len() - i,
        {
            let line = self.elements[i].to_spice();
            out.push(line);
            assert(element_lines(self.elements@.take(i + 1)) =~= element_lines(
                self.elements@.take(i as int),
            ).push(spice_line(self.elements@[i as int])));
            assert(texts(out@) =~= texts(out@.drop_last()).push(out@.last()@));
            i = i + 1;
        }
        assert(self.elements@.take(self.elements.len() as int) =~= self.elements@);
        out
    }

    /// The body text: element lines and the non-blank extra body, one per line.
    pub fn body_text(&self) -> (r: String)
        ensures
            r@ == body_text_spec(*self),
    {
        let mut body = self.body_lines();
        match &self.extra_body {
            Some(extra) => {
                if !is_blank(extra.as_str()) {
                    let t = trim_str(extra.as_str());
                    let ghost before = texts(body@);
                    body.push(t);
                    assert(texts(body@) =~= before.push(trim(extra@)));
                }
            },
            None => {},
        }
        proof {
            reveal_strlit("\n");
            assert("\n"@ =~= seq!['\n']);
        }
        join_strings(&body, "\n")
    }
}

} // verus!
