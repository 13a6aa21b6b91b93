use vstd::prelude::*;
use crate::catalog::primitive_catalog::{lookup_primitive, PrimitiveCatalog};
use crate::circuit::instance::{macro_of, primitive_of, opt_str};
use crate::circuit::{Circuit, Connection, Instance};
use crate::primitive::manifest::{Pin, PrimitiveManifest};
use crate::text::{str_eq, string_from};

verus! {

/// A reason a circuit is not valid against a primitive catalog.
#[derive(Debug, Clone, PartialEq, Eq)]
pub enum CircuitValidationError {
    DuplicateInstance { id: String },
    UnknownPrimitive { instance: String, primitive: String },
    UnknownMacro { instance: String, macro_name: String },
    UnknownInstance { instance: String },
    UnknownPin { instance: String, primitive: String, pin: String },
}

/// A validation error, by its text.
pub enum ValidationErrorText {
    DuplicateInstance { id: Seq<char> },
    UnknownPrimitive { instance: Seq<char>, primitive: Seq<char> },
    UnknownMacro { instance: Seq<char>, macro_name: Seq<char> },
    UnknownInstance { instance: Seq<char> },
    UnknownPin { instance: Seq<char>, primitive: Seq<char>, pin: Seq<char> },
}

impl View for CircuitValidationError {
    type V = ValidationErrorText;

    open spec fn view(&self) -> ValidationErrorText {
        match self {
            CircuitValidationError::DuplicateInstance { id } => ValidationErrorText::DuplicateInstance {
                id: id@,
            },
            CircuitValidationError::UnknownPrimitive { instance, primitive } =>
                ValidationErrorText::UnknownPrimitive { instance: instance@, primitive: primitive@ },
            CircuitValidationError::UnknownMacro { instance, macro_name } =>
                ValidationErrorText::UnknownMacro { instance: instance@, macro_name: macro_name@ },
            CircuitValidationError::UnknownInstance { instance } =>
                ValidationErrorText::UnknownInstance { instance: instance@ },
            CircuitValidationError::UnknownPin { instance, primitive, pin } =>
                ValidationErrorText::UnknownPin {
                instance: instance@,
                primitive: primitive@,
                pin: pin@,
            },
        }
    }
}

pub open spec fn error_texts(v: Seq<CircuitValidationError>) -> Seq<ValidationErrorText> {
    v.map_values(|e: CircuitValidationError| e@)
}

/// Whether some instance of `insts` has id `id`.
pub open spec fn id_seen(insts: Seq<Instance>, id: Seq<char>) -> bool {
    exists|i: int| 0 <= i < insts.len() && (#[trigger] insts[i]).id@ == id
}

/// The errors of the last instance of `insts`: a repeated id, then a macro
/// instance (which the catalog cannot check) or an unknown primitive.
pub open spec fn instance_step(insts: Seq<Instance>, cat: Seq<PrimitiveManifest>) -> Seq<
    ValidationErrorText,
> {
    let inst = insts.last();
    let dup = if id_seen(insts.drop_last(), inst.id@) {
        seq![ValidationErrorText::DuplicateInstance { id: inst.id@ }]
    } else {
        seq![]
    };
    let kind = match primitive_of(inst) {
        None => match macro_of(inst) {
            Some(m) => seq![ValidationErrorText::UnknownMacro { instance: inst.id@, macro_name: m }],
            None => seq![],
        },
        Some(p) => if lookup_primitive(cat, p) is Some {
            seq![]
        } else {
            seq![ValidationErrorText::UnknownPrimitive { instance: inst.id@, primitive: p }]
        },
    };
    dup + kind
}

/// The errors of the instances, in order.
pub open spec fn instance_errors(insts: Seq<Instance>, cat: Seq<PrimitiveManifest>) -> Seq<
    ValidationErrorText,
>
    decreases insts.len(),
{
    if insts.len() == 0 {
        seq![]
    } else {
        instance_errors(insts.drop_last(), cat) + instance_step(insts, cat)
    }
}

/// The first instance with id `id`.
pub open spec fn find_instance(insts: Seq<Instance>, id: Seq<char>) -> Option<Instance>
    decreases insts.len(),
{
    if insts.len() == 0 {
        None
    } else if insts[0].id@ == id {
        Some(insts[0])
    } else {
        find_instance(insts.drop_first(), id)
    }
}

/// Whether a pin of `pins` is named `name`.
pub open spec fn has_pin(pins: Seq<Pin>, name: Seq<char>) -> bool {
    exists|i: int| 0 <= i < pins.len() && (#[trigger] pins[i]).name@ == name
}

/// The error of one connection: an unknown instance, or a pin that the
/// instance's primitive does not have.
pub open spec fn connection_step(
    c: Connection,
    insts: Seq<Instance>,
    cat: Seq<PrimitiveManifest>,
) -> Seq<ValidationErrorText> {
    match find_instance(insts, c.from.instance@) {
        None => seq![ValidationErrorText::UnknownInstance { instance: c.from.instance@ }],
        Some(inst) => match primitive_of(inst) {
            None => seq![],
            Some(p) => match lookup_primitive(cat, p) {
                None => seq![],
                Some(prim) => if has_pin(prim.pins@, c.from.pin@) {
                    seq![]
                } else {
                    seq![
                        ValidationErrorText::UnknownPin {
                            instance: inst.id@,
                            primitive: p,
                            pin: c.from.pin@,
                        },
                    ]
                },
            },
        },
    }
}

/// The errors of the connections, in order.
pub open spec fn connection_errors(
    conns: Seq<Connection>,
    insts: Seq<Instance>,
    cat: Seq<PrimitiveManifest>,
) -> Seq<ValidationErrorText>
    decreases conns.len(),
{
    if conns.len() == 0 {
        seq![]
    } else {
        connection_errors(conns.drop_last(), insts, cat) + connection_step(conns.last(), insts, cat)
    }
}

/// All errors of a circuit: those of its instances, then those of its
/// connections.
pub open spec fn validation_errors(c: Circuit, cat: Seq<PrimitiveManifest>) -> Seq<
    ValidationErrorText,
> {
    instance_errors(c.instances@, cat) + connection_errors(c.connections@, c.instances@, cat)
}

fn copy_string(s: &String) -> (r: String)
    ensures
        r@ == s@,
{
    s.clone()
}

fn id_seen_before(insts: &Vec<Instance>, n: usize, id: &String) -> (r: bool)
    requires
        n <= insts.len(),
    ensures
        r == id_seen(insts@.take(n as int), id@),
{
    let mut i: usize = 0;
    while i < n
        invariant
            i <= n <= insts.len(),
            forall|k: int| 0 <= k < i ==> (#[trigger] insts@[k]).id@ != id@,
        decreases n - i,
    {
        if str_eq(insts[i].id.as_str(), id.as_str()) {
            assert(insts@.take(n as int)[i as int] == insts@[i as int]);
            return true;
        }
        i = i + 1;
    }
    assert forall|k: int| 0 <= k < n implies (#[trigger] insts@.take(n as int)[k]).id@ != id@ by {
        assert(insts@.take(n as int)[k] == insts@[k]);
    }
    false
}

fn instance_by_id<'a>(insts: &'a Vec<Instance>, id: &String) -> (r: Option<&'a Instance>)
    ensures
        match r {
            Some(i) => find_instance(insts@, id@) == Some(*i),
            None => find_instance(insts@, id@) is None,
        },
{
    let mut i: usize = 0;
    assert(insts@.skip(0) =~= insts@);
    while i < insts.len()
        invariant
            i <= insts.len(),
            find_instance(insts@, id@) == find_instance(insts@.skip(i as int), id@),
        decreases insts.len() - i,
    {
        assert(insts@.skip(i as int)[0] == insts@[i as int]);
        if str_eq(insts[i].id.as_str(), id.as_str()) {
            return Some(&insts[i]);
        }
        assert(insts@.skip(i as int).drop_first() =~= insts@.skip(i + 1));
        i = i + 1;
    }
    None
}

fn pin_exists(pins: &Vec<Pin>, name: &String) -> (r: bool)
    ensures
        r == has_pin(pins@, name@),
{
    let mut i: usize = 0;
    while i < pins.len()
        invariant
            i <= pins.len(),
            forall|k: int| 0 <= k < i ==> (#[trigger] pins@[k]).name@ != name@,
        decreases pins.len() - i,
    {
        if str_eq(pins[i].name.as_str(), name.as_str()) {
            return true;
        }
        i = i + 1;
    }
    false
}

/// Checks a circuit against a primitive catalog: each instance id once,
/// each primitive known, no macro instance, each connection on a known
/// instance and on a pin of its primitive. Returns every error, in order.
pub fn validate_circuit(circuit: &Circuit, catalog: &PrimitiveCatalog) -> (r: Vec<
    CircuitValidationError,
>)
    ensures
        error_texts(r@) == validation_errors(*circuit, catalog@),
{
    let ghost insts = circuit.instances@;
    let mut errors: Vec<CircuitValidationError> = Vec::new();
    let mut i: usize = 0;
    assert(insts.take(0) =~= Seq::<Instance>::empty());
    assert(error_texts(errors@) =~= Seq::<ValidationErrorText>::empty());
    while i < circuit.instances.len()
        invariant
            i <= circuit.instances.len(),
            insts == circuit.instances@,
            error_texts(errors@) == instance_errors(insts.take(i as int), catalog@),
        decreases circuit.instances.len() - i,
    {
        let instance = &circuit.instances[i];
        let ghost pre = insts.take(i + 1);
        assert(pre.drop_last() =~= insts.take(i as int));
        assert(pre.last() == *instance);
        let ghost before = error_texts(errors@);
        if id_seen_before(&circuit.instances, i, &instance.id) {
            errors.push(CircuitValidationError::DuplicateInstance { id: copy_string(&instance.id) });
        }
        let ghost mid = error_texts(errors@);
        match instance.primitive_name() {
            None => {
                match instance.macro_name() {
                    Some(macro_name) => {
                        errors.push(
                            CircuitValidationError::UnknownMacro {
                                instance: copy_string(&instance.id),
                                macro_name: string_from(macro_name),
                            },
                        );
                    },
                    None => {},
                }
            },
            Some(primitive_name) => {
                if !catalog.contains(primitive_name) {
                    errors.push(
                        CircuitValidationError::UnknownPrimitive {
                            instance: copy_string(&instance.id),
                            primitive: string_from(primitive_name),
                        },
                    );
                }
            },
        }
        assert(error_texts(errors@) =~= before + instance_step(pre, catalog@));
        i = i + 1;
    }
    assert(insts.take(circuit.instances.len() as int) =~= insts);
    let ghost conns = circuit.connections@;
    let ghost head = error_texts(errors@);
    let mut j: usize = 0;
    assert(conns.take(0) =~= Seq::<Connection>::empty());
    while j < circuit.connections.len()
        invariant
            j <= circuit.connections.len(),
            conns == circuit.connections@,
            insts == circuit.instances@,
            head == instance_errors(insts, catalog@),
            error_texts(errors@) == head + connection_errors(
                conns.take(j as int),
                insts,
                catalog@,
            ),
        decreases circuit.connections.len() - j,
    {
        let connection = &circuit.connections[j];
        assert(conns.take(j + 1).drop_last() =~= conns.take(j as int));
        assert(conns.take(j + 1).last() == *connection);
        let ghost before = error_texts(errors@);
        match instance_by_id(&circuit.instances, &connection.from.instance) {
            None => {
                errors.push(
                    CircuitValidationError::UnknownInstance {
                        instance: copy_string(&connection.from.instance),
                    },
                );
            },
            Some(instance) => {
                match instance.primitive_name() {
                    None => {},
                    Some(primitive_name) => {
                        match catalog.get(primitive_name) {
                            None => {},
                            Some(primitive) => {
                                if !pin_exists(&primitive.pins, &connection.from.pin) {
                                    errors.push(
                                        CircuitValidationError::UnknownPin {
                                            instance: copy_string(&instance.id),
                                            primitive: string_from(primitive_name),
                                            pin: copy_string(&connection.from.pin),
                                        },
                                    );
                                }
                            },
                        }
                    },
                }
            },
        }
        assert(error_texts(errors@) =~= before + connection_step(*connection, insts, catalog@));
        j = j + 1;
    }
    assert(conns.take(circuit.connections.len() as int) =~= conns);
    errors
}

/// Whether an error reports `id` as a repeated instance id.
pub open spec fn reports_duplicate(id: Seq<char>) -> spec_fn(ValidationErrorText) -> bool {
    |e: ValidationErrorText| e == ValidationErrorText::DuplicateInstance { id }
}

/// Whether an instance has id `id`.
pub open spec fn has_id(id: Seq<char>) -> spec_fn(Instance) -> bool {
    |inst: Instance| inst.id@ == id
}

proof fn lemma_single_filter<A>(x: A, pred: spec_fn(A) -> bool)
    ensures
        seq![x].filter(pred) == if pred(x) {
            seq![x]
        } else {
            Seq::<A>::empty()
        },
{
    reveal(Seq::filter);
    let e = Seq::<A>::empty();
    assert(e.filter(pred) =~= e);
    assert(e.push(x) =~= seq![x]);
    e.lemma_filter_push(x, pred);
}

proof fn lemma_seen_iff_counted(insts: Seq<Instance>, id: Seq<char>)
    ensures
        id_seen(insts, id) <==> insts.filter(has_id(id)).len() > 0,
    decreases insts.len(),
{
    reveal(Seq::filter);
    if insts.len() > 0 {
        let dl = insts.drop_last();
        lemma_seen_iff_counted(dl, id);
        if id_seen(dl, id) {
            let k = choose|k: int| 0 <= k < dl.len() && (#[trigger] dl[k]).id@ == id;
            assert(insts[k] == dl[k]);
        }
        if id_seen(insts, id) && !(insts.last().id@ == id) {
            let k = choose|k: int| 0 <= k < insts.len() && (#[trigger] insts[k]).id@ == id;
            assert(k < insts.len() - 1);
            assert(dl[k] == insts[k]);
        }
        if insts.last().id@ == id {
            assert(insts[insts.len() - 1].id@ == id);
        }
    }
}

proof fn lemma_step_duplicates(insts: Seq<Instance>, cat: Seq<PrimitiveManifest>, id: Seq<char>)
    requires
        insts.len() > 0,
    ensures
        instance_step(insts, cat).filter(reports_duplicate(id)).len() == if insts.last().id@ == id
            && id_seen(insts.drop_last(), id) {
            1nat
        } else {
            0nat
        },
{
    let inst = insts.last();
    let pd = reports_duplicate(id);
    let seen = id_seen(insts.drop_last(), inst.id@);
    let dup = if seen {
        seq![ValidationErrorText::DuplicateInstance { id: inst.id@ }]
    } else {
        seq![]
    };
    let step = instance_step(insts, cat);
    let kind = step.subrange(dup.len() as int, step.len() as int);
    assert(step =~= dup + kind);
    Seq::filter_distributes_over_add(dup, kind, pd);
    reveal(Seq::filter);
    if dup.len() > 0 {
        lemma_single_filter(ValidationErrorText::DuplicateInstance { id: inst.id@ }, pd);
    } else {
        assert(dup =~= Seq::<ValidationErrorText>::empty());
    }
    if kind.len() > 0 {
        assert(kind.len() == 1);
        assert(kind =~= seq![kind[0]]);
        assert(!pd(kind[0]));
        lemma_single_filter(kind[0], pd);
    } else {
        assert(kind =~= Seq::<ValidationErrorText>::empty());
    }
}

proof fn lemma_instance_duplicates(insts: Seq<Instance>, cat: Seq<PrimitiveManifest>, id: Seq<char>)
    ensures
        instance_errors(insts, cat).filter(reports_duplicate(id)).len() + (if insts.filter(
            has_id(id),
        ).len() > 0 {
            1int
        } else {
            0int
        }) == insts.filter(has_id(id)).len(),
    decreases insts.len(),
{
    reveal(Seq::filter);
    if insts.len() > 0 {
        let dl = insts.drop_last();
        lemma_instance_duplicates(dl, cat, id);
        Seq::filter_distributes_over_add(
            instance_errors(dl, cat),
            instance_step(insts, cat),
            reports_duplicate(id),
        );
        lemma_step_duplicates(insts, cat, id);
        lemma_seen_iff_counted(dl, id);
    }
}

proof fn lemma_connections_no_duplicates(
    conns: Seq<Connection>,
    insts: Seq<Instance>,
    cat: Seq<PrimitiveManifest>,
    id: Seq<char>,
)
    ensures
        connection_errors(conns, insts, cat).filter(reports_duplicate(id)).len() == 0,
    decreases conns.len(),
{
    reveal(Seq::filter);
    if conns.len() > 0 {
        lemma_connections_no_duplicates(conns.drop_last(), insts, cat, id);
        let step = connection_step(conns.last(), insts, cat);
        Seq::filter_distributes_over_add(
            connection_errors(conns.drop_last(), insts, cat),
            step,
            reports_duplicate(id),
        );
        if step.len() > 0 {
            assert(step.len() == 1);
            assert(step =~= seq![step[0]]);
            lemma_single_filter(step[0], reports_duplicate(id));
        } else {
            assert(step =~= Seq::<ValidationErrorText>::empty());
        }
    }
}

/// An id is reported as repeated once for each instance that carries it
/// after the first: the number of `DuplicateInstance { id }` errors is the
/// number of instances with that id, less one, or none when no instance
/// has it.
pub proof fn law_each_repeated_id_reported(c: Circuit, cat: Seq<PrimitiveManifest>, id: Seq<char>)
    ensures
        validation_errors(c, cat).filter(reports_duplicate(id)).len() == if c.instances@.filter(
            has_id(id),
        ).len() > 0 {
            c.instances@.filter(has_id(id)).len() - 1
        } else {
            0
        },
{
    lemma_instance_duplicates(c.instances@, cat, id);
    lemma_connections_no_duplicates(c.connections@, c.instances@, cat, id);
    Seq::filter_distributes_over_add(
        instance_errors(c.instances@, cat),
        connection_errors(c.connections@, c.instances@, cat),
        reports_duplicate(id),
    );
}

proof fn lemma_later_repeat_reported(insts: Seq<Instance>, cat: Seq<PrimitiveManifest>, i: int, j: int)
    requires
        0 <= i < j < insts.len(),
        insts[i].id@ == insts[j].id@,
    ensures
        instance_errors(insts, cat).contains(
            ValidationErrorText::DuplicateInstance { id: insts[j].id@ },
        ),
    decreases insts.len(),
{
    let dl = insts.drop_last();
    let prev = instance_errors(dl, cat);
    let step = instance_step(insts, cat);
    if j == insts.len() - 1 {
        assert(dl[i] == insts[i]);
        assert(id_seen(dl, insts.last().id@));
        assert((prev + step)[prev.len() as int] == step[0]);
    } else {
        assert(dl[i] == insts[i] && dl[j] == insts[j]);
        lemma_later_repeat_reported(dl, cat, i, j);
        let e = ValidationErrorText::DuplicateInstance { id: insts[j].id@ };
        let k = choose|k: int| 0 <= k < prev.len() && prev[k] == e;
        assert((prev + step)[k] == e);
    }
}

/// Every instance whose id an earlier instance already has is reported:
/// for instances `i < j` with the same id, the errors hold
/// `DuplicateInstance` with that id.
pub proof fn law_later_repeat_reported(c: Circuit, cat: Seq<PrimitiveManifest>, i: int, j: int)
    requires
        0 <= i < j < c.instances@.len(),
        c.instances@[i].id@ == c.instances@[j].id@,
    ensures
        validation_errors(c, cat).contains(
            ValidationErrorText::DuplicateInstance { id: c.instances@[j].id@ },
        ),
{
    lemma_later_repeat_reported(c.instances@, cat, i, j);
    let prev = instance_errors(c.instances@, cat);
    let e = ValidationErrorText::DuplicateInstance { id: c.instances@[j].id@ };
    let k = choose|k: int| 0 <= k < prev.len() && prev[k] == e;
    assert((prev + connection_errors(c.connections@, c.instances@, cat))[k] == e);
}

proof fn lemma_step_errors_kept(insts: Seq<Instance>, cat: Seq<PrimitiveManifest>, k: int, e: ValidationErrorText)
    requires
        0 <= k < insts.len(),
        instance_step(insts.take(k + 1), cat).contains(e),
    ensures
        instance_errors(insts, cat).contains(e),
    decreases insts.len(),
{
    let dl = insts.drop_last();
    let prev = instance_errors(dl, cat);
    let step = instance_step(insts, cat);
    if k == insts.len() - 1 {
        assert(insts.take(k + 1) =~= insts);
        let q = choose|q: int| 0 <= q < step.len() && step[q] == e;
        assert((prev + step)[prev.len() + q] == e);
    } else {
        assert(dl.take(k + 1) =~= insts.take(k + 1));
        lemma_step_errors_kept(dl, cat, k, e);
        let q = choose|q: int| 0 <= q < prev.len() && prev[q] == e;
        assert((prev + step)[q] == e);
    }
}

proof fn lemma_in_validation(c: Circuit, cat: Seq<PrimitiveManifest>, e: ValidationErrorText)
    requires
        instance_errors(c.instances@, cat).contains(e) || connection_errors(
            c.connections@,
            c.instances@,
            cat,
        ).contains(e),
    ensures
        validation_errors(c, cat).contains(e),
{
    let a = instance_errors(c.instances@, cat);
    let b = connection_errors(c.connections@, c.instances@, cat);
    if a.contains(e) {
        let q = choose|q: int| 0 <= q < a.len() && a[q] == e;
        assert((a + b)[q] == e);
    } else {
        let q = choose|q: int| 0 <= q < b.len() && b[q] == e;
        assert((a + b)[a.len() + q] == e);
    }
}

/// Every instance whose primitive the catalog lacks is reported with that
/// primitive, and every instance of a macro is reported as a macro the
/// catalog cannot check.
pub proof fn law_unknown_instances_reported(c: Circuit, cat: Seq<PrimitiveManifest>, k: int)
    requires
        0 <= k < c.instances@.len(),
    ensures
        primitive_of(c.instances@[k]) matches Some(p) ==> (lookup_primitive(cat, p) is None
            ==> validation_errors(c, cat).contains(
            ValidationErrorText::UnknownPrimitive { instance: c.instances@[k].id@, primitive: p },
        )),
        macro_of(c.instances@[k]) matches Some(m) ==> (primitive_of(c.instances@[k]) is None
            ==> validation_errors(c, cat).contains(
            ValidationErrorText::UnknownMacro { instance: c.instances@[k].id@, macro_name: m },
        )),
{
    let insts = c.instances@;
    let t = insts.take(k + 1);
    assert(t.last() == insts[k]);
    let inst = insts[k];
    let step = instance_step(t, cat);
    let e = if primitive_of(inst) is Some {
        ValidationErrorText::UnknownPrimitive {
            instance: inst.id@,
            primitive: primitive_of(inst)->Some_0,
        }
    } else {
        ValidationErrorText::UnknownMacro {
            instance: inst.id@,
            macro_name: macro_of(inst)->Some_0,
        }
    };
    if (primitive_of(inst) matches Some(p) && lookup_primitive(cat, p) is None) || (primitive_of(
        inst,
    ) is None && macro_of(inst) is Some) {
        assert(step[step.len() - 1] == e);
        lemma_step_errors_kept(insts, cat, k, e);
        lemma_in_validation(c, cat, e);
    }
}

proof fn lemma_connection_step_kept(
    conns: Seq<Connection>,
    insts: Seq<Instance>,
    cat: Seq<PrimitiveManifest>,
    k: int,
    e: ValidationErrorText,
)
    requires
        0 <= k < conns.len(),
        connection_step(conns[k], insts, cat).contains(e),
    ensures
        connection_errors(conns, insts, cat).contains(e),
    decreases conns.len(),
{
    let dl = conns.drop_last();
    let prev = connection_errors(dl, insts, cat);
    let step = connection_step(conns.last(), insts, cat);
    if k == conns.len() - 1 {
        let q = choose|q: int| 0 <= q < step.len() && step[q] == e;
        assert((prev + step)[prev.len() + q] == e);
    } else {
        assert(dl[k] == conns[k]);
        lemma_connection_step_kept(dl, insts, cat, k, e);
        let q = choose|q: int| 0 <= q < prev.len() && prev[q] == e;
        assert((prev + step)[q] == e);
    }
}

/// Every connection from an instance the circuit does not have is
/// reported, and every connection to a pin that the instance's primitive
/// does not have is reported with that pin.
pub proof fn law_bad_connections_reported(c: Circuit, cat: Seq<PrimitiveManifest>, k: int)
    requires
        0 <= k < c.connections@.len(),
    ensures
        find_instance(c.instances@, c.connections@[k].from.instance@) is None ==> validation_errors(
            c,
            cat,
        ).contains(
            ValidationErrorText::UnknownInstance { instance: c.connections@[k].from.instance@ },
        ),
        find_instance(c.instances@, c.connections@[k].from.instance@) matches Some(inst) ==> (
        primitive_of(inst) matches Some(p) ==> (lookup_primitive(cat, p) matches Some(prim) ==> (
        !has_pin(prim.pins@, c.connections@[k].from.pin@) ==> validation_errors(c, cat).contains(
            ValidationErrorText::UnknownPin {
                instance: inst.id@,
                primitive: p,
                pin: c.connections@[k].from.pin@,
            },
        )))),
{
    let conn = c.connections@[k];
    let step = connection_step(conn, c.instances@, cat);
    if step.len() > 0 {
        lemma_connection_step_kept(c.connections@, c.instances@, cat, k, step[0]);
        lemma_in_validation(c, cat, step[0]);
    }
}

} // verus!

