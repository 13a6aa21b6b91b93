use vstd::prelude::*;
use crate::catalog::primitive_catalog::{lookup_primitive, PrimitiveCatalog};
use crate::circuit::instance::{macro_of, primitive_of};
use crate::circuit::validation::{find_instance, has_pin, id_seen};
use crate::circuit::{Connection, Instance};
use crate::macro_model::catalog::{
    lemma_catalog_names_distinct, lemma_found_entry, lemma_listed_entry, lookup_macro, macro_names,
    macro_names_distinct, MacroCatalog,
};
use crate::macro_model::render::contains_name;
use crate::text::text_order;
use crate::macro_model::model::{MacroModel, MacroPort};
use crate::primitive::manifest::{Pin, PrimitiveManifest};
use crate::text::{str_eq, string_from, texts};

verus! {

/// A reason a macro is not valid.
#[derive(Debug, Clone, PartialEq, Eq)]
pub enum MacroValidationError {
    DuplicatePort { macro_name: String, port: String },
    MissingPublicPortNet { macro_name: String, port: String },
    DuplicateInstance { macro_name: String, instance: String },
    UnknownPrimitive { macro_name: String, instance: String, primitive: String },
    UnknownMacro { macro_name: String, instance: String, referenced_macro: String },
    UnknownPin { macro_name: String, instance: String, block: String, pin: String },
    CyclicDependency { path: Vec<String> },
}

/// A macro validation error, by its text.
pub enum MacroErrorText {
    DuplicatePort { macro_name: Seq<char>, port: Seq<char> },
    MissingPublicPortNet { macro_name: Seq<char>, port: Seq<char> },
    DuplicateInstance { macro_name: Seq<char>, instance: Seq<char> },
    UnknownPrimitive { macro_name: Seq<char>, instance: Seq<char>, primitive: Seq<char> },
    UnknownMacro { macro_name: Seq<char>, instance: Seq<char>, referenced_macro: Seq<char> },
    UnknownPin { macro_name: Seq<char>, instance: Seq<char>, block: Seq<char>, pin: Seq<char> },
    CyclicDependency { path: Seq<Seq<char>> },
}

impl View for MacroValidationError {
    type V = MacroErrorText;

    open spec fn view(&self) -> MacroErrorText {
        match self {
            MacroValidationError::DuplicatePort { macro_name, port } => MacroErrorText::DuplicatePort {
                macro_name: macro_name@,
                port: port@,
            },
            MacroValidationError::MissingPublicPortNet { macro_name, port } =>
                MacroErrorText::MissingPublicPortNet { macro_name: macro_name@, port: port@ },
            MacroValidationError::DuplicateInstance { macro_name, instance } =>
                MacroErrorText::DuplicateInstance { macro_name: macro_name@, instance: instance@ },
            MacroValidationError::UnknownPrimitive { macro_name, instance, primitive } =>
                MacroErrorText::UnknownPrimitive {
                macro_name: macro_name@,
                instance: instance@,
                primitive: primitive@,
            },
            MacroValidationError::UnknownMacro { macro_name, instance, referenced_macro } =>
                MacroErrorText::UnknownMacro {
                macro_name: macro_name@,
                instance: instance@,
                referenced_macro: referenced_macro@,
            },
            MacroValidationError::UnknownPin { macro_name, instance, block, pin } =>
                MacroErrorText::UnknownPin {
                macro_name: macro_name@,
                instance: instance@,
                block: block@,
                pin: pin@,
            },
            MacroValidationError::CyclicDependency { path } => MacroErrorText::CyclicDependency {
                path: texts(path@),
            },
        }
    }
}

pub open spec fn macro_error_texts(v: Seq<MacroValidationError>) -> Seq<MacroErrorText> {
    v.map_values(|e: MacroValidationError| e@)
}

/// Whether some port of `ports` is named `name`.
pub open spec fn has_port(ports: Seq<MacroPort>, name: Seq<char>) -> bool {
    exists|i: int| 0 <= i < ports.len() && (#[trigger] ports[i]).name@ == name
}

/// Whether some connection is on net `net`.
pub open spec fn net_used(conns: Seq<Connection>, net: Seq<char>) -> bool {
    exists|i: int| 0 <= i < conns.len() && (#[trigger] conns[i]).net@ == net
}

/// The errors of the last port: a repeated name, a port no net reaches.
pub open spec fn port_step(m: MacroModel, ports: Seq<MacroPort>) -> Seq<MacroErrorText> {
    let p = ports.last();
    let dup = if has_port(ports.drop_last(), p.name@) {
        seq![MacroErrorText::DuplicatePort { macro_name: m.name@, port: p.name@ }]
    } else {
        seq![]
    };
    let missing = if net_used(m.circuit.connections@, p.name@) {
        seq![]
    } else {
        seq![MacroErrorText::MissingPublicPortNet { macro_name: m.name@, port: p.name@ }]
    };
    dup + missing
}

pub open spec fn port_errors(m: MacroModel, ports: Seq<MacroPort>) -> Seq<MacroErrorText>
    decreases ports.len(),
{
    if ports.len() == 0 {
        seq![]
    } else {
        port_errors(m, ports.drop_last()) + port_step(m, ports)
    }
}

/// The errors of the last instance: a repeated id, an unknown primitive or
/// an unknown macro.
pub open spec fn macro_instance_step(
    m: MacroModel,
    insts: Seq<Instance>,
    pcat: Seq<PrimitiveManifest>,
    mcat: Seq<MacroModel>,
) -> Seq<MacroErrorText> {
    let inst = insts.last();
    let dup = if id_seen(insts.drop_last(), inst.id@) {
        seq![MacroErrorText::DuplicateInstance { macro_name: m.name@, instance: inst.id@ }]
    } else {
        seq![]
    };
    let kind = match primitive_of(inst) {
        Some(p) => if lookup_primitive(pcat, p) is Some {
            seq![]
        } else {
            seq![MacroErrorText::UnknownPrimitive { macro_name: m.name@, instance: inst.id@, primitive: p }]
        },
        None => match macro_of(inst) {
            Some(r) => if lookup_macro(mcat, r) is Some {
                seq![]
            } else {
                seq![
                    MacroErrorText::UnknownMacro {
                        macro_name: m.name@,
                        instance: inst.id@,
                        referenced_macro: r,
                    },
                ]
            },
            None => seq![],
        },
    };
    dup + kind
}

pub open spec fn macro_instance_errors(
    m: MacroModel,
    insts: Seq<Instance>,
    pcat: Seq<PrimitiveManifest>,
    mcat: Seq<MacroModel>,
) -> Seq<MacroErrorText>
    decreases insts.len(),
{
    if insts.len() == 0 {
        seq![]
    } else {
        macro_instance_errors(m, insts.drop_last(), pcat, mcat) + macro_instance_step(
            m,
            insts,
            pcat,
            mcat,
        )
    }
}

/// The error of one connection: a pin that the instance's primitive or
/// macro does not have. Connections on unknown instances or blocks are left
/// to the other checks.
pub open spec fn macro_connection_step(
    m: MacroModel,
    c: Connection,
    pcat: Seq<PrimitiveManifest>,
    mcat: Seq<MacroModel>,
) -> Seq<MacroErrorText> {
    match find_instance(m.circuit.instances@, c.from.instance@) {
        None => seq![],
        Some(inst) => match primitive_of(inst) {
            Some(p) => match lookup_primitive(pcat, p) {
                None => seq![],
                Some(prim) => if has_pin(prim.pins@, c.from.pin@) {
                    seq![]
                } else {
                    seq![
                        MacroErrorText::UnknownPin {
                            macro_name: m.name@,
                            instance: inst.id@,
                            block: p,
                            pin: c.from.pin@,
                        },
                    ]
                },
            },
            None => match macro_of(inst) {
                None => seq![],
                Some(r) => match lookup_macro(mcat, r) {
                    None => seq![],
                    Some(rm) => if has_port(rm.ports@, c.from.pin@) {
                        seq![]
                    } else {
                        seq![
                            MacroErrorText::UnknownPin {
                                macro_name: m.name@,
                                instance: inst.id@,
                                block: r,
                                pin: c.from.pin@,
                            },
                        ]
                    },
                },
            },
        },
    }
}

pub open spec fn macro_connection_errors(
    m: MacroModel,
    conns: Seq<Connection>,
    pcat: Seq<PrimitiveManifest>,
    mcat: Seq<MacroModel>,
) -> Seq<MacroErrorText>
    decreases conns.len(),
{
    if conns.len() == 0 {
        seq![]
    } else {
        macro_connection_errors(m, conns.drop_last(), pcat, mcat) + macro_connection_step(
            m,
            conns.last(),
            pcat,
            mcat,
        )
    }
}

/// Every error of a macro: its ports, then its instances, then its
/// connections.
pub open spec fn macro_errors(m: MacroModel, pcat: Seq<PrimitiveManifest>, mcat: Seq<MacroModel>) -> Seq<
    MacroErrorText,
> {
    port_errors(m, m.ports@) + macro_instance_errors(m, m.circuit.instances@, pcat, mcat)
        + macro_connection_errors(m, m.circuit.connections@, pcat, mcat)
}

fn port_seen_before(ports: &Vec<MacroPort>, n: usize, name: &String) -> (r: bool)
    requires
        n <= ports.len(),
    ensures
        r == has_port(ports@.take(n as int), name@),
{
    let mut i: usize = 0;
    while i < n
        invariant
            i <= n <= ports.len(),
            forall|k: int| 0 <= k < i ==> (#[trigger] ports@[k]).name@ != name@,
        decreases n - i,
    {
        if str_eq(ports[i].name.as_str(), name.as_str()) {
            assert(ports@.take(n as int)[i as int] == ports@[i as int]);
            return true;
        }
        i = i + 1;
    }
    assert forall|k: int| 0 <= k < n implies (#[trigger] ports@.take(n as int)[k]).name@ != name@ by {
        assert(ports@.take(n as int)[k] == ports@[k]);
    }
    false
}

fn net_in_use(conns: &Vec<Connection>, net: &String) -> (r: bool)
    ensures
        r == net_used(conns@, net@),
{
    let mut i: usize = 0;
    while i < conns.len()
        invariant
            i <= conns.len(),
            forall|k: int| 0 <= k < i ==> (#[trigger] conns@[k]).net@ != net@,
        decreases conns.len() - i,
    {
        if str_eq(conns[i].net.as_str(), net.as_str()) {
            return true;
        }
        i = i + 1;
    }
    false
}

fn port_exists(ports: &Vec<MacroPort>, name: &String) -> (r: bool)
    ensures
        r == has_port(ports@, name@),
{
    let r = port_seen_before(ports, ports.len(), name);
    assert(ports@.take(ports.len() as int) =~= ports@);
    r
}

fn id_seen_before(insts: &Vec<Instance>, n: usize, id: &String) -> (r: bool)
    requires
        n <= insts.len(),
    ensures
        r == id_seen(insts@.take(n as int), id@),
{
    let mut i: usize = 0;
    while i < n
        invariant
            i <= n <= insts.len(),
            forall|k: int| 0 <= k < i ==> (#[trigger] insts@[k]).id@ != id@,
        decreases n - i,
    {
        if str_eq(insts[i].id.as_str(), id.as_str()) {
            assert(insts@.take(n as int)[i as int] == insts@[i as int]);
            return true;
        }
        i = i + 1;
    }
    assert forall|k: int| 0 <= k < n implies (#[trigger] insts@.take(n as int)[k]).id@ != id@ by {
        assert(insts@.take(n as int)[k] == insts@[k]);
    }
    false
}

fn instance_by_id<'a>(insts: &'a Vec<Instance>, id: &String) -> (r: Option<&'a Instance>)
    ensures
        match r {
            Some(i) => find_instance(insts@, id@) == Some(*i),
            None => find_instance(insts@, id@) is None,
        },
{
    let mut i: usize = 0;
    assert(insts@.skip(0) =~= insts@);
    while i < insts.len()
        invariant
            i <= insts.len(),
            find_instance(insts@, id@) == find_instance(insts@.skip(i as int), id@),
        decreases insts.len() - i,
    {
        assert(insts@.skip(i as int)[0] == insts@[i as int]);
        if str_eq(insts[i].id.as_str(), id.as_str()) {
            return Some(&insts[i]);
        }
        assert(insts@.skip(i as int).drop_first() =~= insts@.skip(i + 1));
        i = i + 1;
    }
    None
}

fn pin_exists(pins: &Vec<Pin>, name: &String) -> (r: bool)
    ensures
        r == has_pin(pins@, name@),
{
    let mut i: usize = 0;
    while i < pins.len()
        invariant
            i <= pins.len(),
            forall|k: int| 0 <= k < i ==> (#[trigger] pins@[k]).name@ != name@,
        decreases pins.len() - i,
    {
        if str_eq(pins[i].name.as_str(), name.as_str()) {
            return true;
        }
        i = i + 1;
    }
    false
}

/// Checks a macro against the primitive and macro catalogs: each port once
/// and reached by a net, each instance id once, each block known, each
/// connection on a pin or port of its block. Returns every error, in order.
pub fn validate_macro_model(
    macro_model: &MacroModel,
    primitive_catalog: &PrimitiveCatalog,
    macro_catalog: &MacroCatalog,
) -> (r: Vec<MacroValidationError>)
    ensures
        macro_error_texts(r@) == macro_errors(*macro_model, primitive_catalog@, macro_catalog@),
{
    let m = macro_model;
    let ghost ports = m.ports@;
    let mut errors: Vec<MacroValidationError> = Vec::new();
    let mut i: usize = 0;
    assert(ports.take(0) =~= Seq::<MacroPort>::empty());
    assert(macro_error_texts(errors@) =~= Seq::<MacroErrorText>::empty());
    while i < m.ports.len()
        invariant
            i <= m.ports.len(),
            ports == m.ports@,
            macro_error_texts(errors@) == port_errors(*m, ports.take(i as int)),
        decreases m.ports.len() - i,
    {
        let port = &m.ports[i];
        let ghost pre = ports.take(i + 1);
        assert(pre.drop_last() =~= ports.take(i as int));
        assert(pre.last() == *port);
        let ghost before = macro_error_texts(errors@);
        if port_seen_before(&m.ports, i, &port.name) {
            errors.push(
                MacroValidationError::DuplicatePort {
                    macro_name: m.name.clone(),
                    port: port.name.clone(),
                },
            );
        }
        if !net_in_use(&m.circuit.connections, &port.name) {
            errors.push(
                MacroValidationError::MissingPublicPortNet {
                    macro_name: m.name.clone(),
                    port: port.name.clone(),
                },
            );
        }
        assert(macro_error_texts(errors@) =~= before + port_step(*m, pre));
        i = i + 1;
    }
    assert(ports.take(m.ports.len() as int) =~= ports);
    let ghost after_ports = macro_error_texts(errors@);
    let ghost insts = m.circuit.instances@;
    let mut j: usize = 0;
    assert(insts.take(0) =~= Seq::<Instance>::empty());
    while j < m.circuit.instances.len()
        invariant
            j <= m.circuit.instances.len(),
            insts == m.circuit.instances@,
            after_ports == port_errors(*m, m.ports@),
            macro_error_texts(errors@) == after_ports + macro_instance_errors(
                *m,
                insts.take(j as int),
                primitive_catalog@,
                macro_catalog@,
            ),
        decreases m.circuit.instances.len() - j,
    {
        let instance = &m.circuit.instances[j];
        let ghost pre = insts.take(j + 1);
        assert(pre.drop_last() =~= insts.take(j as int));
        assert(pre.last() == *instance);
        let ghost before = macro_error_texts(errors@);
        if id_seen_before(&m.circuit.instances, j, &instance.id) {
            errors.push(
                MacroValidationError::DuplicateInstance {
                    macro_name: m.name.clone(),
                    instance: instance.id.clone(),
                },
            );
        }
        match instance.primitive_name() {
            Some(primitive) => {
                if !primitive_catalog.contains(primitive) {
                    errors.push(
                        MacroValidationError::UnknownPrimitive {
                            macro_name: m.name.clone(),
                            instance: instance.id.clone(),
                            primitive: string_from(primitive),
                        },
                    );
                }
            },
            None => {
                match instance.macro_name() {
                    Some(referenced) => {
                        if !macro_catalog.contains(referenced) {
                            errors.push(
                                MacroValidationError::UnknownMacro {
                                    macro_name: m.name.clone(),
                                    instance: instance.id.clone(),
                                    referenced_macro: string_from(referenced),
                                },
                            );
                        }
                    },
                    None => {},
                }
            },
        }
        assert(macro_error_texts(errors@) =~= before + macro_instance_step(
            *m,
            pre,
            primitive_catalog@,
            macro_catalog@,
        ));
        j = j + 1;
    }
    assert(insts.take(m.circuit.instances.len() as int) =~= insts);
    let ghost after_insts = macro_error_texts(errors@);
    let ghost conns = m.circuit.connections@;
    let mut k: usize = 0;
    assert(conns.take(0) =~= Seq::<Connection>::empty());
    while k < m.circuit.connections.len()
        invariant
            k <= m.circuit.connections.len(),
            conns == m.circuit.connections@,
            after_insts == port_errors(*m, m.ports@) + macro_instance_errors(
                *m,
                m.circuit.instances@,
                primitive_catalog@,
                macro_catalog@,
            ),
            macro_error_texts(errors@) == after_insts + macro_connection_errors(
                *m,
                conns.take(k as int),
                primitive_catalog@,
                macro_catalog@,
            ),
        decreases m.circuit.connections.len() - k,
    {
        let connection = &m.circuit.connections[k];
        assert(conns.take(k + 1).drop_last() =~= conns.take(k as int));
        assert(conns.take(k + 1).last() == *connection);
        let ghost before = macro_error_texts(errors@);
        match instance_by_id(&m.circuit.instances, &connection.from.instance) {
            None => {},
            Some(instance) => {
                match instance.primitive_name() {
                    Some(primitive_name) => {
                        match primitive_catalog.get(primitive_name) {
                            None => {},
                            Some(primitive) => {
                                if !pin_exists(&primitive.pins, &connection.from.pin) {
                                    errors.push(
                                        MacroValidationError::UnknownPin {
                                            macro_name: m.name.clone(),
                                            instance: instance.id.clone(),
                                            block: string_from(primitive_name),
                                            pin: connection.from.pin.clone(),
                                        },
                                    );
                                }
                            },
                        }
                    },
                    None => {
                        match instance.macro_name() {
                            None => {},
                            Some(macro_name) => {
                                match macro_catalog.get(macro_name) {
                                    None => {},
                                    Some(referenced) => {
                                        if !port_exists(&referenced.ports, &connection.from.pin) {
                                            errors.push(
                                                MacroValidationError::UnknownPin {
                                                    macro_name: m.name.clone(),
                                                    instance: instance.id.clone(),
                                                    block: string_from(macro_name),
                                                    pin: connection.from.pin.clone(),
                                                },
                                            );
                                        }
                                    },
                                }
                            },
                        }
                    },
                }
            },
        }
        assert(macro_error_texts(errors@) =~= before + macro_connection_step(
            *m,
            *connection,
            primitive_catalog@,
            macro_catalog@,
        ));
        k = k + 1;
    }
    assert(conns.take(m.circuit.connections.len() as int) =~= conns);
    errors
}

// ---------------------------------------------------------------------------
// Validating a whole catalog
// ---------------------------------------------------------------------------
/// Where a search for dependency cycles stands: the names visited, the
/// errors so far, and the names whose search has finished, in the order it
/// finished.
pub struct CycleSearch {
    pub visited: Seq<Seq<char>>,
    pub errors: Seq<MacroErrorText>,
    pub finished: Seq<Seq<char>>,
}

/// The first index of `x` in `s`.
pub open spec fn first_position(s: Seq<Seq<char>>, x: Seq<char>) -> int
    decreases s.len(),
{
    if s.len() == 0 || s[0] == x {
        0
    } else {
        1 + first_position(s.drop_first(), x)
    }
}

/// The cycle closed by reaching `name` again: the names on the search path
/// from `name` on, then `name`.
pub open spec fn cycle_error(active: Seq<Seq<char>>, name: Seq<char>) -> MacroErrorText {
    MacroErrorText::CyclicDependency { path: active.skip(first_position(active, name)).push(name) }
}

/// The search from macro `name`, reached along the path `active`: a name on
/// the path closes a cycle, reported once; a name seen before is passed
/// over; otherwise the macros its instances use are searched in order.
/// `fuel` bounds how deep the search goes.
pub open spec fn visit_macro(
    cat: Seq<MacroModel>,
    name: Seq<char>,
    active: Seq<Seq<char>>,
    st: CycleSearch,
    fuel: nat,
) -> CycleSearch
    decreases fuel, 0nat,
{
    if active.contains(name) {
        let e = cycle_error(active, name);
        if st.errors.contains(e) {
            st
        } else {
            CycleSearch { visited: st.visited, errors: st.errors.push(e), finished: st.finished }
        }
    } else if st.visited.contains(name) {
        st
    } else {
        let st1 = CycleSearch {
            visited: st.visited.push(name),
            errors: st.errors,
            finished: st.finished,
        };
        match lookup_macro(cat, name) {
            None => st1,
            Some(m) => if fuel == 0 {
                st1
            } else {
                let st2 = visit_instances(
                    cat,
                    m.circuit.instances@,
                    active.push(name),
                    st1,
                    (fuel - 1) as nat,
                );
                CycleSearch {
                    visited: st2.visited,
                    errors: st2.errors,
                    finished: st2.finished.push(name),
                }
            },
        }
    }
}

/// The search from the macros that the instances use, in order.
pub open spec fn visit_instances(
    cat: Seq<MacroModel>,
    insts: Seq<Instance>,
    active: Seq<Seq<char>>,
    st: CycleSearch,
    fuel: nat,
) -> CycleSearch
    decreases fuel, insts.len(),
{
    if insts.len() == 0 {
        st
    } else {
        let st1 = visit_instances(cat, insts.drop_last(), active, st, fuel);
        match macro_of(insts.last()) {
            None => st1,
            Some(r) => visit_macro(cat, r, active, st1, fuel),
        }
    }
}

/// The search from each of `names`, in order, each from an empty path.
pub open spec fn visit_all(cat: Seq<MacroModel>, names: Seq<Seq<char>>, st: CycleSearch, fuel: nat) -> CycleSearch
    decreases names.len(),
{
    if names.len() == 0 {
        st
    } else {
        visit_macro(cat, names.last(), seq![], visit_all(cat, names.drop_last(), st, fuel), fuel)
    }
}

/// The errors of the macros named `names`, in order.
pub open spec fn listed_errors(
    pcat: Seq<PrimitiveManifest>,
    cat: Seq<MacroModel>,
    names: Seq<Seq<char>>,
) -> Seq<MacroErrorText>
    decreases names.len(),
{
    if names.len() == 0 {
        seq![]
    } else {
        listed_errors(pcat, cat, names.drop_last()) + match lookup_macro(cat, names.last()) {
            Some(m) => macro_errors(m, pcat, cat),
            None => seq![],
        }
    }
}

/// The macro names of a catalog in the order of its listing.
pub open spec fn listing_order(cat: Seq<MacroModel>) -> Seq<Seq<char>> {
    macro_names(cat).sort_by(text_order())
}

/// The errors of a catalog: those of each macro in name order, then each
/// dependency cycle found by searching from each macro in name order.
pub open spec fn catalog_errors(pcat: Seq<PrimitiveManifest>, cat: Seq<MacroModel>) -> Seq<MacroErrorText> {
    let names = listing_order(cat);
    let start = CycleSearch { visited: seq![], errors: listed_errors(pcat, cat, names), finished: seq![] };
    visit_all(cat, names, start, cat.len() + 1).errors
}

/// Distinct names of catalog macros are no more than the catalog's macros.
pub proof fn lemma_distinct_names_bound(cat: Seq<MacroModel>, s: Seq<Seq<char>>)
    requires
        s.no_duplicates(),
        forall|i: int| 0 <= i < s.len() ==> lookup_macro(cat, #[trigger] s[i]) is Some,
    ensures
        s.len() <= cat.len(),
{
    let names = macro_names(cat);
    s.unique_seq_to_set();
    assert forall|x: Seq<char>| s.to_set().contains(x) implies names.to_set().contains(x) by {
        let i = choose|i: int| 0 <= i < s.len() && s[i] == x;
        assert(lookup_macro(cat, s[i]) is Some);
        let k = lemma_found_entry(cat, x);
        assert(names[k] == x);
    }
    vstd::seq_lib::seq_to_set_is_finite(names);
    vstd::set_lib::lemma_len_subset(s.to_set(), names.to_set());
    names.lemma_cardinality_of_set();
}

/// The path of the cycle closed by reaching `name` again, if `name` is on
/// the path `active`.
fn cycle_path(active: &Vec<String>, name: &str) -> (r: Option<Vec<String>>)
    ensures
        match r {
            Some(p) => texts(active@).contains(name@) && texts(p@) == texts(active@).skip(
                first_position(texts(active@), name@),
            ).push(name@),
            None => !texts(active@).contains(name@),
        },
{
    let ghost a = texts(active@);
    let mut pos: usize = 0;
    assert(a.skip(0) =~= a);
    while pos < active.len()
        invariant
            pos <= active.len(),
            a == texts(active@),
            forall|q: int| 0 <= q < pos ==> a[q] != name@,
            first_position(a, name@) == pos + first_position(a.skip(pos as int), name@),
        decreases active.len() - pos,
    {
        assert(a.skip(pos as int)[0] == a[pos as int]);
        if str_eq(active[pos].as_str(), name) {
            let mut path: Vec<String> = Vec::new();
            let mut k: usize = pos;
            assert(a.skip(pos as int).skip(0) =~= a.skip(pos as int));
            while k < active.len()
                invariant
                    pos <= k <= active.len(),
                    a == texts(active@),
                    texts(path@) == a.skip(pos as int).take(k - pos),
                decreases active.len() - k,
            {
                let ghost before = texts(path@);
                path.push(active[k].clone());
                assert(texts(path@) =~= before.push(a[k as int]));
                assert(a.skip(pos as int).take(k + 1 - pos) =~= a.skip(pos as int).take(k - pos).push(
                    a[k as int],
                ));
                k = k + 1;
            }
            let ghost before = texts(path@);
            path.push(string_from(name));
            assert(a.skip(pos as int).take(active.len() - pos) =~= a.skip(pos as int));
            assert(texts(path@) =~= before.push(name@));
            assert(a.contains(name@)) by {
                assert(a[pos as int] == name@);
            }
            return Some(path);
        }
        assert(a.skip(pos as int).drop_first() =~= a.skip(pos + 1));
        pos = pos + 1;
    }
    assert forall|q: int| 0 <= q < a.len() implies a[q] != name@ by {}
    None
}

/// Whether the two name lists hold the same texts.
fn same_names(a: &Vec<String>, b: &Vec<String>) -> (r: bool)
    ensures
        r == (texts(a@) == texts(b@)),
{
    if a.len() != b.len() {
        assert(texts(a@).len() != texts(b@).len());
        return false;
    }
    let mut i: usize = 0;
    while i < a.len()
        invariant
            i <= a.len() == b.len(),
            forall|q: int| 0 <= q < i ==> texts(a@)[q] == texts(b@)[q],
        decreases a.len() - i,
    {
        if !str_eq(a[i].as_str(), b[i].as_str()) {
            assert(texts(a@)[i as int] != texts(b@)[i as int]);
            return false;
        }
        i = i + 1;
    }
    assert(texts(a@) =~= texts(b@));
    true
}

/// Whether the cycle with path `path` is among the errors.
fn lists_cycle(errors: &Vec<MacroValidationError>, path: &Vec<String>) -> (r: bool)
    ensures
        r == macro_error_texts(errors@).contains(
            MacroErrorText::CyclicDependency { path: texts(path@) },
        ),
{
    let ghost target = MacroErrorText::CyclicDependency { path: texts(path@) };
    let mut i: usize = 0;
    while i < errors.len()
        invariant
            i <= errors.len(),
            target == (MacroErrorText::CyclicDependency { path: texts(path@) }),
            forall|q: int| 0 <= q < i ==> macro_error_texts(errors@)[q] != target,
        decreases errors.len() - i,
    {
        match &errors[i] {
            MacroValidationError::CyclicDependency { path: p } => {
                if same_names(p, path) {
                    assert(macro_error_texts(errors@)[i as int] == target);
                    return true;
                }
            },
            _ => {},
        }
        i = i + 1;
    }
    assert forall|q: int| 0 <= q < macro_error_texts(errors@).len() implies macro_error_texts(
        errors@,
    )[q] != target by {}
    false
}

/// The search path holds distinct names of catalog macros.
pub open spec fn path_of_catalog_macros(cat: Seq<MacroModel>, active: Seq<Seq<char>>) -> bool {
    &&& active.no_duplicates()
    &&& forall|i: int| 0 <= i < active.len() ==> lookup_macro(cat, #[trigger] active[i]) is Some
}

/// Searches for dependency cycles from macro `macro_name`, reached along
/// the path `active`; each cycle found is reported once.
fn detect_macro_cycles(
    macro_name: &str,
    macro_catalog: &MacroCatalog,
    visited: &mut Vec<String>,
    active: &mut Vec<String>,
    errors: &mut Vec<MacroValidationError>,
    Ghost(fuel): Ghost<nat>,
    Ghost(finished): Ghost<Seq<Seq<char>>>,
) -> (done: Ghost<Seq<Seq<char>>>)
    requires
        path_of_catalog_macros(macro_catalog@, texts(old(active)@)),
        old(active)@.len() + fuel == macro_catalog@.len() + 1,
    ensures
        final(active)@ == old(active)@,
        visit_macro(
            macro_catalog@,
            macro_name@,
            texts(old(active)@),
            CycleSearch {
                visited: texts(old(visited)@),
                errors: macro_error_texts(old(errors)@),
                finished,
            },
            fuel,
        ) == (CycleSearch {
            visited: texts(final(visited)@),
            errors: macro_error_texts(final(errors)@),
            finished: done@,
        }),
    decreases fuel,
{
    let ghost cat = macro_catalog@;
    let ghost a0 = texts(active@);
    match cycle_path(active, macro_name) {
        Some(path) => {
            if !lists_cycle(errors, &path) {
                let ghost before = macro_error_texts(errors@);
                errors.push(MacroValidationError::CyclicDependency { path });
                assert(macro_error_texts(errors@) =~= before.push(cycle_error(a0, macro_name@)));
            }
            return Ghost(finished);
        },
        None => {},
    }
    if contains_name(visited, macro_name) {
        return Ghost(finished);
    }
    let ghost v0 = texts(visited@);
    visited.push(string_from(macro_name));
    assert(texts(visited@) =~= v0.push(macro_name@));
    let macro_model = match macro_catalog.get(macro_name) {
        Some(m) => m,
        None => {
            return Ghost(finished);
        },
    };
    proof {
        let grown = a0.push(macro_name@);
        assert forall|i: int| 0 <= i < grown.len() implies lookup_macro(cat, #[trigger] grown[i])
            is Some by {
            if i < a0.len() {
                assert(grown[i] == a0[i]);
            }
        }
        assert(grown.no_duplicates()) by {
            assert forall|i: int, j: int|
                0 <= i < grown.len() && 0 <= j < grown.len() && i != j implies grown[i]
                != grown[j] by {
                if i == a0.len() && j < a0.len() {
                    assert(grown[j] == a0[j]);
                } else if j == a0.len() && i < a0.len() {
                    assert(grown[i] == a0[i]);
                }
            }
        }
        lemma_distinct_names_bound(cat, grown);
    }
    let ghost g_name = macro_name@;
    let ghost a0v = active@;
    let pushed = string_from(macro_name);
    let ghost pushed_v = pushed;
    active.push(pushed);
    assert(texts(active@) =~= a0.push(g_name));
    let ghost a1 = texts(active@);
    let ghost insts = macro_model.circuit.instances@;
    let ghost mut fin = finished;
    let ghost st1 = CycleSearch { visited: texts(visited@), errors: macro_error_texts(errors@), finished };
    let mut i: usize = 0;
    assert(insts.take(0) =~= Seq::<Instance>::empty());
    while i < macro_model.circuit.instances.len()
        invariant
            i <= macro_model.circuit.instances.len(),
            insts == macro_model.circuit.instances@,
            cat == macro_catalog@,
            a1 == texts(active@),
            a1 == a0.push(g_name),
            active@ == a0v.push(pushed_v),
            a0v == old(active)@,
            path_of_catalog_macros(cat, a1),
            a0.len() + fuel == cat.len() + 1,
            fuel >= 1,
            visit_instances(cat, insts.take(i as int), a1, st1, (fuel - 1) as nat) == (CycleSearch {
                visited: texts(visited@),
                errors: macro_error_texts(errors@),
                finished: fin,
            }),
        decreases macro_model.circuit.instances.len() - i,
    {
        assert(insts.take(i + 1).drop_last() =~= insts.take(i as int));
        assert(insts.take(i + 1).last() == macro_model.circuit.instances@[i as int]);
        match macro_model.circuit.instances[i].macro_name() {
            Some(r) => {
                let ghost before_active = active@;
                let done = detect_macro_cycles(
                    r,
                    macro_catalog,
                    visited,
                    active,
                    errors,
                    Ghost((fuel - 1) as nat),
                    Ghost(fin),
                );
                proof {
                    fin = done@;
                }
            },
            None => {},
        }
        i = i + 1;
    }
    assert(insts.take(macro_model.circuit.instances.len() as int) =~= insts);
    active.pop();
    assert(active@ =~= a0v);
    proof {
        fin = fin.push(g_name);
    }
    Ghost(fin)
}

/// Checks every macro of a catalog and searches its dependencies for
/// cycles: the errors of each macro in name order, then one
/// `CyclicDependency` per cycle found, its path starting and ending at the
/// same macro.
pub fn validate_macro_catalog(
    macro_catalog: &MacroCatalog,
    primitive_catalog: &PrimitiveCatalog,
) -> (r: Vec<MacroValidationError>)
    ensures
        macro_error_texts(r@) == catalog_errors(primitive_catalog@, macro_catalog@),
{
    let ghost cat = macro_catalog@;
    let ghost pcat = primitive_catalog@;
    let ghost names = listing_order(cat);
    proof {
        use_type_invariant(macro_catalog);
        lemma_catalog_names_distinct(macro_catalog);
    }
    let listed = macro_catalog.list();
    let mut errors: Vec<MacroValidationError> = Vec::new();
    let mut i: usize = 0;
    assert(names.take(0) =~= Seq::<Seq<char>>::empty());
    assert(macro_error_texts(errors@) =~= Seq::<MacroErrorText>::empty());
    while i < listed.len()
        invariant
            i <= listed.len() == cat.len(),
            cat == macro_catalog@,
            pcat == primitive_catalog@,
            names == listing_order(cat),
            macro_names_distinct(cat),
            listed@.map_values(|p: &MacroModel| p.name@) == names,
            listed@.map_values(|p: &MacroModel| *p).to_multiset() == cat.to_multiset(),
            macro_error_texts(errors@) == listed_errors(pcat, cat, names.take(i as int)),
        decreases listed.len() - i,
    {
        let m = listed[i];
        proof {
            lemma_listed_entry(cat, listed@.map_values(|p: &MacroModel| *p), i as int);
            assert(listed@.map_values(|p: &MacroModel| *p)[i as int] == *m);
            assert(names[i as int] == m.name@);
            assert(names.take(i + 1).drop_last() =~= names.take(i as int));
        }
        let mut found = validate_macro_model(m, primitive_catalog, macro_catalog);
        let ghost before = errors@;
        let ghost found_v = found@;
        errors.append(&mut found);
        assert(macro_error_texts(errors@) =~= macro_error_texts(before) + macro_error_texts(found_v));
        i = i + 1;
    }
    assert(names.take(listed.len() as int) =~= names);
    let mut visited: Vec<String> = Vec::new();
    let mut active: Vec<String> = Vec::new();
    let ghost mut fin: Seq<Seq<char>> = seq![];
    let ghost start = CycleSearch {
        visited: seq![],
        errors: listed_errors(pcat, cat, names),
        finished: seq![],
    };
    let mut j: usize = 0;
    assert(texts(visited@) =~= Seq::<Seq<char>>::empty());
    assert(names.take(0) =~= Seq::<Seq<char>>::empty());
    while j < listed.len()
        invariant
            j <= listed.len() == cat.len(),
            cat == macro_catalog@,
            pcat == primitive_catalog@,
            names == listing_order(cat),
            listed@.map_values(|p: &MacroModel| p.name@) == names,
            active@.len() == 0,
            visit_all(cat, names.take(j as int), start, cat.len() + 1) == (CycleSearch {
                visited: texts(visited@),
                errors: macro_error_texts(errors@),
                finished: fin,
            }),
        decreases listed.len() - j,
    {
        assert(names.take(j + 1).drop_last() =~= names.take(j as int));
        assert(names[j as int] == listed[j as int].name@);
        assert(texts(active@) =~= Seq::<Seq<char>>::empty());
        let done = detect_macro_cycles(
            listed[j].name.as_str(),
            macro_catalog,
            &mut visited,
            &mut active,
            &mut errors,
            Ghost((cat.len() + 1) as nat),
            Ghost(fin),
        );
        proof {
            fin = done@;
        }
        j = j + 1;
    }
    assert(names.take(listed.len() as int) =~= names);
    errors
}

} // verus!
