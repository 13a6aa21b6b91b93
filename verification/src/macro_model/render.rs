use vstd::prelude::*;
use crate::catalog::primitive_catalog::{lookup_primitive, PrimitiveCatalog};
use crate::circuit::instance::{macro_of, primitive_of};
use crate::circuit::Instance;
use crate::macro_model::catalog::{
    expands_into, index_of_macro, lemma_found_entry, lemma_index_of_macro, lookup_macro, no_cycle_below,
    macro_names_distinct, ranks_below_size, ranks_from, uses_macro, MacroCatalog,
};
use crate::macro_model::model::{MacroModel, MacroPort};
use crate::macro_model::validation::{
    macro_error_texts, macro_errors, validate_macro_model, MacroErrorText, MacroValidationError,
};
use crate::netlist::small_signal::{connected_net, connected_net_spec};
use crate::primitive::manifest::{Pin, PrimitiveManifest};
use crate::text::{join, join_strings, push_str, str_eq, string_from, texts};

verus! {

/// Why a macro could not be rendered.
#[derive(Debug, Clone, PartialEq, Eq)]
pub enum MacroRenderError {
    InvalidMacro(Vec<MacroValidationError>),
    MissingPrimitive { primitive: String },
    MissingConnectedPin { macro_name: String, instance: String, pin: String },
    MissingMacro { macro_name: String },
    MissingSmallSignalModel { primitive: String },
    MissingCompactSmallSignalModel { macro_name: String },
    MissingTestbenchDut { testbench: String },
    UnsupportedCircuitDut { testbench: String, circuit: String },
}

/// A macro rendering error, by its text.
pub enum MacroRenderErrorText {
    InvalidMacro(Seq<MacroErrorText>),
    MissingPrimitive { primitive: Seq<char> },
    MissingConnectedPin { macro_name: Seq<char>, instance: Seq<char>, pin: Seq<char> },
    MissingMacro { macro_name: Seq<char> },
    MissingSmallSignalModel { primitive: Seq<char> },
    MissingCompactSmallSignalModel { macro_name: Seq<char> },
    MissingTestbenchDut { testbench: Seq<char> },
    UnsupportedCircuitDut { testbench: Seq<char>, circuit: Seq<char> },
}

impl View for MacroRenderError {
    type V = MacroRenderErrorText;

    open spec fn view(&self) -> MacroRenderErrorText {
        match self {
            MacroRenderError::InvalidMacro(v) => MacroRenderErrorText::InvalidMacro(
                macro_error_texts(v@),
            ),
            MacroRenderError::MissingPrimitive { primitive } =>
                MacroRenderErrorText::MissingPrimitive { primitive: primitive@ },
            MacroRenderError::MissingConnectedPin { macro_name, instance, pin } =>
                MacroRenderErrorText::MissingConnectedPin {
                macro_name: macro_name@,
                instance: instance@,
                pin: pin@,
            },
            MacroRenderError::MissingMacro { macro_name } => MacroRenderErrorText::MissingMacro {
                macro_name: macro_name@,
            },
            MacroRenderError::MissingSmallSignalModel { primitive } =>
                MacroRenderErrorText::MissingSmallSignalModel { primitive: primitive@ },
            MacroRenderError::MissingCompactSmallSignalModel { macro_name } =>
                MacroRenderErrorText::MissingCompactSmallSignalModel { macro_name: macro_name@ },
            MacroRenderError::MissingTestbenchDut { testbench } =>
                MacroRenderErrorText::MissingTestbenchDut { testbench: testbench@ },
            MacroRenderError::UnsupportedCircuitDut { testbench, circuit } =>
                MacroRenderErrorText::UnsupportedCircuitDut {
                testbench: testbench@,
                circuit: circuit@,
            },
        }
    }
}

/// How nested macros are rendered in a small-signal netlist: expanded to
/// their primitives, by their compact model, or compact where a model exists.
#[derive(Debug, Clone, Copy, PartialEq, Eq)]
pub enum MacroSmallSignalMode {
    Expand,
    Compact,
    CompactWhenAvailable,
}

/// A rendering result, by its text.
pub open spec fn render_result(r: Result<String, MacroRenderError>) -> Result<
    Seq<char>,
    MacroRenderErrorText,
> {
    match r {
        Ok(s) => Ok(s@),
        Err(e) => Err(e@),
    }
}

/// The names of the pins, in order.
pub open spec fn pin_names(pins: Seq<Pin>) -> Seq<Seq<char>> {
    pins.map_values(|p: Pin| p.name@)
}

/// The names of the ports, in order.
pub open spec fn port_names(ports: Seq<MacroPort>) -> Seq<Seq<char>> {
    ports.map_values(|p: MacroPort| p.name@)
}

/// The nets that macro `m` ties to the pins `pins` of its instance `id`, in
/// order, or the first pin that no connection ties to a net.
pub open spec fn instance_nets(m: MacroModel, id: Seq<char>, pins: Seq<Seq<char>>) -> Result<
    Seq<Seq<char>>,
    MacroRenderErrorText,
>
    decreases pins.len(),
{
    if pins.len() == 0 {
        Ok(seq![])
    } else {
        match instance_nets(m, id, pins.drop_last()) {
            Err(e) => Err(e),
            Ok(prev) => match connected_net_spec(m.circuit.connections@, id, pins.last()) {
                None => Err(
                    MacroRenderErrorText::MissingConnectedPin {
                        macro_name: m.name@,
                        instance: id,
                        pin: pins.last(),
                    },
                ),
                Some(n) => Ok(prev.push(n)),
            },
        }
    }
}

/// A subcircuit call: `X<id> <nets> <subcircuit>`.
pub open spec fn call_line(id: Seq<char>, nets: Seq<Seq<char>>, subckt: Seq<char>) -> Seq<char> {
    seq!['X'] + id + seq![' '] + join(nets, seq![' ']) + seq![' '] + subckt
}

/// The subcircuit call of one instance of macro `m`: a primitive instance
/// calls the primitive's subcircuit on the nets of its pins, a macro
/// instance the nested macro's subcircuit on the nets of its ports.
pub open spec fn macro_instance_line(
    m: MacroModel,
    pcat: Seq<PrimitiveManifest>,
    mcat: Seq<MacroModel>,
    inst: Instance,
) -> Result<Option<Seq<char>>, MacroRenderErrorText> {
    match primitive_of(inst) {
        Some(p) => match lookup_primitive(pcat, p) {
            None => Err(MacroRenderErrorText::MissingPrimitive { primitive: p }),
            Some(prim) => match instance_nets(m, inst.id@, pin_names(prim.pins@)) {
                Err(e) => Err(e),
                Ok(nets) => Ok(Some(call_line(inst.id@, nets, prim.subckt_name@))),
            },
        },
        None => match macro_of(inst) {
            Some(r) => match lookup_macro(mcat, r) {
                None => Err(MacroRenderErrorText::MissingMacro { macro_name: r }),
                Some(nm) => match instance_nets(m, inst.id@, port_names(nm.ports@)) {
                    Err(e) => Err(e),
                    Ok(nets) => Ok(Some(call_line(inst.id@, nets, nm.subckt_name@))),
                },
            },
            None => Ok(None),
        },
    }
}

/// The subcircuit calls of the instances, in order, or the first error.
pub open spec fn macro_instance_lines(
    m: MacroModel,
    pcat: Seq<PrimitiveManifest>,
    mcat: Seq<MacroModel>,
    insts: Seq<Instance>,
) -> Result<Seq<Seq<char>>, MacroRenderErrorText>
    decreases insts.len(),
{
    if insts.len() == 0 {
        Ok(seq![])
    } else {
        match macro_instance_lines(m, pcat, mcat, insts.drop_last()) {
            Err(e) => Err(e),
            Ok(prev) => match macro_instance_line(m, pcat, mcat, insts.last()) {
                Err(e) => Err(e),
                Ok(None) => Ok(prev),
                Ok(Some(l)) => Ok(prev.push(l)),
            },
        }
    }
}

/// The subcircuit of a valid macro: `.subckt <name> <ports>`, one call per
/// instance, `.ends <name>`, each line ended by a newline.
pub open spec fn macro_subckt(m: MacroModel, pcat: Seq<PrimitiveManifest>, mcat: Seq<MacroModel>) -> Result<
    Seq<char>,
    MacroRenderErrorText,
> {
    let errs = macro_errors(m, pcat, mcat);
    if errs.len() > 0 {
        Err(MacroRenderErrorText::InvalidMacro(errs))
    } else {
        match macro_instance_lines(m, pcat, mcat, m.circuit.instances@) {
            Err(e) => Err(e),
            Ok(ls) => Ok(
                join(
                    seq![".subckt "@ + m.subckt_name@ + seq![' '] + join(port_names(m.ports@), seq![' '])]
                        + ls + seq![".ends "@ + m.subckt_name@],
                    seq!['\n'],
                ) + seq!['\n'],
            ),
        }
    }
}

/// The names of the pins.
fn pin_name_list(pins: &Vec<Pin>) -> (r: Vec<String>)
    ensures
        texts(r@) == pin_names(pins@),
{
    let mut out: Vec<String> = Vec::new();
    let mut i: usize = 0;
    while i < pins.len()
        invariant
            i <= pins.len(),
            texts(out@) == pin_names(pins@).take(i as int),
        decreases pins.len() - i,
    {
        let ghost before = texts(out@);
        out.push(pins[i].name.clone());
        assert(texts(out@) =~= before.push(pins@[i as int].name@));
        assert(pin_names(pins@).take(i + 1) =~= pin_names(pins@).take(i as int).push(
            pins@[i as int].name@,
        ));
        i = i + 1;
    }
    assert(pin_names(pins@).take(pins.len() as int) =~= pin_names(pins@));
    out
}

/// The names of the ports.
pub(crate) fn port_name_list(ports: &Vec<MacroPort>) -> (r: Vec<String>)
    ensures
        texts(r@) == port_names(ports@),
{
    let mut out: Vec<String> = Vec::new();
    let mut i: usize = 0;
    while i < ports.len()
        invariant
            i <= ports.len(),
            texts(out@) == port_names(ports@).take(i as int),
        decreases ports.len() - i,
    {
        let ghost before = texts(out@);
        out.push(ports[i].name.clone());
        assert(texts(out@) =~= before.push(ports@[i as int].name@));
        assert(port_names(ports@).take(i + 1) =~= port_names(ports@).take(i as int).push(
            ports@[i as int].name@,
        ));
        i = i + 1;
    }
    assert(port_names(ports@).take(ports.len() as int) =~= port_names(ports@));
    out
}

proof fn lemma_nets_err_stays(m: MacroModel, id: Seq<char>, pins: Seq<Seq<char>>, k: int)
    requires
        0 <= k <= pins.len(),
        instance_nets(m, id, pins.take(k)) is Err,
    ensures
        instance_nets(m, id, pins) == instance_nets(m, id, pins.take(k)),
    decreases pins.len() - k,
{
    if k < pins.len() {
        assert(pins.take(k + 1).drop_last() =~= pins.take(k));
        lemma_nets_err_stays(m, id, pins, k + 1);
    } else {
        assert(pins.take(k) =~= pins);
    }
}

/// The net that macro `m` ties to pin `pin` of its instance `id`.
pub(crate) fn macro_pin_net(m: &MacroModel, id: &str, pin: &str) -> (r: Result<
    String,
    MacroRenderError,
>)
    ensures
        match r {
            Ok(n) => connected_net_spec(m.circuit.connections@, id@, pin@) == Some(n@),
            Err(e) => connected_net_spec(m.circuit.connections@, id@, pin@) is None && e@
                == (MacroRenderErrorText::MissingConnectedPin {
                macro_name: m.name@,
                instance: id@,
                pin: pin@,
            }),
        },
{
    match connected_net(&m.circuit, id, pin) {
        Some(n) => Ok(string_from(n)),
        None => Err(
            MacroRenderError::MissingConnectedPin {
                macro_name: m.name.clone(),
                instance: string_from(id),
                pin: string_from(pin),
            },
        ),
    }
}

/// The nets on `pins` of instance `id` of `m`.
fn instance_net_list(m: &MacroModel, id: &String, pins: &Vec<String>) -> (r: Result<
    Vec<String>,
    MacroRenderError,
>)
    ensures
        match r {
            Ok(v) => instance_nets(*m, id@, texts(pins@)) == Ok::<
                Seq<Seq<char>>,
                MacroRenderErrorText,
            >(texts(v@)),
            Err(e) => instance_nets(*m, id@, texts(pins@)) == Err::<
                Seq<Seq<char>>,
                MacroRenderErrorText,
            >(e@),
        },
{
    let ghost names = texts(pins@);
    let mut nets: Vec<String> = Vec::new();
    let mut i: usize = 0;
    assert(names.take(0) =~= Seq::<Seq<char>>::empty());
    assert(texts(nets@) =~= Seq::<Seq<char>>::empty());
    while i < pins.len()
        invariant
            i <= pins.len(),
            nets.len() == i,
            names == texts(pins@),
            instance_nets(*m, id@, names.take(i as int)) == Ok::<
                Seq<Seq<char>>,
                MacroRenderErrorText,
            >(texts(nets@)),
        decreases pins.len() - i,
    {
        assert(names.take(i + 1).drop_last() =~= names.take(i as int));
        assert(names.take(i + 1).last() == pins@[i as int]@);
        match macro_pin_net(m, id.as_str(), pins[i].as_str()) {
            Ok(n) => {
                let ghost before = texts(nets@);
                let ghost nv = n@;
                nets.push(n);
                assert(texts(nets@) =~= before.push(nv));
            },
            Err(e) => {
                proof {
                    lemma_nets_err_stays(*m, id@, names, i + 1);
                }
                return Err(e);
            },
        }
        i = i + 1;
    }
    assert(names.take(pins.len() as int) =~= names);
    Ok(nets)
}

/// `X<id> <nets> <subcircuit>`.
fn call_line_exec(id: &String, nets: &Vec<String>, subckt: &String) -> (r: String)
    ensures
        r@ == call_line(id@, texts(nets@), subckt@),
{
    let mut line = String::new();
    line.push('X');
    push_str(&mut line, id.as_str());
    line.push(' ');
    let joined = join_strings(nets, " ");
    push_str(&mut line, joined.as_str());
    line.push(' ');
    push_str(&mut line, subckt.as_str());
    proof {
        reveal_strlit(" ");
        assert(" "@ =~= seq![' ']);
    }
    assert(line@ =~= seq!['X'] + id@ + seq![' '] + join(texts(nets@), seq![' ']) + seq![' ']
        + subckt@);
    line
}

fn macro_instance_line_exec(
    m: &MacroModel,
    pcat: &PrimitiveCatalog,
    mcat: &MacroCatalog,
    inst: &Instance,
) -> (r: Result<Option<String>, MacroRenderError>)
    ensures
        match r {
            Ok(Some(l)) => macro_instance_line(*m, pcat@, mcat@, *inst) == Ok::<
                Option<Seq<char>>,
                MacroRenderErrorText,
            >(Some(l@)),
            Ok(None) => macro_instance_line(*m, pcat@, mcat@, *inst) == Ok::<
                Option<Seq<char>>,
                MacroRenderErrorText,
            >(None),
            Err(e) => macro_instance_line(*m, pcat@, mcat@, *inst) == Err::<
                Option<Seq<char>>,
                MacroRenderErrorText,
            >(e@),
        },
{
    match inst.primitive_name() {
        Some(p) => {
            let prim = match pcat.get(p) {
                Some(prim) => prim,
                None => {
                    return Err(MacroRenderError::MissingPrimitive { primitive: string_from(p) });
                },
            };
            let pins = pin_name_list(&prim.pins);
            match instance_net_list(m, &inst.id, &pins) {
                Ok(nets) => Ok(Some(call_line_exec(&inst.id, &nets, &prim.subckt_name))),
                Err(e) => Err(e),
            }
        },
        None => match inst.macro_name() {
            Some(r) => {
                let nm = match mcat.get(r) {
                    Some(nm) => nm,
                    None => {
                        return Err(MacroRenderError::MissingMacro { macro_name: string_from(r) });
                    },
                };
                let ports = port_name_list(&nm.ports);
                match instance_net_list(m, &inst.id, &ports) {
                    Ok(nets) => Ok(Some(call_line_exec(&inst.id, &nets, &nm.subckt_name))),
                    Err(e) => Err(e),
                }
            },
            None => Ok(None),
        },
    }
}

proof fn lemma_lines_err_stays(
    m: MacroModel,
    pcat: Seq<PrimitiveManifest>,
    mcat: Seq<MacroModel>,
    insts: Seq<Instance>,
    k: int,
)
    requires
        0 <= k <= insts.len(),
        macro_instance_lines(m, pcat, mcat, insts.take(k)) is Err,
    ensures
        macro_instance_lines(m, pcat, mcat, insts) == macro_instance_lines(m, pcat, mcat, insts.take(k)),
    decreases insts.len() - k,
{
    if k < insts.len() {
        assert(insts.take(k + 1).drop_last() =~= insts.take(k));
        lemma_lines_err_stays(m, pcat, mcat, insts, k + 1);
    } else {
        assert(insts.take(k) =~= insts);
    }
}

/// Renders a valid macro as a SPICE subcircuit: its ports in order on the
/// `.subckt` line, then a call `X<id>` per instance on the nets of the
/// block's pins (a primitive's pins, a nested macro's ports), in the block's
/// order.
pub fn render_macro_subckt(
    macro_model: &MacroModel,
    primitive_catalog: &PrimitiveCatalog,
    macro_catalog: &MacroCatalog,
) -> (r: Result<String, MacroRenderError>)
    ensures
        render_result(r) == macro_subckt(*macro_model, primitive_catalog@, macro_catalog@),
{
    let m = macro_model;
    let validation = validate_macro_model(m, primitive_catalog, macro_catalog);
    if validation.len() > 0 {
        return Err(MacroRenderError::InvalidMacro(validation));
    }
    proof {
        assert(macro_errors(*m, primitive_catalog@, macro_catalog@).len() == 0);
    }
    let mut lines: Vec<String> = Vec::new();
    let ports = port_name_list(&m.ports);
    let mut header = String::new();
    push_str(&mut header, ".subckt ");
    push_str(&mut header, m.subckt_name.as_str());
    header.push(' ');
    let joined = join_strings(&ports, " ");
    push_str(&mut header, joined.as_str());
    proof {
        reveal_strlit(" ");
        assert(" "@ =~= seq![' ']);
    }
    let ghost head = ".subckt "@ + m.subckt_name@ + seq![' '] + join(port_names(m.ports@), seq![' ']);
    assert(header@ =~= head);
    lines.push(header);
    let ghost first = texts(lines@);
    assert(first =~= seq![head]);
    let ghost insts = m.circuit.instances@;
    let mut i: usize = 0;
    assert(insts.take(0) =~= Seq::<Instance>::empty());
    assert(texts(lines@).skip(1) =~= Seq::<Seq<char>>::empty());
    assert(texts(lines@).take(1) =~= first);
    while i < m.circuit.instances.len()
        invariant
            i <= m.circuit.instances.len(),
            insts == m.circuit.instances@,
            *m == *macro_model,
            macro_errors(*m, primitive_catalog@, macro_catalog@).len() == 0,
            texts(lines@).len() >= 1,
            texts(lines@).take(1) == first,
            macro_instance_lines(*m, primitive_catalog@, macro_catalog@, insts.take(i as int))
                == Ok::<Seq<Seq<char>>, MacroRenderErrorText>(texts(lines@).skip(1)),
        decreases m.circuit.instances.len() - i,
    {
        assert(insts.take(i + 1).drop_last() =~= insts.take(i as int));
        assert(insts.take(i + 1).last() == m.circuit.instances@[i as int]);
        match macro_instance_line_exec(m, primitive_catalog, macro_catalog, &m.circuit.instances[i]) {
            Ok(Some(l)) => {
                let ghost before = texts(lines@);
                lines.push(l);
                assert(texts(lines@) =~= before.push(lines@[lines.len() - 1]@));
                assert(texts(lines@).skip(1) =~= before.skip(1).push(lines@[lines.len() - 1]@));
                assert(texts(lines@).take(1) =~= before.take(1));
            },
            Ok(None) => {},
            Err(e) => {
                proof {
                    lemma_lines_err_stays(*m, primitive_catalog@, macro_catalog@, insts, i + 1);
                    assert(insts.take(insts.len() as int) =~= insts);
                    assert(macro_instance_lines(*m, primitive_catalog@, macro_catalog@, insts)
                        == Err::<Seq<Seq<char>>, MacroRenderErrorText>(e@));
                    assert(macro_subckt(*m, primitive_catalog@, macro_catalog@)
                        == Err::<Seq<char>, MacroRenderErrorText>(e@));
                }
                return Err(e);
            },
        }
        i = i + 1;
    }
    assert(insts.take(m.circuit.instances.len() as int) =~= insts);
    let ghost body = texts(lines@).skip(1);
    let mut footer = String::new();
    push_str(&mut footer, ".ends ");
    push_str(&mut footer, m.subckt_name.as_str());
    let ghost before = texts(lines@);
    lines.push(footer);
    assert(texts(lines@) =~= before.push(".ends "@ + m.subckt_name@));
    let mut out = join_strings(&lines, "\n");
    out.push('\n');
    proof {
        reveal_strlit("\n");
        assert("\n"@ =~= seq!['\n']);
        assert(before =~= first + body);
        assert(texts(lines@) =~= seq![head] + body + seq![".ends "@ + m.subckt_name@]);
        assert(out@ == join(texts(lines@), seq!['\n']) + seq!['\n']);
        assert(macro_instance_lines(*m, primitive_catalog@, macro_catalog@, insts) == Ok::<
            Seq<Seq<char>>,
            MacroRenderErrorText,
        >(body));
        assert(macro_subckt(*m, primitive_catalog@, macro_catalog@) == Ok::<
            Seq<char>,
            MacroRenderErrorText,
        >(out@));
    }
    Ok(out)
}

// ---------------------------------------------------------------------------
// A macro with the subcircuits of the macros it uses
// ---------------------------------------------------------------------------
/// One instance of the dependency walk. A macro instance whose macro was not
/// emitted yet has that macro's own dependencies emitted first, then its
/// subcircuit; `emitted` holds the names emitted so far and `rendered` their
/// subcircuits. `fuel` bounds how deep nested macros are followed.
pub open spec fn dependency_step(
    pcat: Seq<PrimitiveManifest>,
    mcat: Seq<MacroModel>,
    inst: Instance,
    emitted: Seq<Seq<char>>,
    rendered: Seq<Seq<char>>,
    fuel: nat,
) -> Result<(Seq<Seq<char>>, Seq<Seq<char>>), MacroRenderErrorText>
    decreases fuel, 0nat,
{
    match macro_of(inst) {
        None => Ok((emitted, rendered)),
        Some(r) => if emitted.contains(r) {
            Ok((emitted, rendered))
        } else {
            match lookup_macro(mcat, r) {
                None => Err(MacroRenderErrorText::MissingMacro { macro_name: r }),
                Some(nm) => if fuel == 0 {
                    Ok((emitted, rendered))
                } else {
                    match dependency_walk(
                        pcat,
                        mcat,
                        nm.circuit.instances@,
                        emitted,
                        rendered,
                        (fuel - 1) as nat,
                    ) {
                        Err(e) => Err(e),
                        Ok((emitted2, rendered2)) => match macro_subckt(nm, pcat, mcat) {
                            Err(e) => Err(e),
                            Ok(text) => Ok((emitted2.push(r), rendered2.push(text))),
                        },
                    }
                },
            }
        },
    }
}

/// The dependency walk over instances, in order.
pub open spec fn dependency_walk(
    pcat: Seq<PrimitiveManifest>,
    mcat: Seq<MacroModel>,
    insts: Seq<Instance>,
    emitted: Seq<Seq<char>>,
    rendered: Seq<Seq<char>>,
    fuel: nat,
) -> Result<(Seq<Seq<char>>, Seq<Seq<char>>), MacroRenderErrorText>
    decreases fuel, insts.len(),
{
    if insts.len() == 0 {
        Ok((emitted, rendered))
    } else {
        match dependency_walk(pcat, mcat, insts.drop_last(), emitted, rendered, fuel) {
            Err(e) => Err(e),
            Ok((emitted1, rendered1)) => dependency_step(
                pcat,
                mcat,
                insts.last(),
                emitted1,
                rendered1,
                fuel,
            ),
        }
    }
}

/// The netlist of a macro: the subcircuit of every macro it uses, directly
/// or through others, each once and after the macros it uses, then its own
/// subcircuit, separated by newlines. Nesting is followed at most as deep as
/// the catalog is large, which suffices when no cycle is reached.
pub open spec fn macro_netlist(m: MacroModel, pcat: Seq<PrimitiveManifest>, mcat: Seq<MacroModel>) -> Result<
    Seq<char>,
    MacroRenderErrorText,
> {
    match dependency_walk(pcat, mcat, m.circuit.instances@, seq![], seq![], mcat.len()) {
        Err(e) => Err(e),
        Ok((_, rendered)) => match macro_subckt(m, pcat, mcat) {
            Err(e) => Err(e),
            Ok(s) => Ok(join(rendered.push(s), seq!['\n'])),
        },
    }
}

/// Whether `name` is among `names`.
pub(crate) fn contains_name(names: &Vec<String>, name: &str) -> (r: bool)
    ensures
        r == texts(names@).contains(name@),
{
    let mut i: usize = 0;
    while i < names.len()
        invariant
            i <= names.len(),
            forall|k: int| 0 <= k < i ==> texts(names@)[k] != name@,
        decreases names.len() - i,
    {
        if str_eq(names[i].as_str(), name) {
            assert(texts(names@)[i as int] == name@);
            return true;
        }
        i = i + 1;
    }
    false
}

proof fn lemma_walk_err_stays(
    pcat: Seq<PrimitiveManifest>,
    mcat: Seq<MacroModel>,
    insts: Seq<Instance>,
    emitted: Seq<Seq<char>>,
    rendered: Seq<Seq<char>>,
    fuel: nat,
    k: int,
)
    requires
        0 <= k <= insts.len(),
        dependency_walk(pcat, mcat, insts.take(k), emitted, rendered, fuel) is Err,
    ensures
        dependency_walk(pcat, mcat, insts, emitted, rendered, fuel) == dependency_walk(
            pcat,
            mcat,
            insts.take(k),
            emitted,
            rendered,
            fuel,
        ),
    decreases insts.len() - k,
{
    if k < insts.len() {
        assert(insts.take(k + 1).drop_last() =~= insts.take(k));
        lemma_walk_err_stays(pcat, mcat, insts, emitted, rendered, fuel, k + 1);
    } else {
        assert(insts.take(k) =~= insts);
    }
}

/// Emits, before the caller's own subcircuit, the subcircuit of each macro
/// that `macro_model` uses and that was not emitted yet, each after the
/// macros it uses itself.
fn render_macro_dependencies(
    macro_model: &MacroModel,
    primitive_catalog: &PrimitiveCatalog,
    macro_catalog: &MacroCatalog,
    emitted: &mut Vec<String>,
    rendered: &mut Vec<String>,
    Ghost(fuel): Ghost<nat>,
    Ghost(rank): Ghost<spec_fn(Seq<char>) -> nat>,
) -> (r: Result<(), MacroRenderError>)
    requires
        ranks_below_size(macro_catalog@, rank, false),
        fuel <= macro_catalog@.len(),
        forall|c: Seq<char>| #[trigger] expands_into(macro_catalog@, *macro_model, c, false) ==> rank(c) < fuel,
    ensures
        match r {
            Ok(()) => dependency_walk(
                primitive_catalog@,
                macro_catalog@,
                macro_model.circuit.instances@,
                texts(old(emitted)@),
                texts(old(rendered)@),
                fuel,
            ) == Ok::<(Seq<Seq<char>>, Seq<Seq<char>>), MacroRenderErrorText>(
                (texts(final(emitted)@), texts(final(rendered)@)),
            ),
            Err(e) => dependency_walk(
                primitive_catalog@,
                macro_catalog@,
                macro_model.circuit.instances@,
                texts(old(emitted)@),
                texts(old(rendered)@),
                fuel,
            ) == Err::<(Seq<Seq<char>>, Seq<Seq<char>>), MacroRenderErrorText>(e@),
        },
    decreases fuel,
{
    let ghost pcat = primitive_catalog@;
    let ghost mcat = macro_catalog@;
    let ghost e0 = texts(emitted@);
    let ghost r0 = texts(rendered@);
    let ghost insts = macro_model.circuit.instances@;
    let mut i: usize = 0;
    assert(insts.take(0) =~= Seq::<Instance>::empty());
    while i < macro_model.circuit.instances.len()
        invariant
            i <= macro_model.circuit.instances.len(),
            insts == macro_model.circuit.instances@,
            pcat == primitive_catalog@,
            mcat == macro_catalog@,
            e0 == texts(old(emitted)@),
            r0 == texts(old(rendered)@),
            ranks_below_size(mcat, rank, false),
            fuel <= mcat.len(),
            forall|c: Seq<char>| #[trigger] expands_into(mcat, *macro_model, c, false) ==> rank(c) < fuel,
            dependency_walk(pcat, mcat, insts.take(i as int), e0, r0, fuel) == Ok::<
                (Seq<Seq<char>>, Seq<Seq<char>>),
                MacroRenderErrorText,
            >((texts(emitted@), texts(rendered@))),
        decreases macro_model.circuit.instances.len() - i,
    {
        let inst = &macro_model.circuit.instances[i];
        assert(insts.take(i + 1).drop_last() =~= insts.take(i as int));
        assert(insts.take(i + 1).last() == *inst);
        match inst.macro_name() {
            None => {},
            Some(r) => {
                if !contains_name(emitted, r) {
                    let nm = match macro_catalog.get(r) {
                        Some(nm) => nm,
                        None => {
                            proof {
                                assert(macro_of(*inst) == Some(r@));
                                assert(dependency_step(pcat, mcat, *inst, texts(emitted@), texts(rendered@), fuel)
                                    is Err);
                                assert(dependency_walk(pcat, mcat, insts.take(i + 1), e0, r0, fuel) is Err);
                                lemma_walk_err_stays(pcat, mcat, insts, e0, r0, fuel, i + 1);
                            }
                            return Err(MacroRenderError::MissingMacro { macro_name: string_from(r) });
                        },
                    };
                    proof {
                        assert(expands_into(mcat, *macro_model, r@, false));
                        let k = lemma_found_entry(mcat, r@);
                        assert forall|c: Seq<char>| #[trigger]
                            expands_into(mcat, *nm, c, false) implies rank(c) < fuel - 1 by {
                            assert(expands_into(mcat, mcat[k], c, false));
                        }
                    }
                    let ghost em1 = texts(emitted@);
                    let ghost re1 = texts(rendered@);
                    match render_macro_dependencies(
                        nm,
                        primitive_catalog,
                        macro_catalog,
                        emitted,
                        rendered,
                        Ghost((fuel - 1) as nat),
                        Ghost(rank),
                    ) {
                        Ok(()) => {},
                        Err(e) => {
                            proof {
                                lemma_walk_err_stays(pcat, mcat, insts, e0, r0, fuel, i + 1);
                            }
                            return Err(e);
                        },
                    }
                    let text = match render_macro_subckt(nm, primitive_catalog, macro_catalog) {
                        Ok(t) => t,
                        Err(e) => {
                            proof {
                                lemma_walk_err_stays(pcat, mcat, insts, e0, r0, fuel, i + 1);
                            }
                            return Err(e);
                        },
                    };
                    let ghost em2 = texts(emitted@);
                    let ghost re2 = texts(rendered@);
                    let ghost tv = text@;
                    rendered.push(text);
                    emitted.push(string_from(r));
                    assert(texts(rendered@) =~= re2.push(tv));
                    assert(texts(emitted@) =~= em2.push(r@));
                }
            },
        }
        i = i + 1;
    }
    assert(insts.take(macro_model.circuit.instances.len() as int) =~= insts);
    Ok(())
}

/// Renders a macro with the subcircuits of every macro it uses, directly or
/// through others: each used macro once, after the macros it uses itself,
/// then the macro's own subcircuit. Requires that no macro reached from it
/// uses itself (rendering would not end otherwise).
pub fn render_macro_netlist(
    macro_model: &MacroModel,
    primitive_catalog: &PrimitiveCatalog,
    macro_catalog: &MacroCatalog,
) -> (r: Result<String, MacroRenderError>)
    requires
        no_cycle_below(macro_catalog@, *macro_model, false),
    ensures
        render_result(r) == macro_netlist(*macro_model, primitive_catalog@, macro_catalog@),
{
    let ghost rank = choose|rank: spec_fn(Seq<char>) -> nat| #[trigger] ranks_from(
        macro_catalog@,
        *macro_model,
        rank,
        false,
    );
    let mut emitted: Vec<String> = Vec::new();
    let mut rendered: Vec<String> = Vec::new();
    assert(texts(emitted@) =~= Seq::<Seq<char>>::empty());
    assert(texts(rendered@) =~= Seq::<Seq<char>>::empty());
    match render_macro_dependencies(
        macro_model,
        primitive_catalog,
        macro_catalog,
        &mut emitted,
        &mut rendered,
        Ghost(macro_catalog@.len()),
        Ghost(rank),
    ) {
        Ok(()) => {},
        Err(e) => {
            return Err(e);
        },
    }
    let own = match render_macro_subckt(macro_model, primitive_catalog, macro_catalog) {
        Ok(s) => s,
        Err(e) => {
            return Err(e);
        },
    };
    let ghost before = texts(rendered@);
    let ghost ov = own@;
    rendered.push(own);
    assert(texts(rendered@) =~= before.push(ov));
    let out = join_strings(&rendered, "\n");
    proof {
        reveal_strlit("\n");
        assert("\n"@ =~= seq!['\n']);
    }
    Ok(out)
}

// ---------------------------------------------------------------------------
// Dependencies come before their users
// ---------------------------------------------------------------------------
/// What the dependency walk keeps: each emitted name is a catalog macro,
/// named once, with its subcircuit at the same place, and every catalog
/// macro it uses emitted before it.
pub open spec fn emitted_in_order(
    pcat: Seq<PrimitiveManifest>,
    mcat: Seq<MacroModel>,
    emitted: Seq<Seq<char>>,
    rendered: Seq<Seq<char>>,
) -> bool {
    &&& emitted.no_duplicates()
    &&& rendered.len() == emitted.len()
    &&& forall|k: int|
        0 <= k < emitted.len() ==> (lookup_macro(mcat, #[trigger] emitted[k]) matches Some(m)
            && macro_subckt(m, pcat, mcat) == Ok::<Seq<char>, MacroRenderErrorText>(rendered[k]))
    &&& forall|k: int, c: Seq<char>|
        0 <= k < emitted.len() && #[trigger] uses_macro(
            mcat,
            lookup_macro(mcat, emitted[k])->Some_0,
            c,
        ) ==> exists|k2: int| 0 <= k2 < k && #[trigger] emitted[k2] == c
}

proof fn lemma_step_in_order(
    pcat: Seq<PrimitiveManifest>,
    mcat: Seq<MacroModel>,
    inst: Instance,
    emitted: Seq<Seq<char>>,
    rendered: Seq<Seq<char>>,
    fuel: nat,
    rank: spec_fn(Seq<char>) -> nat,
    bound: nat,
)
    requires
        macro_names_distinct(mcat),
        ranks_below_size(mcat, rank, false),
        bound <= fuel,
        fuel <= mcat.len(),
        emitted_in_order(pcat, mcat, emitted, rendered),
        macro_of(inst) matches Some(c) ==> (lookup_macro(mcat, c) is Some ==> rank(c) < bound),
    ensures
        dependency_step(pcat, mcat, inst, emitted, rendered, fuel) matches Ok((e2, r2)) ==> {
            &&& emitted_in_order(pcat, mcat, e2, r2)
            &&& e2.len() >= emitted.len()
            &&& e2.take(emitted.len() as int) == emitted
            &&& r2.take(rendered.len() as int) == rendered
            &&& forall|q: int| emitted.len() <= q < e2.len() ==> rank(#[trigger] e2[q]) < bound
            &&& (macro_of(inst) matches Some(c) ==> (lookup_macro(mcat, c) is Some ==> e2.contains(c)))
        },
    decreases fuel, 0nat,
{
    match macro_of(inst) {
        None => {
            assert(emitted.take(emitted.len() as int) =~= emitted);
            assert(rendered.take(rendered.len() as int) =~= rendered);
        },
        Some(r) => {
            if emitted.contains(r) {
                assert(emitted.take(emitted.len() as int) =~= emitted);
                assert(rendered.take(rendered.len() as int) =~= rendered);
            } else {
                match lookup_macro(mcat, r) {
                    None => {},
                    Some(nm) => {
                        let k = lemma_found_entry(mcat, r);
                        assert(fuel > 0);
                        let f1 = (fuel - 1) as nat;
                        let insts = nm.circuit.instances@;
                        assert forall|j: int|
                            0 <= j < insts.len() && (macro_of(#[trigger] insts[j]) matches Some(c)
                                && lookup_macro(mcat, c) is Some) implies rank(
                            macro_of(insts[j])->Some_0,
                        ) < rank(r) by {
                            let c = macro_of(insts[j])->Some_0;
                            assert(uses_macro(mcat, mcat[k], c));
                            assert(expands_into(mcat, mcat[k], c, false));
                        }
                        lemma_walk_in_order(pcat, mcat, insts, emitted, rendered, f1, rank, rank(r));
                        match dependency_walk(pcat, mcat, insts, emitted, rendered, f1) {
                            Err(_) => {},
                            Ok((e1, r1)) => match macro_subckt(nm, pcat, mcat) {
                                Err(_) => {},
                                Ok(text) => {
                                    let e2 = e1.push(r);
                                    let r2 = r1.push(text);
                                    assert(!e1.contains(r)) by {
                                        if e1.contains(r) {
                                            let q = choose|q: int| 0 <= q < e1.len() && e1[q] == r;
                                            if q < emitted.len() {
                                                assert(e1.take(emitted.len() as int)[q] == r);
                                            } else {
                                                assert(rank(e1[q]) < rank(r));
                                            }
                                        }
                                    }
                                    assert(e2.no_duplicates()) by {
                                        assert forall|a: int, b: int|
                                            0 <= a < e2.len() && 0 <= b < e2.len() && a != b implies e2[a]
                                            != e2[b] by {
                                            if a == e1.len() && b < e1.len() {
                                                assert(e2[b] == e1[b]);
                                            } else if b == e1.len() && a < e1.len() {
                                                assert(e2[a] == e1[a]);
                                            } else if a < e1.len() && b < e1.len() {
                                                assert(e2[a] == e1[a] && e2[b] == e1[b]);
                                            }
                                        }
                                    }
                                    assert forall|q: int|
                                        0 <= q < e2.len() implies (lookup_macro(mcat, #[trigger] e2[q]) matches Some(m)
                                        && macro_subckt(m, pcat, mcat) == Ok::<
                                        Seq<char>,
                                        MacroRenderErrorText,
                                    >(r2[q])) by {
                                        if q < e1.len() {
                                            assert(e2[q] == e1[q] && r2[q] == r1[q]);
                                        }
                                    }
                                    assert forall|q: int, c: Seq<char>|
                                        0 <= q < e2.len() && #[trigger] uses_macro(
                                            mcat,
                                            lookup_macro(mcat, e2[q])->Some_0,
                                            c,
                                        ) implies exists|k2: int| 0 <= k2 < q && #[trigger] e2[k2] == c by {
                                        if q < e1.len() {
                                            assert(e2[q] == e1[q]);
                                            let k2 = choose|k2: int| 0 <= k2 < q && #[trigger] e1[k2] == c;
                                            assert(e2[k2] == c);
                                        } else {
                                            assert(e2[q] == r);
                                            let j = choose|j: int|
                                                0 <= j < insts.len() && macro_of(#[trigger] insts[j])
                                                    == Some(c);
                                            assert(e1.contains(c));
                                            let k2 = choose|k2: int| 0 <= k2 < e1.len() && e1[k2] == c;
                                            assert(e2[k2] == c);
                                        }
                                    }
                                    assert(e2.take(emitted.len() as int) =~= emitted) by {
                                        assert(e1.take(emitted.len() as int) == emitted);
                                    }
                                    assert(r2.take(rendered.len() as int) =~= rendered) by {
                                        assert(r1.take(rendered.len() as int) == rendered);
                                    }
                                    assert(e2[e1.len() as int] == r);
                                },
                            },
                        }
                    },
                }
            }
        },
    }
}

proof fn lemma_walk_in_order(
    pcat: Seq<PrimitiveManifest>,
    mcat: Seq<MacroModel>,
    insts: Seq<Instance>,
    emitted: Seq<Seq<char>>,
    rendered: Seq<Seq<char>>,
    fuel: nat,
    rank: spec_fn(Seq<char>) -> nat,
    bound: nat,
)
    requires
        macro_names_distinct(mcat),
        ranks_below_size(mcat, rank, false),
        bound <= fuel,
        fuel <= mcat.len(),
        emitted_in_order(pcat, mcat, emitted, rendered),
        forall|j: int|
            0 <= j < insts.len() && (macro_of(#[trigger] insts[j]) matches Some(c) && lookup_macro(
                mcat,
                c,
            ) is Some) ==> rank(macro_of(insts[j])->Some_0) < bound,
    ensures
        dependency_walk(pcat, mcat, insts, emitted, rendered, fuel) matches Ok((e2, r2)) ==> {
            &&& emitted_in_order(pcat, mcat, e2, r2)
            &&& e2.len() >= emitted.len()
            &&& e2.take(emitted.len() as int) == emitted
            &&& r2.take(rendered.len() as int) == rendered
            &&& forall|q: int| emitted.len() <= q < e2.len() ==> rank(#[trigger] e2[q]) < bound
            &&& forall|j: int|
                0 <= j < insts.len() && (macro_of(#[trigger] insts[j]) matches Some(c)
                    && lookup_macro(mcat, c) is Some) ==> e2.contains(macro_of(insts[j])->Some_0)
        },
    decreases fuel, insts.len(),
{
    if insts.len() == 0 {
        assert(emitted.take(emitted.len() as int) =~= emitted);
        assert(rendered.take(rendered.len() as int) =~= rendered);
    } else {
        let init = insts.drop_last();
        assert forall|j: int|
            0 <= j < init.len() && (macro_of(#[trigger] init[j]) matches Some(c) && lookup_macro(
                mcat,
                c,
            ) is Some) implies rank(macro_of(init[j])->Some_0) < bound by {
            assert(init[j] == insts[j]);
        }
        lemma_walk_in_order(pcat, mcat, init, emitted, rendered, fuel, rank, bound);
        match dependency_walk(pcat, mcat, init, emitted, rendered, fuel) {
            Err(_) => {},
            Ok((e1, r1)) => {
                assert(macro_of(insts.last()) matches Some(c) ==> (lookup_macro(mcat, c) is Some ==> rank(
                    c,
                ) < bound)) by {
                    assert(insts.last() == insts[insts.len() - 1]);
                }
                lemma_step_in_order(pcat, mcat, insts.last(), e1, r1, fuel, rank, bound);
                match dependency_step(pcat, mcat, insts.last(), e1, r1, fuel) {
                    Err(_) => {},
                    Ok((e2, r2)) => {
                        assert(e2.take(emitted.len() as int) =~= e2.take(e1.len() as int).take(
                            emitted.len() as int,
                        ));
                        assert(r2.take(rendered.len() as int) =~= r2.take(r1.len() as int).take(
                            rendered.len() as int,
                        ));
                        assert forall|q: int| emitted.len() <= q < e2.len() implies rank(
                            #[trigger] e2[q],
                        ) < bound by {
                            if q < e1.len() {
                                assert(e2.take(e1.len() as int)[q] == e1[q]);
                            }
                        }
                        assert forall|j: int|
                            0 <= j < insts.len() && (macro_of(#[trigger] insts[j]) matches Some(c)
                                && lookup_macro(mcat, c) is Some) implies e2.contains(
                            macro_of(insts[j])->Some_0,
                        ) by {
                            if j < init.len() {
                                assert(init[j] == insts[j]);
                                let c = macro_of(insts[j])->Some_0;
                                let q = choose|q: int| 0 <= q < e1.len() && e1[q] == c;
                                assert(e2.take(e1.len() as int)[q] == c);
                            }
                        }
                    },
                }
            },
        }
    }
}

/// The netlist of a macro holds, before its own subcircuit, the subcircuit
/// of every catalog macro it uses, directly or through others, each once
/// and after the subcircuits of the macros it uses itself.
pub proof fn law_dependencies_before_users(
    pcat: Seq<PrimitiveManifest>,
    mcat: Seq<MacroModel>,
    m: MacroModel,
)
    requires
        macro_names_distinct(mcat),
        no_cycle_below(mcat, m, false),
    ensures
        dependency_walk(pcat, mcat, m.circuit.instances@, seq![], seq![], mcat.len()) matches Ok(
            (emitted, rendered),
        ) ==> {
            &&& emitted_in_order(pcat, mcat, emitted, rendered)
            &&& forall|c: Seq<char>| #[trigger] uses_macro(mcat, m, c) ==> emitted.contains(c)
            &&& (macro_netlist(m, pcat, mcat) is Ok ==> (macro_subckt(m, pcat, mcat) matches Ok(own)
                && macro_netlist(m, pcat, mcat) == Ok::<Seq<char>, MacroRenderErrorText>(
                join(rendered.push(own), seq!['\n']),
            )))
        },
{
    let rank = choose|rank: spec_fn(Seq<char>) -> nat| #[trigger] ranks_from(mcat, m, rank, false);
    let insts = m.circuit.instances@;
    assert forall|j: int|
        0 <= j < insts.len() && (macro_of(#[trigger] insts[j]) matches Some(c) && lookup_macro(
            mcat,
            c,
        ) is Some) implies rank(macro_of(insts[j])->Some_0) < mcat.len() by {
        let c = macro_of(insts[j])->Some_0;
        assert(uses_macro(mcat, m, c));
        assert(expands_into(mcat, m, c, false));
    }
    let empty: Seq<Seq<char>> = seq![];
    assert(emitted_in_order(pcat, mcat, empty, empty));
    lemma_walk_in_order(pcat, mcat, insts, empty, empty, mcat.len(), rank, mcat.len());
    match dependency_walk(pcat, mcat, insts, empty, empty, mcat.len()) {
        Err(_) => {},
        Ok((e2, r2)) => {
            assert forall|c: Seq<char>| #[trigger] uses_macro(mcat, m, c) implies e2.contains(c) by {
                let j = choose|j: int| 0 <= j < insts.len() && macro_of(#[trigger] insts[j]) == Some(c);
            }
        },
    }
}

} // verus!
