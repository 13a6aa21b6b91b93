use vstd::prelude::*;
use crate::catalog::primitive_catalog::{lookup_primitive, PrimitiveCatalog};
use crate::circuit::instance::{macro_of, primitive_of};
use crate::circuit::validation::{error_texts, validation_errors, ValidationErrorText};
use crate::circuit::{validate_circuit, Circuit, CircuitValidationError, Connection, Instance};
use crate::netlist::small_signal::{connected_net, connected_net_spec};
use crate::primitive::manifest::{Pin, PrimitiveManifest};
use crate::text::{join, join_strings, push_str, string_from, texts};

verus! {

/// Why a circuit netlist could not be rendered.
#[derive(Debug, Clone, PartialEq, Eq)]
pub enum NetlistRenderError {
    InvalidCircuit(Vec<CircuitValidationError>),
    UnconnectedPin { instance: String, pin: String },
    MissingPrimitive { primitive: String },
    UnsupportedMacroInstance { instance: String, macro_name: String },
}

/// A netlist rendering error, by its text.
pub enum NetlistErrorText {
    InvalidCircuit(Seq<ValidationErrorText>),
    UnconnectedPin { instance: Seq<char>, pin: Seq<char> },
    MissingPrimitive { primitive: Seq<char> },
    UnsupportedMacroInstance { instance: Seq<char>, macro_name: Seq<char> },
}

impl View for NetlistRenderError {
    type V = NetlistErrorText;

    open spec fn view(&self) -> NetlistErrorText {
        match self {
            NetlistRenderError::InvalidCircuit(v) => NetlistErrorText::InvalidCircuit(error_texts(v@)),
            NetlistRenderError::UnconnectedPin { instance, pin } => NetlistErrorText::UnconnectedPin {
                instance: instance@,
                pin: pin@,
            },
            NetlistRenderError::MissingPrimitive { primitive } =>
                NetlistErrorText::MissingPrimitive { primitive: primitive@ },
            NetlistRenderError::UnsupportedMacroInstance { instance, macro_name } =>
                NetlistErrorText::UnsupportedMacroInstance {
                instance: instance@,
                macro_name: macro_name@,
            },
        }
    }
}

/// The nets on the pins of instance `id`, in pin order, or the first pin
/// that no connection ties to a net.
pub open spec fn pin_nets(conns: Seq<Connection>, id: Seq<char>, pins: Seq<Pin>) -> Result<
    Seq<Seq<char>>,
    NetlistErrorText,
>
    decreases pins.len(),
{
    if pins.len() == 0 {
        Ok(seq![])
    } else {
        match pin_nets(conns, id, pins.drop_last()) {
            Err(e) => Err(e),
            Ok(prev) => match connected_net_spec(conns, id, pins.last().name@) {
                None => Err(NetlistErrorText::UnconnectedPin { instance: id, pin: pins.last().name@ }),
                Some(n) => Ok(prev.push(n)),
            },
        }
    }
}

/// The subcircuit line of one instance: `X<id> <nets> <subcircuit>`.
pub open spec fn instance_line(c: Circuit, cat: Seq<PrimitiveManifest>, inst: Instance) -> Result<
    Seq<char>,
    NetlistErrorText,
> {
    match primitive_of(inst) {
        None => Err(
            match macro_of(inst) {
                Some(m) => NetlistErrorText::UnsupportedMacroInstance { instance: inst.id@, macro_name: m },
                None => NetlistErrorText::MissingPrimitive { primitive: seq![] },
            },
        ),
        Some(p) => match lookup_primitive(cat, p) {
            None => Err(NetlistErrorText::MissingPrimitive { primitive: p }),
            Some(prim) => match pin_nets(c.connections@, inst.id@, prim.pins@) {
                Err(e) => Err(e),
                Ok(nets) => Ok(
                    seq!['X'] + inst.id@ + seq![' '] + join(nets, seq![' ']) + seq![' ']
                        + prim.subckt_name@,
                ),
            },
        },
    }
}

/// The lines of the instances in order, or the first error.
pub open spec fn instance_lines_spec(c: Circuit, cat: Seq<PrimitiveManifest>, insts: Seq<Instance>) -> Result<
    Seq<Seq<char>>,
    NetlistErrorText,
>
    decreases insts.len(),
{
    if insts.len() == 0 {
        Ok(seq![])
    } else {
        match instance_lines_spec(c, cat, insts.drop_last()) {
            Err(e) => Err(e),
            Ok(prev) => match instance_line(c, cat, insts.last()) {
                Err(e) => Err(e),
                Ok(l) => Ok(prev.push(l)),
            },
        }
    }
}

/// The netlist of a valid circuit: a header, then one subcircuit line per
/// instance.
pub open spec fn circuit_netlist(c: Circuit, cat: Seq<PrimitiveManifest>) -> Result<
    Seq<char>,
    NetlistErrorText,
> {
    let errs = validation_errors(c, cat);
    if errs.len() > 0 {
        Err(NetlistErrorText::InvalidCircuit(errs))
    } else {
        match instance_lines_spec(c, cat, c.instances@) {
            Err(e) => Err(e),
            Ok(ls) => Ok(join(seq!["* Circuit: "@ + c.name@] + ls, seq!['\n']) + seq!['\n']),
        }
    }
}

proof fn lemma_lines_err_stays(c: Circuit, cat: Seq<PrimitiveManifest>, insts: Seq<Instance>, k: int)
    requires
        0 <= k <= insts.len(),
        instance_lines_spec(c, cat, insts.take(k)) is Err,
    ensures
        instance_lines_spec(c, cat, insts) == instance_lines_spec(c, cat, insts.take(k)),
    decreases insts.len() - k,
{
    if k < insts.len() {
        assert(insts.take(k + 1).drop_last() =~= insts.take(k));
        lemma_lines_err_stays(c, cat, insts, k + 1);
    } else {
        assert(insts.take(k) =~= insts);
    }
}

proof fn lemma_nets_err_stays(conns: Seq<Connection>, id: Seq<char>, pins: Seq<Pin>, k: int)
    requires
        0 <= k <= pins.len(),
        pin_nets(conns, id, pins.take(k)) is Err,
    ensures
        pin_nets(conns, id, pins) == pin_nets(conns, id, pins.take(k)),
    decreases pins.len() - k,
{
    if k < pins.len() {
        assert(pins.take(k + 1).drop_last() =~= pins.take(k));
        lemma_nets_err_stays(conns, id, pins, k + 1);
    } else {
        assert(pins.take(k) =~= pins);
    }
}

fn render_instance(circuit: &Circuit, catalog: &PrimitiveCatalog, instance: &Instance) -> (r: Result<
    String,
    NetlistRenderError,
>)
    ensures
        match r {
            Ok(s) => instance_line(*circuit, catalog@, *instance) == Ok::<
                Seq<char>,
                NetlistErrorText,
            >(s@),
            Err(e) => instance_line(*circuit, catalog@, *instance) == Err::<
                Seq<char>,
                NetlistErrorText,
            >(e@),
        },
{
    let primitive_name = match instance.primitive_name() {
        Some(p) => p,
        None => {
            return Err(
                match instance.macro_name() {
                    Some(m) => NetlistRenderError::UnsupportedMacroInstance {
                        instance: instance.id.clone(),
                        macro_name: string_from(m),
                    },
                    None => NetlistRenderError::MissingPrimitive { primitive: String::new() },
                },
            );
        },
    };
    let primitive = match catalog.get(primitive_name) {
        Some(p) => p,
        None => {
            return Err(NetlistRenderError::MissingPrimitive { primitive: string_from(primitive_name) });
        },
    };
    let ghost pins = primitive.pins@;
    let mut nets: Vec<String> = Vec::new();
    let mut k: usize = 0;
    assert(pins.take(0) =~= Seq::<Pin>::empty());
    assert(texts(nets@) =~= Seq::<Seq<char>>::empty());
    while k < primitive.pins.len()
        invariant
            k <= primitive.pins.len(),
            pins == primitive.pins@,
            primitive_of(*instance) == Some(primitive_name@),
            lookup_primitive(catalog@, primitive_name@) == Some(*primitive),
            pin_nets(circuit.connections@, instance.id@, pins.take(k as int)) == Ok::<
                Seq<Seq<char>>,
                NetlistErrorText,
            >(texts(nets@)),
        decreases primitive.pins.len() - k,
    {
        let pin = &primitive.pins[k];
        assert(pins.take(k + 1).drop_last() =~= pins.take(k as int));
        assert(pins.take(k + 1).last() == *pin);
        match connected_net(circuit, instance.id.as_str(), pin.name.as_str()) {
            Some(n) => {
                let ghost before = texts(nets@);
                nets.push(string_from(n));
                assert(texts(nets@) =~= before.push(n@));
            },
            None => {
                proof {
                    lemma_nets_err_stays(circuit.connections@, instance.id@, pins, k + 1);
                    assert(pins.take(pins.len() as int) =~= pins);
                }
                return Err(
                    NetlistRenderError::UnconnectedPin {
                        instance: instance.id.clone(),
                        pin: pin.name.clone(),
                    },
                );
            },
        }
        k = k + 1;
    }
    assert(pins.take(primitive.pins.len() as int) =~= pins);
    let mut line = String::new();
    line.push('X');
    push_str(&mut line, instance.id.as_str());
    line.push(' ');
    let joined = join_strings(&nets, " ");
    push_str(&mut line, joined.as_str());
    line.push(' ');
    push_str(&mut line, primitive.subckt_name.as_str());
    proof {
        reveal_strlit(" ");
        assert(" "@ =~= seq![' ']);
        assert(line@ =~= seq!['X'] + instance.id@ + seq![' '] + join(texts(nets@), seq![' '])
            + seq![' '] + primitive.subckt_name@);
        assert(pin_nets(circuit.connections@, instance.id@, primitive.pins@) == Ok::<
            Seq<Seq<char>>,
            NetlistErrorText,
        >(texts(nets@)));
    }
    Ok(line)
}

/// Renders the netlist of a valid circuit: each primitive instance becomes a
/// subcircuit call `X<id>` on the nets of its pins, in the primitive's pin
/// order.
pub fn render_circuit_netlist(circuit: &Circuit, catalog: &PrimitiveCatalog) -> (r: Result<
    String,
    NetlistRenderError,
>)
    ensures
        match r {
            Ok(s) => circuit_netlist(*circuit, catalog@) == Ok::<Seq<char>, NetlistErrorText>(s@),
            Err(e) => circuit_netlist(*circuit, catalog@) == Err::<Seq<char>, NetlistErrorText>(
                e@,
            ),
        },
{
    let validation = validate_circuit(circuit, catalog);
    if validation.len() > 0 {
        return Err(NetlistRenderError::InvalidCircuit(validation));
    }
    let mut lines: Vec<String> = Vec::new();
    let mut header = String::new();
    push_str(&mut header, "* Circuit: ");
    push_str(&mut header, circuit.name.as_str());
    assert(header@ =~= "* Circuit: "@ + circuit.name@);
    lines.push(header);
    let ghost first = texts(lines@);
    assert(first =~= seq!["* Circuit: "@ + circuit.name@]);
    let ghost insts = circuit.instances@;
    let mut i: usize = 0;
    assert(insts.take(0) =~= Seq::<Instance>::empty());
    assert(texts(lines@).skip(1) =~= Seq::<Seq<char>>::empty());
    assert(texts(lines@).take(1) =~= first);
    while i < circuit.instances.len()
        invariant
            i <= circuit.instances.len(),
            insts == circuit.instances@,
            validation_errors(*circuit, catalog@).len() == 0,
            texts(lines@).len() >= 1,
            texts(lines@).take(1) == first,
            instance_lines_spec(*circuit, catalog@, insts.take(i as int)) == Ok::<
                Seq<Seq<char>>,
                NetlistErrorText,
            >(texts(lines@).skip(1)),
        decreases circuit.instances.len() - i,
    {
        assert(insts.take(i + 1).drop_last() =~= insts.take(i as int));
        assert(insts.take(i + 1).last() == circuit.instances@[i as int]);
        match render_instance(circuit, catalog, &circuit.instances[i]) {
            Ok(l) => {
                let ghost before = texts(lines@);
                lines.push(l);
                assert(texts(lines@) =~= before.push(l@));
                assert(texts(lines@).skip(1) =~= before.skip(1).push(l@));
                assert(texts(lines@).take(1) =~= before.take(1));
            },
            Err(e) => {
                proof {
                    lemma_lines_err_stays(*circuit, catalog@, insts, i + 1);
                    assert(insts.take(insts.len() as int) =~= insts);
                }
                return Err(e);
            },
        }
        i = i + 1;
    }
    assert(insts.take(circuit.instances.len() as int) =~= insts);
    assert(texts(lines@) =~= first + texts(lines@).skip(1));
    let mut out = join_strings(&lines, "\n");
    out.push('\n');
    proof {
        reveal_strlit("\n");
        assert("\n"@ =~= seq!['\n']);
        assert(validation_errors(*circuit, catalog@).len() == 0);
        assert(instance_lines_spec(*circuit, catalog@, circuit.instances@) == Ok::<
            Seq<Seq<char>>,
            NetlistErrorText,
        >(texts(lines@).skip(1)));
        assert(texts(lines@) == seq!["* Circuit: "@ + circuit.name@] + texts(lines@).skip(1));
        assert(out@ == join(texts(lines@), seq!['\n']) + seq!['\n']);
    }
    Ok(out)
}

} // verus!
