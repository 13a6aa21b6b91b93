use vstd::prelude::*;
use crate::catalog::primitive_catalog::{lookup_primitive, PrimitiveCatalog};
use crate::circuit::instance::{macro_of, primitive_of};
use crate::circuit::validation::{error_texts, validation_errors, ValidationErrorText};
use crate::circuit::{validate_circuit, Circuit, CircuitValidationError, Connection, Instance};
use crate::exploration::spec::{body_text_spec, SpecSource, TestbenchSpec};
use crate::macro_model::render::contains_name;
use crate::netlist::names::{element_name, param_name, small_signal_element_name, small_signal_param_name};
use crate::primitive::manifest::PrimitiveManifest;
use crate::primitive::small_signal::SmallSignalBranch;
use crate::text::{
    chars_of, is_blank, join, join_strings, push_str, str_eq, string_from, texts, trim, trim_str,
};

verus! {

/// Why a small-signal netlist could not be rendered.
#[derive(Debug, Clone, PartialEq, Eq)]
pub enum SmallSignalRenderError {
    InvalidCircuit(Vec<CircuitValidationError>),
    MissingPrimitive { primitive: String },
    UnsupportedMacroInstance { instance: String, macro_name: String },
    MissingSmallSignalModel { primitive: String },
    MissingBranchPin { instance: String, branch: String, pin: String },
}

/// A small-signal rendering error, by its text.
pub enum SmallSignalErrorText {
    InvalidCircuit(Seq<ValidationErrorText>),
    MissingPrimitive { primitive: Seq<char> },
    UnsupportedMacroInstance { instance: Seq<char>, macro_name: Seq<char> },
    MissingSmallSignalModel { primitive: Seq<char> },
    MissingBranchPin { instance: Seq<char>, branch: Seq<char>, pin: Seq<char> },
}

impl View for SmallSignalRenderError {
    type V = SmallSignalErrorText;

    open spec fn view(&self) -> SmallSignalErrorText {
        match self {
            SmallSignalRenderError::InvalidCircuit(v) => SmallSignalErrorText::InvalidCircuit(
                error_texts(v@),
            ),
            SmallSignalRenderError::MissingPrimitive { primitive } =>
                SmallSignalErrorText::MissingPrimitive { primitive: primitive@ },
            SmallSignalRenderError::UnsupportedMacroInstance { instance, macro_name } =>
                SmallSignalErrorText::UnsupportedMacroInstance {
                instance: instance@,
                macro_name: macro_name@,
            },
            SmallSignalRenderError::MissingSmallSignalModel { primitive } =>
                SmallSignalErrorText::MissingSmallSignalModel { primitive: primitive@ },
            SmallSignalRenderError::MissingBranchPin { instance, branch, pin } =>
                SmallSignalErrorText::MissingBranchPin {
                instance: instance@,
                branch: branch@,
                pin: pin@,
            },
        }
    }
}

/// The net of the first connection on pin `pin` of instance `instance`.
pub open spec fn connected_net_spec(conns: Seq<Connection>, instance: Seq<char>, pin: Seq<char>) -> Option<
    Seq<char>,
>
    decreases conns.len(),
{
    if conns.len() == 0 {
        None
    } else if conns[0].from.instance@ == instance && conns[0].from.pin@ == pin {
        Some(conns[0].net@)
    } else {
        connected_net_spec(conns.drop_first(), instance, pin)
    }
}

/// The two element lines of a branch: its output resistance `ro` between
/// drain and source, and its transconductance `gm` from gate-source voltage
/// to drain-source current.
pub open spec fn branch_lines_of(
    id: Seq<char>,
    b: SmallSignalBranch,
    vd: Seq<char>,
    vg: Seq<char>,
    vs: Seq<char>,
) -> Seq<Seq<char>> {
    seq![
        element_name("R"@, "ro"@, id, b.name@) + seq![' '] + vd + seq![' '] + vs + seq![' ']
            + param_name("ro"@, id, b.name@),
        element_name("G"@, "gm"@, id, b.name@) + seq![' '] + vd + seq![' '] + vs + seq![' '] + vg
            + seq![' '] + vs + seq![' '] + param_name("gm"@, id, b.name@),
    ]
}

/// The element lines of the branches of instance `id`, or the first branch
/// pin that no connection ties to a net.
pub open spec fn branches_lines(
    conns: Seq<Connection>,
    id: Seq<char>,
    branches: Seq<SmallSignalBranch>,
) -> Result<Seq<Seq<char>>, SmallSignalErrorText>
    decreases branches.len(),
{
    if branches.len() == 0 {
        Ok(seq![])
    } else {
        match branches_lines(conns, id, branches.drop_last()) {
            Err(e) => Err(e),
            Ok(prev) => {
                let b = branches.last();
                match connected_net_spec(conns, id, b.vd@) {
                    None => Err(
                        SmallSignalErrorText::MissingBranchPin { instance: id, branch: b.name@, pin: b.vd@ },
                    ),
                    Some(vd) => match connected_net_spec(conns, id, b.vg@) {
                        None => Err(
                            SmallSignalErrorText::MissingBranchPin {
                                instance: id,
                                branch: b.name@,
                                pin: b.vg@,
                            },
                        ),
                        Some(vg) => match connected_net_spec(conns, id, b.vs@) {
                            None => Err(
                                SmallSignalErrorText::MissingBranchPin {
                                    instance: id,
                                    branch: b.name@,
                                    pin: b.vs@,
                                },
                            ),
                            Some(vs) => Ok(prev + branch_lines_of(id, b, vd, vg, vs)),
                        },
                    },
                }
            },
        }
    }
}

/// The lines of one instance: a blank line, a comment naming it, then its
/// branch elements.
pub open spec fn instance_block(c: Circuit, cat: Seq<PrimitiveManifest>, inst: Instance) -> Result<
    Seq<Seq<char>>,
    SmallSignalErrorText,
> {
    match primitive_of(inst) {
        None => Err(
            match macro_of(inst) {
                Some(m) => SmallSignalErrorText::UnsupportedMacroInstance {
                    instance: inst.id@,
                    macro_name: m,
                },
                None => SmallSignalErrorText::MissingPrimitive { primitive: seq![] },
            },
        ),
        Some(p) => match lookup_primitive(cat, p) {
            None => Err(SmallSignalErrorText::MissingPrimitive { primitive: p }),
            Some(prim) => match prim.small_signal {
                None => Err(SmallSignalErrorText::MissingSmallSignalModel { primitive: prim.name@ }),
                Some(ss) => match branches_lines(c.connections@, inst.id@, ss.branches@) {
                    Err(e) => Err(e),
                    Ok(ls) => Ok(
                        seq![
                            seq![],
                            "* instance "@ + inst.id@ + " ("@ + prim.name@ + seq![')'],
                        ] + ls,
                    ),
                },
            },
        },
    }
}

/// The lines of the instances in order, or the first error.
pub open spec fn instance_blocks(c: Circuit, cat: Seq<PrimitiveManifest>, insts: Seq<Instance>) -> Result<
    Seq<Seq<char>>,
    SmallSignalErrorText,
>
    decreases insts.len(),
{
    if insts.len() == 0 {
        Ok(seq![])
    } else {
        match instance_blocks(c, cat, insts.drop_last()) {
            Err(e) => Err(e),
            Ok(prev) => match instance_block(c, cat, insts.last()) {
                Err(e) => Err(e),
                Ok(ls) => Ok(prev + ls),
            },
        }
    }
}

/// The small-signal netlist of a valid circuit: a header, then per instance
/// the `ro` and `gm` elements of each branch of its primitive's model.
pub open spec fn small_signal_netlist(c: Circuit, cat: Seq<PrimitiveManifest>) -> Result<
    Seq<char>,
    SmallSignalErrorText,
> {
    let errs = validation_errors(c, cat);
    if errs.len() > 0 {
        Err(SmallSignalErrorText::InvalidCircuit(errs))
    } else {
        match instance_blocks(c, cat, c.instances@) {
            Err(e) => Err(e),
            Ok(ls) => Ok(
                join(seq!["* Small-signal circuit: "@ + c.name@] + ls, seq!['\n']) + seq!['\n'],
            ),
        }
    }
}

/// The netlist with a testbench appended: when the testbench body is not
/// blank, a blank line, `* testbench <name>` and the trimmed body follow.
pub open spec fn with_testbench(netlist: Seq<char>, t: TestbenchSpec) -> Seq<char> {
    let body = body_text_spec(t);
    if trim(body).len() == 0 {
        netlist
    } else {
        let base = if netlist.len() > 0 && netlist.last() == '\n' {
            netlist
        } else {
            netlist.push('\n')
        };
        base + "\n* testbench "@ + t.name@ + seq!['\n'] + trim(body) + seq!['\n']
    }
}

/// The net tied to pin `pin` of instance `instance`, if any.
pub fn connected_net<'a>(circuit: &'a Circuit, instance: &str, pin: &str) -> (r: Option<&'a str>)
    ensures
        match r {
            Some(n) => connected_net_spec(circuit.connections@, instance@, pin@) == Some(n@),
            None => connected_net_spec(circuit.connections@, instance@, pin@) is None,
        },
{
    let ghost all = circuit.connections@;
    let mut i: usize = 0;
    assert(all.skip(0) =~= all);
    while i < circuit.connections.len()
        invariant
            i <= circuit.connections.len(),
            all == circuit.connections@,
            connected_net_spec(all, instance@, pin@) == connected_net_spec(
                all.skip(i as int),
                instance@,
                pin@,
            ),
        decreases circuit.connections.len() - i,
    {
        assert(all.skip(i as int)[0] == all[i as int]);
        let c = &circuit.connections[i];
        if str_eq(c.from.instance.as_str(), instance) && str_eq(c.from.pin.as_str(), pin) {
            return Some(c.net.as_str());
        }
        assert(all.skip(i as int).drop_first() =~= all.skip(i + 1));
        i = i + 1;
    }
    None
}

fn branch_net(circuit: &Circuit, id: &String, b: &SmallSignalBranch, pin: &String) -> (r: Result<
    String,
    SmallSignalRenderError,
>)
    ensures
        match r {
            Ok(n) => connected_net_spec(circuit.connections@, id@, pin@) == Some(n@),
            Err(e) => connected_net_spec(circuit.connections@, id@, pin@) is None && e@
                == SmallSignalErrorText::MissingBranchPin { instance: id@, branch: b.name@, pin: pin@ },
        },
{
    match connected_net(circuit, id.as_str(), pin.as_str()) {
        Some(n) => Ok(string_from(n)),
        None => Err(
            SmallSignalRenderError::MissingBranchPin {
                instance: id.clone(),
                branch: b.name.clone(),
                pin: pin.clone(),
            },
        ),
    }
}

fn push_spaced(line: &mut String, part: &str)
    ensures
        final(line)@ == old(line)@ + seq![' '] + part@,
{
    line.push(' ');
    push_str(line, part);
}

fn instance_lines(circuit: &Circuit, catalog: &PrimitiveCatalog, instance: &Instance) -> (r: Result<
    Vec<String>,
    SmallSignalRenderError,
>)
    ensures
        match r {
            Ok(v) => instance_block(*circuit, catalog@, *instance) == Ok::<
                Seq<Seq<char>>,
                SmallSignalErrorText,
            >(texts(v@)),
            Err(e) => instance_block(*circuit, catalog@, *instance) == Err::<
                Seq<Seq<char>>,
                SmallSignalErrorText,
            >(e@),
        },
{
    let primitive_name = match instance.primitive_name() {
        Some(p) => p,
        None => {
            return Err(
                match instance.macro_name() {
                    Some(m) => SmallSignalRenderError::UnsupportedMacroInstance {
                        instance: instance.id.clone(),
                        macro_name: string_from(m),
                    },
                    None => SmallSignalRenderError::MissingPrimitive { primitive: String::new() },
                },
            );
        },
    };
    let primitive = match catalog.get(primitive_name) {
        Some(p) => p,
        None => {
            return Err(
                SmallSignalRenderError::MissingPrimitive { primitive: string_from(primitive_name) },
            );
        },
    };
    let small_signal = match &primitive.small_signal {
        Some(s) => s,
        None => {
            return Err(
                SmallSignalRenderError::MissingSmallSignalModel { primitive: primitive.name.clone() },
            );
        },
    };
    let mut lines: Vec<String> = Vec::new();
    lines.push(String::new());
    let mut comment = String::new();
    push_str(&mut comment, "* instance ");
    push_str(&mut comment, instance.id.as_str());
    push_str(&mut comment, " (");
    push_str(&mut comment, primitive.name.as_str());
    comment.push(')');
    assert(comment@ =~= "* instance "@ + instance.id@ + " ("@ + primitive.name@ + seq![')']);
    let ghost empty_line = lines@[0]@;
    assert(empty_line =~= Seq::<char>::empty());
    lines.push(comment);
    let ghost head = texts(lines@);
    assert(head =~= seq![seq![], "* instance "@ + instance.id@ + " ("@ + primitive.name@ + seq![')']]);
    let ghost branches = small_signal.branches@;
    let id = &instance.id;
    let mut k: usize = 0;
    assert(branches.take(0) =~= Seq::<SmallSignalBranch>::empty());
    assert(texts(lines@).skip(2) =~= Seq::<Seq<char>>::empty());
    assert(texts(lines@).take(2) =~= head);
    while k < small_signal.branches.len()
        invariant
            k <= small_signal.branches.len(),
            branches == small_signal.branches@,
            primitive_of(*instance) == Some(primitive_name@),
            lookup_primitive(catalog@, primitive_name@) == Some(*primitive),
            primitive.small_signal == Some(*small_signal),
            *id == instance.id,
            branches_lines(circuit.connections@, id@, branches.take(k as int)) == Ok::<
                Seq<Seq<char>>,
                SmallSignalErrorText,
            >(texts(lines@).skip(2)),
            texts(lines@).len() >= 2,
            texts(lines@).take(2) == head,
        decreases small_signal.branches.len() - k,
    {
        let b = &small_signal.branches[k];
        assert(branches.take(k + 1).drop_last() =~= branches.take(k as int));
        assert(branches.take(k + 1).last() == *b);
        let vd = match branch_net(circuit, id, b, &b.vd) {
            Ok(n) => n,
            Err(e) => {
                proof {
                    lemma_branches_err_stays(circuit.connections@, id@, branches, k + 1);
                    assert(branches.take(branches.len() as int) =~= branches);
                }
                return Err(e);
            },
        };
        let vg = match branch_net(circuit, id, b, &b.vg) {
            Ok(n) => n,
            Err(e) => {
                proof {
                    lemma_branches_err_stays(circuit.connections@, id@, branches, k + 1);
                    assert(branches.take(branches.len() as int) =~= branches);
                }
                return Err(e);
            },
        };
        let vs = match branch_net(circuit, id, b, &b.vs) {
            Ok(n) => n,
            Err(e) => {
                proof {
                    lemma_branches_err_stays(circuit.connections@, id@, branches, k + 1);
                    assert(branches.take(branches.len() as int) =~= branches);
                }
                return Err(e);
            },
        };
        let mut ro_line = small_signal_element_name("R", "ro", id.as_str(), b.name.as_str());
        push_spaced(&mut ro_line, vd.as_str());
        push_spaced(&mut ro_line, vs.as_str());
        let ro_param = small_signal_param_name("ro", id.as_str(), b.name.as_str());
        push_spaced(&mut ro_line, ro_param.as_str());
        let mut gm_line = small_signal_element_name("G", "gm", id.as_str(), b.name.as_str());
        push_spaced(&mut gm_line, vd.as_str());
        push_spaced(&mut gm_line, vs.as_str());
        push_spaced(&mut gm_line, vg.as_str());
        push_spaced(&mut gm_line, vs.as_str());
        let gm_param = small_signal_param_name("gm", id.as_str(), b.name.as_str());
        push_spaced(&mut gm_line, gm_param.as_str());
        let ghost before = texts(lines@);
        lines.push(ro_line);
        lines.push(gm_line);
        assert(texts(lines@) =~= before + branch_lines_of(id@, *b, vd@, vg@, vs@));
        assert(texts(lines@).skip(2) =~= before.skip(2) + branch_lines_of(id@, *b, vd@, vg@, vs@));
        assert(texts(lines@).take(2) =~= before.take(2));
        k = k + 1;
    }
    assert(branches.take(small_signal.branches.len() as int) =~= branches);
    proof {
        assert(texts(lines@) =~= head + texts(lines@).skip(2));
        assert(branches_lines(circuit.connections@, instance.id@, small_signal.branches@) == Ok::<
            Seq<Seq<char>>,
            SmallSignalErrorText,
        >(texts(lines@).skip(2)));
    }
    Ok(lines)
}

proof fn lemma_branches_err_stays(
    conns: Seq<Connection>,
    id: Seq<char>,
    branches: Seq<SmallSignalBranch>,
    k: int,
)
    requires
        0 <= k <= branches.len(),
        branches_lines(conns, id, branches.take(k)) is Err,
    ensures
        branches_lines(conns, id, branches) == branches_lines(conns, id, branches.take(k)),
    decreases branches.len() - k,
{
    if k < branches.len() {
        assert(branches.take(k + 1).drop_last() =~= branches.take(k));
        lemma_branches_err_stays(conns, id, branches, k + 1);
    } else {
        assert(branches.take(k) =~= branches);
    }
}

proof fn lemma_blocks_err_stays(
    c: Circuit,
    cat: Seq<PrimitiveManifest>,
    insts: Seq<Instance>,
    k: int,
)
    requires
        0 <= k <= insts.len(),
        instance_blocks(c, cat, insts.take(k)) is Err,
    ensures
        instance_blocks(c, cat, insts) == instance_blocks(c, cat, insts.take(k)),
    decreases insts.len() - k,
{
    if k < insts.len() {
        assert(insts.take(k + 1).drop_last() =~= insts.take(k));
        lemma_blocks_err_stays(c, cat, insts, k + 1);
    } else {
        assert(insts.take(k) =~= insts);
    }
}

/// Renders the small-signal netlist of a circuit: each branch of each
/// instance's small-signal model becomes an output resistance `R_ro__…` and
/// a transconductance `G_gm__…` on the nets its pins are tied to.
pub fn render_small_signal_netlist(circuit: &Circuit, catalog: &PrimitiveCatalog) -> (r: Result<
    String,
    SmallSignalRenderError,
>)
    ensures
        match r {
            Ok(s) => small_signal_netlist(*circuit, catalog@) == Ok::<
                Seq<char>,
                SmallSignalErrorText,
            >(s@),
            Err(e) => small_signal_netlist(*circuit, catalog@) == Err::<
                Seq<char>,
                SmallSignalErrorText,
            >(e@),
        },
{
    let validation = validate_circuit(circuit, catalog);
    if validation.len() > 0 {
        return Err(SmallSignalRenderError::InvalidCircuit(validation));
    }
    let mut lines: Vec<String> = Vec::new();
    let mut header = String::new();
    push_str(&mut header, "* Small-signal circuit: ");
    push_str(&mut header, circuit.name.as_str());
    assert(header@ =~= "* Small-signal circuit: "@ + circuit.name@);
    lines.push(header);
    let ghost first = texts(lines@);
    assert(first =~= seq!["* Small-signal circuit: "@ + circuit.name@]);
    let ghost insts = circuit.instances@;
    let mut i: usize = 0;
    assert(insts.take(0) =~= Seq::<Instance>::empty());
    assert(texts(lines@).skip(1) =~= Seq::<Seq<char>>::empty());
    assert(texts(lines@).take(1) =~= first);
    while i < circuit.instances.len()
        invariant
            i <= circuit.instances.len(),
            insts == circuit.instances@,
            validation_errors(*circuit, catalog@).len() == 0,
            texts(lines@).len() >= 1,
            texts(lines@).take(1) == first,
            instance_blocks(*circuit, catalog@, insts.take(i as int)) == Ok::<
                Seq<Seq<char>>,
                SmallSignalErrorText,
            >(texts(lines@).skip(1)),
        decreases circuit.instances.len() - i,
    {
        assert(insts.take(i + 1).drop_last() =~= insts.take(i as int));
        assert(insts.take(i + 1).last() == circuit.instances@[i as int]);
        match instance_lines(circuit, catalog, &circuit.instances[i]) {
            Ok(block) => {
                let ghost before = texts(lines@);
                let mut k: usize = 0;
                while k < block.len()
                    invariant
                        k <= block.len(),
                        texts(lines@) == before + texts(block@).take(k as int),
                    decreases block.len() - k,
                {
                    let ghost prev = texts(lines@);
                    lines.push(block[k].clone());
                    assert(texts(lines@) =~= prev.push(block@[k as int]@));
                    assert(texts(block@).take(k + 1) =~= texts(block@).take(k as int).push(
                        block@[k as int]@,
                    ));
                    k = k + 1;
                }
                assert(texts(block@).take(block.len() as int) =~= texts(block@));
                assert(texts(lines@).skip(1) =~= before.skip(1) + texts(block@));
                assert(texts(lines@).take(1) =~= before.take(1));
            },
            Err(e) => {
                proof {
                    lemma_blocks_err_stays(*circuit, catalog@, insts, i + 1);
                    assert(insts.take(insts.len() as int) =~= insts);
                }
                return Err(e);
            },
        }
        i = i + 1;
    }
    assert(insts.take(circuit.instances.len() as int) =~= insts);
    assert(texts(lines@) =~= first + texts(lines@).skip(1));
    let mut out = join_strings(&lines, "\n");
    out.push('\n');
    proof {
        reveal_strlit("\n");
        assert("\n"@ =~= seq!['\n']);
        assert(validation_errors(*circuit, catalog@).len() == 0);
        assert(instance_blocks(*circuit, catalog@, circuit.instances@) == Ok::<
            Seq<Seq<char>>,
            SmallSignalErrorText,
        >(texts(lines@).skip(1)));
        assert(texts(lines@) == seq!["* Small-signal circuit: "@ + circuit.name@] + texts(
            lines@,
        ).skip(1));
        assert(out@ == join(texts(lines@), seq!['\n']) + seq!['\n']);
    }
    Ok(out)
}

/// Renders the small-signal netlist of a circuit followed by a testbench's
/// body, when that body is not blank.
pub fn render_testbench_small_signal_netlist(
    circuit: &Circuit,
    catalog: &PrimitiveCatalog,
    testbench: &TestbenchSpec,
) -> (r: Result<String, SmallSignalRenderError>)
    ensures
        match r {
            Ok(s) => small_signal_netlist(*circuit, catalog@) matches Ok(n) && s@ == with_testbench(
                n,
                *testbench,
            ),
            Err(e) => small_signal_netlist(*circuit, catalog@) == Err::<
                Seq<char>,
                SmallSignalErrorText,
            >(e@),
        },
{
    let mut netlist = match render_small_signal_netlist(circuit, catalog) {
        Ok(n) => n,
        Err(e) => {
            return Err(e);
        },
    };
    append_testbench(&mut netlist, testbench);
    Ok(netlist)
}

/// Appends a testbench to a rendered netlist: when its body is not blank, a
/// blank line, `* testbench <name>` and the trimmed body.
pub(crate) fn append_testbench(netlist: &mut String, testbench: &TestbenchSpec)
    ensures
        final(netlist)@ == with_testbench(old(netlist)@, *testbench),
{
    let body = testbench.body_text();
    if !is_blank(body.as_str()) {
        let v = chars_of(netlist.as_str());
        if !(v.len() > 0 && v[v.len() - 1] == '\n') {
            netlist.push('\n');
        }
        push_str(netlist, "\n* testbench ");
        push_str(netlist, testbench.name.as_str());
        netlist.push('\n');
        let trimmed = trim_str(body.as_str());
        push_str(netlist, trimmed.as_str());
        netlist.push('\n');
    }
}

/// Appending a testbench keeps the netlist as the beginning of the text, and
/// adds nothing when the testbench's body is blank.
pub proof fn law_testbench_appends(netlist: Seq<char>, t: TestbenchSpec)
    ensures
        with_testbench(netlist, t).len() >= netlist.len(),
        with_testbench(netlist, t).take(netlist.len() as int) == netlist,
        trim(body_text_spec(t)).len() == 0 ==> with_testbench(netlist, t) == netlist,
{
    let r = with_testbench(netlist, t);
    if trim(body_text_spec(t)).len() != 0 {
        let base = if netlist.len() > 0 && netlist.last() == '\n' {
            netlist
        } else {
            netlist.push('\n')
        };
        assert(base.take(netlist.len() as int) =~= netlist);
        assert(r.take(netlist.len() as int) =~= base.take(netlist.len() as int));
    } else {
        assert(r.take(netlist.len() as int) =~= netlist);
    }
}

/// The names of the testbenches that the transfer-function sources use,
/// each once, in the order they first appear.
pub open spec fn spec_testbench_names(sources: Seq<SpecSource>) -> Seq<Seq<char>>
    decreases sources.len(),
{
    if sources.len() == 0 {
        seq![]
    } else {
        let prev = spec_testbench_names(sources.drop_last());
        match sources.last() {
            SpecSource::TransferFunction { testbench, .. } => if prev.contains(testbench.name@) {
                prev
            } else {
                prev.push(testbench.name@)
            },
            _ => prev,
        }
    }
}

/// Renders the testbench of each transfer-function source against the
/// circuit, each testbench once, and gives the names of those rendered in
/// order; the first render that fails gives its error.
pub fn render_spec_testbenches(
    circuit: &Circuit,
    catalog: &PrimitiveCatalog,
    sources: &Vec<SpecSource>,
) -> (r: Result<Vec<String>, SmallSignalRenderError>)
    ensures
        match r {
            Ok(names) => {
                &&& texts(names@) == spec_testbench_names(sources@)
                &&& spec_testbench_names(sources@).len() > 0 ==> small_signal_netlist(
                    *circuit,
                    catalog@,
                ) is Ok
            },
            Err(e) => {
                &&& spec_testbench_names(sources@).len() > 0
                &&& small_signal_netlist(*circuit, catalog@) == Err::<
                    Seq<char>,
                    SmallSignalErrorText,
                >(e@)
            },
        },
{
    let mut names: Vec<String> = Vec::new();
    let mut i: usize = 0;
    while i < sources.len()
        invariant
            i <= sources.len(),
            texts(names@) == spec_testbench_names(sources@.take(i as int)),
            names@.len() > 0 ==> small_signal_netlist(*circuit, catalog@) is Ok,
        decreases sources.len() - i,
    {
        proof {
            assert(sources@.take(i + 1).drop_last() =~= sources@.take(i as int));
            assert(sources@.take(i + 1).last() == sources@[i as int]);
        }
        match &sources[i] {
            SpecSource::TransferFunction { testbench, .. } => {
                if !contains_name(&names, testbench.name.as_str()) {
                    match render_testbench_small_signal_netlist(circuit, catalog, testbench) {
                        Ok(_) => {},
                        Err(e) => {
                            proof {
                                assert(spec_testbench_names(sources@.take(i + 1)).len() > 0);
                                lemma_names_grow(sources@, i + 1);
                            }
                            return Err(e);
                        },
                    }
                    let ghost before = texts(names@);
                    names.push(string_from(testbench.name.as_str()));
                    proof {
                        assert(texts(names@) =~= before.push(testbench.name@));
                    }
                }
            },
            _ => {},
        }
        i = i + 1;
    }
    proof {
        assert(sources@.take(sources@.len() as int) =~= sources@);
    }
    Ok(names)
}

proof fn lemma_names_grow(sources: Seq<SpecSource>, k: int)
    requires
        0 <= k <= sources.len(),
        spec_testbench_names(sources.take(k)).len() > 0,
    ensures
        spec_testbench_names(sources).len() > 0,
    decreases sources.len() - k,
{
    if k < sources.len() {
        assert(sources.take(k + 1).drop_last() =~= sources.take(k));
        lemma_names_grow(sources, k + 1);
    } else {
        assert(sources.take(k) =~= sources);
    }
}

/// Whether `part` stands in `whole` as consecutive lines.
pub open spec fn lines_within(part: Seq<Seq<char>>, whole: Seq<Seq<char>>) -> bool {
    exists|o: int|
        0 <= o && o + part.len() <= whole.len() && #[trigger] whole.subrange(o, o + part.len())
            == part
}

proof fn lemma_blocks_listed(c: Circuit, cat: Seq<PrimitiveManifest>, insts: Seq<Instance>, k: int)
    requires
        0 <= k < insts.len(),
        instance_blocks(c, cat, insts) is Ok,
    ensures
        instance_block(c, cat, insts[k]) matches Ok(b) && lines_within(
            b,
            instance_blocks(c, cat, insts)->Ok_0,
        ),
    decreases insts.len(),
{
    let dl = insts.drop_last();
    let prev = instance_blocks(c, cat, dl)->Ok_0;
    let last = instance_block(c, cat, insts.last())->Ok_0;
    let all = prev + last;
    if k == insts.len() - 1 {
        assert(all.subrange(prev.len() as int, (prev.len() + last.len()) as int) =~= last);
    } else {
        assert(dl[k] == insts[k]);
        lemma_blocks_listed(c, cat, dl, k);
        let b = instance_block(c, cat, insts[k])->Ok_0;
        let o = choose|o: int|
            0 <= o && o + b.len() <= prev.len() && #[trigger] prev.subrange(o, o + b.len()) == b;
        assert(all.subrange(o, o + b.len()) =~= prev.subrange(o, o + b.len()));
    }
}

/// A small-signal netlist leaves out no instance: it is the header line and
/// lines among which, for every instance of the circuit, stand in a run
/// that instance's comment and the `ro` and `gm` lines of each branch of
/// its primitive's model.
pub proof fn law_every_instance_rendered(c: Circuit, cat: Seq<PrimitiveManifest>)
    ensures
        small_signal_netlist(c, cat) matches Ok(s) ==> exists|ls: Seq<Seq<char>>|
            #[trigger] join(seq!["* Small-signal circuit: "@ + c.name@] + ls, seq!['\n']) + seq![
                '\n',
            ] == s && forall|k: int|
                0 <= k < c.instances@.len() ==> ((#[trigger] instance_block(
                    c,
                    cat,
                    c.instances@[k],
                )) matches Ok(b) && lines_within(b, ls)),
{
    if small_signal_netlist(c, cat) is Ok {
        let ls = instance_blocks(c, cat, c.instances@)->Ok_0;
        assert forall|k: int| 0 <= k < c.instances@.len() implies (#[trigger] instance_block(
            c,
            cat,
            c.instances@[k],
        )) matches Ok(b) && lines_within(b, ls) by {
            lemma_blocks_listed(c, cat, c.instances@, k);
        }
    }
}

/// Each branch of a primitive's model gives two lines, in branch order: its
/// `ro` and its `gm` element, over the nets its drain, gate and source pins
/// are tied to; every one of those pins is tied.
pub proof fn law_two_lines_per_branch(conns: Seq<Connection>, id: Seq<char>, branches: Seq<SmallSignalBranch>)
    ensures
        branches_lines(conns, id, branches) matches Ok(ls) ==> {
            &&& ls.len() == 2 * branches.len()
            &&& forall|k: int|
                0 <= k < branches.len() ==> {
                    &&& connected_net_spec(conns, id, (#[trigger] branches[k]).vd@) is Some
                    &&& connected_net_spec(conns, id, branches[k].vg@) is Some
                    &&& connected_net_spec(conns, id, branches[k].vs@) is Some
                    &&& ls.subrange(2 * k, 2 * k + 2) == branch_lines_of(
                        id,
                        branches[k],
                        connected_net_spec(conns, id, branches[k].vd@)->Some_0,
                        connected_net_spec(conns, id, branches[k].vg@)->Some_0,
                        connected_net_spec(conns, id, branches[k].vs@)->Some_0,
                    )
                }
        },
    decreases branches.len(),
{
    if branches.len() > 0 {
        let dl = branches.drop_last();
        law_two_lines_per_branch(conns, id, dl);
        if let Ok(ls) = branches_lines(conns, id, branches) {
            let prev = branches_lines(conns, id, dl)->Ok_0;
            let b = branches.last();
            let last = branch_lines_of(
                id,
                b,
                connected_net_spec(conns, id, b.vd@)->Some_0,
                connected_net_spec(conns, id, b.vg@)->Some_0,
                connected_net_spec(conns, id, b.vs@)->Some_0,
            );
            assert(ls == prev + last);
            assert forall|k: int| 0 <= k < branches.len() implies {
                &&& connected_net_spec(conns, id, (#[trigger] branches[k]).vd@) is Some
                &&& connected_net_spec(conns, id, branches[k].vg@) is Some
                &&& connected_net_spec(conns, id, branches[k].vs@) is Some
                &&& ls.subrange(2 * k, 2 * k + 2) == branch_lines_of(
                    id,
                    branches[k],
                    connected_net_spec(conns, id, branches[k].vd@)->Some_0,
                    connected_net_spec(conns, id, branches[k].vg@)->Some_0,
                    connected_net_spec(conns, id, branches[k].vs@)->Some_0,
                )
            } by {
                if k < dl.len() {
                    assert(dl[k] == branches[k]);
                    assert(ls.subrange(2 * k, 2 * k + 2) =~= prev.subrange(2 * k, 2 * k + 2));
                } else {
                    assert(branches[k] == b);
                    assert(ls.subrange(2 * k, 2 * k + 2) =~= last);
                }
            }
        }
    }
}

} // verus!

