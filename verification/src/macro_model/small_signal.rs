use vstd::prelude::*;
use crate::catalog::primitive_catalog::{lookup_primitive, PrimitiveCatalog};
use crate::circuit::instance::{macro_of, primitive_of};
use crate::circuit::Instance;
use crate::macro_model::catalog::{
    expands_into, lemma_found_entry, lookup_macro, no_cycle_below, ranks_below_size, ranks_from, MacroCatalog,
};
use crate::macro_model::model::{MacroModel, MacroPort, MacroSmallSignalElement};
use crate::macro_model::render::{
    macro_pin_net, render_result, MacroRenderError, MacroRenderErrorText, MacroSmallSignalMode,
};
use crate::macro_model::validation::{macro_errors, validate_macro_model};
use crate::exploration::spec::{DutRef, TestbenchSpec};
use crate::netlist::small_signal::{append_testbench, branch_lines_of, connected_net_spec, with_testbench};
use crate::netlist::names::{small_signal_element_name, small_signal_param_name};
use crate::primitive::manifest::PrimitiveManifest;
use crate::primitive::small_signal::SmallSignalBranch;
use crate::text::{
    chars_of, join, join_strings, lemma_join_starts_with_first, push_str, string_from, string_of,
    texts,
};

verus! {

// ---------------------------------------------------------------------------
// Port maps
// ---------------------------------------------------------------------------
/// The net that `net` stands for under a port map: the value of the first
/// entry whose port is `net`, or `net` itself.
pub open spec fn resolve_net(map: Seq<(Seq<char>, Seq<char>)>, net: Seq<char>) -> Seq<char>
    decreases map.len(),
{
    if map.len() == 0 {
        net
    } else if map[0].0 == net {
        map[0].1
    } else {
        resolve_net(map.drop_first(), net)
    }
}

/// Each port standing for itself.
pub open spec fn identity_map(ports: Seq<MacroPort>) -> Seq<(Seq<char>, Seq<char>)> {
    ports.map_values(|p: MacroPort| (p.name@, p.name@))
}

/// The port map of a nested macro placed as instance `id` of `parent`: each
/// of its ports stands for the net that `parent` ties to that pin of the
/// instance, resolved through `parent`'s own map.
pub open spec fn nested_map(
    parent: MacroModel,
    id: Seq<char>,
    ports: Seq<MacroPort>,
    map: Seq<(Seq<char>, Seq<char>)>,
) -> Result<Seq<(Seq<char>, Seq<char>)>, MacroRenderErrorText>
    decreases ports.len(),
{
    if ports.len() == 0 {
        Ok(seq![])
    } else {
        match nested_map(parent, id, ports.drop_last(), map) {
            Err(e) => Err(e),
            Ok(prev) => {
                let p = ports.last();
                match connected_net_spec(parent.circuit.connections@, id, p.name@) {
                    None => Err(
                        MacroRenderErrorText::MissingConnectedPin {
                            macro_name: parent.name@,
                            instance: id,
                            pin: p.name@,
                        },
                    ),
                    Some(n) => Ok(prev.push((p.name@, resolve_net(map, n)))),
                }
            },
        }
    }
}

/// Where the ports of a macro lead in the netlist being rendered.
struct PortNetMap {
    entries: Vec<(String, String)>,
}

impl View for PortNetMap {
    type V = Seq<(Seq<char>, Seq<char>)>;

    closed spec fn view(&self) -> Seq<(Seq<char>, Seq<char>)> {
        self.entries@.map_values(|e: (String, String)| (e.0@, e.1@))
    }
}

impl PortNetMap {
    /// Each port of `macro_model` standing for itself.
    fn identity(macro_model: &MacroModel) -> (r: Self)
        ensures
            r@ == identity_map(macro_model.ports@),
    {
        let ports = &macro_model.ports;
        let mut entries: Vec<(String, String)> = Vec::new();
        let mut i: usize = 0;
        while i < ports.len()
            invariant
                i <= ports.len(),
                entries@.map_values(|e: (String, String)| (e.0@, e.1@)) == identity_map(
                    ports@,
                ).take(i as int),
            decreases ports.len() - i,
        {
            let ghost before = entries@.map_values(|e: (String, String)| (e.0@, e.1@));
            entries.push((ports[i].name.clone(), ports[i].name.clone()));
            assert(entries@.map_values(|e: (String, String)| (e.0@, e.1@)) =~= before.push(
                (ports@[i as int].name@, ports@[i as int].name@),
            ));
            assert(identity_map(ports@).take(i + 1) =~= identity_map(ports@).take(i as int).push(
                (ports@[i as int].name@, ports@[i as int].name@),
            ));
            i = i + 1;
        }
        assert(identity_map(ports@).take(ports.len() as int) =~= identity_map(ports@));
        PortNetMap { entries }
    }

    /// The net that `net` stands for.
    fn resolve(&self, net: &str) -> (r: String)
        ensures
            r@ == resolve_net(self@, net@),
    {
        let ghost all = self@;
        let mut i: usize = 0;
        assert(all.skip(0) =~= all);
        while i < self.entries.len()
            invariant
                i <= self.entries.len(),
                all == self@,
                all.len() == self.entries.len(),
                resolve_net(all, net@) == resolve_net(all.skip(i as int), net@),
            decreases self.entries.len() - i,
        {
            assert(all.skip(i as int)[0] == all[i as int]);
            if crate::text::str_eq(self.entries[i].0.as_str(), net) {
                return self.entries[i].1.clone();
            }
            assert(all.skip(i as int).drop_first() =~= all.skip(i + 1));
            i = i + 1;
        }
        string_from(net)
    }

    /// The map of the nested macro `nested` placed as instance `instance` of
    /// `parent`, whose own map is `parent_map`.
    fn from_instance(
        parent: &MacroModel,
        instance: &str,
        nested: &MacroModel,
        parent_map: &PortNetMap,
    ) -> (r: Result<Self, MacroRenderError>)
        ensures
            match r {
                Ok(m) => nested_map(*parent, instance@, nested.ports@, parent_map@) == Ok::<
                    Seq<(Seq<char>, Seq<char>)>,
                    MacroRenderErrorText,
                >(m@),
                Err(e) => nested_map(*parent, instance@, nested.ports@, parent_map@) == Err::<
                    Seq<(Seq<char>, Seq<char>)>,
                    MacroRenderErrorText,
                >(e@),
            },
    {
        let ports = &nested.ports;
        let mut entries: Vec<(String, String)> = Vec::new();
        let mut i: usize = 0;
        assert(ports@.take(0) =~= Seq::<MacroPort>::empty());
        assert(entries@.map_values(|e: (String, String)| (e.0@, e.1@)) =~= Seq::<
            (Seq<char>, Seq<char>),
        >::empty());
        while i < ports.len()
            invariant
                i <= ports.len(),
                ports@ == nested.ports@,
                nested_map(*parent, instance@, ports@.take(i as int), parent_map@) == Ok::<
                    Seq<(Seq<char>, Seq<char>)>,
                    MacroRenderErrorText,
                >(entries@.map_values(|e: (String, String)| (e.0@, e.1@))),
            decreases ports.len() - i,
        {
            assert(ports@.take(i + 1).drop_last() =~= ports@.take(i as int));
            assert(ports@.take(i + 1).last() == ports@[i as int]);
            let net = match macro_pin_net(parent, instance, ports[i].name.as_str()) {
                Ok(n) => n,
                Err(e) => {
                    proof {
                        lemma_nested_err_stays(*parent, instance@, ports@, parent_map@, i + 1);
                    }
                    return Err(e);
                },
            };
            let resolved = parent_map.resolve(net.as_str());
            let ghost before = entries@.map_values(|e: (String, String)| (e.0@, e.1@));
            let ghost pair = (ports@[i as int].name@, resolved@);
            entries.push((ports[i].name.clone(), resolved));
            assert(entries@.map_values(|e: (String, String)| (e.0@, e.1@)) =~= before.push(pair));
            i = i + 1;
        }
        assert(ports@.take(ports.len() as int) =~= ports@);
        Ok(PortNetMap { entries })
    }
}

proof fn lemma_nested_err_stays(
    parent: MacroModel,
    id: Seq<char>,
    ports: Seq<MacroPort>,
    map: Seq<(Seq<char>, Seq<char>)>,
    k: int,
)
    requires
        0 <= k <= ports.len(),
        nested_map(parent, id, ports.take(k), map) is Err,
    ensures
        nested_map(parent, id, ports, map) == nested_map(parent, id, ports.take(k), map),
    decreases ports.len() - k,
{
    if k < ports.len() {
        assert(ports.take(k + 1).drop_last() =~= ports.take(k));
        lemma_nested_err_stays(parent, id, ports, map, k + 1);
    } else {
        assert(ports.take(k) =~= ports);
    }
}

// ---------------------------------------------------------------------------
// Text replacement
// ---------------------------------------------------------------------------
/// `s` with each occurrence of the non-empty `pat` replaced by `rep`,
/// occurrences taken from the left without overlap (as `str::replace`).
pub open spec fn replace_all(s: Seq<char>, pat: Seq<char>, rep: Seq<char>) -> Seq<char>
    decreases s.len(),
{
    if pat.len() == 0 || s.len() < pat.len() {
        s
    } else if s.take(pat.len() as int) == pat {
        rep + replace_all(s.skip(pat.len() as int), pat, rep)
    } else {
        seq![s[0]] + replace_all(s.skip(1), pat, rep)
    }
}

/// Whether `pat` occurs in `v` at `i`.
fn occurs_at(v: &Vec<char>, i: usize, pat: &Vec<char>) -> (r: bool)
    requires
        i <= v.len(),
    ensures
        r == (i + pat.len() <= v.len() && v@.skip(i as int).take(pat.len() as int) == pat@),
{
    if pat.len() > v.len() - i {
        return false;
    }
    let mut k: usize = 0;
    while k < pat.len()
        invariant
            i + pat.len() <= v.len(),
            k <= pat.len(),
            forall|q: int| 0 <= q < k ==> v@[i + q] == pat@[q],
        decreases pat.len() - k,
    {
        if v[i + k] != pat[k] {
            assert(v@.skip(i as int).take(pat.len() as int)[k as int] != pat@[k as int]);
            return false;
        }
        k = k + 1;
    }
    assert(v@.skip(i as int).take(pat.len() as int) =~= pat@);
    true
}

/// `s` with each occurrence of `pat` replaced by `rep`, from the left.
fn replace_text(s: &str, pat: &str, rep: &str) -> (r: String)
    requires
        pat@.len() > 0,
    ensures
        r@ == replace_all(s@, pat@, rep@),
{
    let v = chars_of(s);
    let p = chars_of(pat);
    let ghost total = replace_all(s@, pat@, rep@);
    let mut out = String::new();
    let mut i: usize = 0;
    assert(v@.skip(0) =~= v@);
    while i < v.len()
        invariant
            i <= v.len(),
            v@ == s@,
            p@ == pat@,
            p@.len() > 0,
            out@ + replace_all(v@.skip(i as int), pat@, rep@) == total,
        decreases v.len() - i,
    {
        let ghost rest = v@.skip(i as int);
        if occurs_at(&v, i, &p) {
            assert(rest.skip(p.len() as int) =~= v@.skip(i + p.len()));
            push_str(&mut out, rep);
            assert(out@ + replace_all(v@.skip(i + p.len()), pat@, rep@) =~= total);
            i = i + p.len();
        } else {
            assert(rest.skip(1) =~= v@.skip(i + 1));
            assert(rest[0] == v@[i as int]);
            proof {
                if rest.len() < pat@.len() {
                    assert(replace_all(rest.skip(1), pat@, rep@) == rest.skip(1));
                    assert(rest =~= seq![rest[0]] + rest.skip(1));
                }
            }
            out.push(v[i]);
            assert(out@ + replace_all(v@.skip(i + 1), pat@, rep@) =~= total);
            i = i + 1;
        }
    }
    assert(v@.skip(v.len() as int) =~= Seq::<char>::empty());
    out
}

// ---------------------------------------------------------------------------
// Compact models
// ---------------------------------------------------------------------------
/// `s` with `{<port>}` replaced by the net the port stands for, port by port.
pub open spec fn fill_ports(s: Seq<char>, ports: Seq<MacroPort>, map: Seq<(Seq<char>, Seq<char>)>) -> Seq<
    char,
>
    decreases ports.len(),
{
    if ports.len() == 0 {
        s
    } else {
        replace_all(
            fill_ports(s, ports.drop_last(), map),
            seq!['{'] + ports.last().name@ + seq!['}'],
            resolve_net(map, ports.last().name@),
        )
    }
}

/// A compact-model line: `{instance}` replaced by the instance path, then
/// each `{<port>}` by the net the port stands for.
pub open spec fn fill_template(
    template: Seq<char>,
    instance_path: Seq<char>,
    ports: Seq<MacroPort>,
    map: Seq<(Seq<char>, Seq<char>)>,
) -> Seq<char> {
    fill_ports(replace_all(template, "{instance}"@, instance_path), ports, map)
}

/// The lines of the compact small-signal model of `m` placed at
/// `instance_path`, or the error that `m` has no compact model.
pub open spec fn compact_lines(
    m: MacroModel,
    instance_path: Seq<char>,
    map: Seq<(Seq<char>, Seq<char>)>,
) -> Result<Seq<Seq<char>>, MacroRenderErrorText> {
    match m.small_signal {
        None => Err(MacroRenderErrorText::MissingCompactSmallSignalModel { macro_name: m.name@ }),
        Some(ss) => Ok(
            ss.elements@.map_values(
                |e: MacroSmallSignalElement| fill_template(e.template@, instance_path, m.ports@, map),
            ),
        ),
    }
}

fn render_compact_small_signal_template(
    template: &str,
    instance_path: &str,
    macro_model: &MacroModel,
    port_map: &PortNetMap,
) -> (r: String)
    ensures
        r@ == fill_template(template@, instance_path@, macro_model.ports@, port_map@),
{
    proof {
        reveal_strlit("{instance}");
    }
    let mut rendered = replace_text(template, "{instance}", instance_path);
    let ghost start = rendered@;
    let ports = &macro_model.ports;
    let mut i: usize = 0;
    while i < ports.len()
        invariant
            i <= ports.len(),
            rendered@ == fill_ports(start, ports@.take(i as int), port_map@),
        decreases ports.len() - i,
    {
        assert(ports@.take(i + 1).drop_last() =~= ports@.take(i as int));
        assert(ports@.take(i + 1).last() == ports@[i as int]);
        let mut placeholder = String::new();
        placeholder.push('{');
        push_str(&mut placeholder, ports[i].name.as_str());
        placeholder.push('}');
        assert(placeholder@ =~= seq!['{'] + ports@[i as int].name@ + seq!['}']);
        let net = port_map.resolve(ports[i].name.as_str());
        rendered = replace_text(rendered.as_str(), placeholder.as_str(), net.as_str());
        i = i + 1;
    }
    assert(ports@.take(ports.len() as int) =~= ports@);
    rendered
}

fn push_compact_small_signal_lines(
    macro_model: &MacroModel,
    instance_path: &str,
    port_map: &PortNetMap,
    lines: &mut Vec<String>,
) -> (r: Result<(), MacroRenderError>)
    ensures
        match r {
            Ok(()) => compact_lines(*macro_model, instance_path@, port_map@) matches Ok(ls)
                && texts(final(lines)@) == texts(old(lines)@) + ls,
            Err(e) => compact_lines(*macro_model, instance_path@, port_map@) == Err::<
                Seq<Seq<char>>,
                MacroRenderErrorText,
            >(e@),
        },
{
    let small_signal = match &macro_model.small_signal {
        Some(s) => s,
        None => {
            return Err(
                MacroRenderError::MissingCompactSmallSignalModel {
                    macro_name: macro_model.name.clone(),
                },
            );
        },
    };
    let ghost start = texts(lines@);
    let ghost all = small_signal.elements@.map_values(
        |e: MacroSmallSignalElement|
            fill_template(e.template@, instance_path@, macro_model.ports@, port_map@),
    );
    let mut i: usize = 0;
    while i < small_signal.elements.len()
        invariant
            i <= small_signal.elements.len(),
            macro_model.small_signal == Some(*small_signal),
            all == small_signal.elements@.map_values(
                |e: MacroSmallSignalElement|
                    fill_template(e.template@, instance_path@, macro_model.ports@, port_map@),
            ),
            texts(lines@) == start + all.take(i as int),
        decreases small_signal.elements.len() - i,
    {
        let line = render_compact_small_signal_template(
            small_signal.elements[i].template.as_str(),
            instance_path,
            macro_model,
            port_map,
        );
        let ghost before = texts(lines@);
        let ghost lv = line@;
        lines.push(line);
        assert(texts(lines@) =~= before.push(lv));
        assert(all.take(i + 1) =~= all.take(i as int).push(all[i as int]));
        i = i + 1;
    }
    assert(all.take(small_signal.elements.len() as int) =~= all);
    Ok(())
}

// ---------------------------------------------------------------------------
// Expansion to primitives
// ---------------------------------------------------------------------------
/// Whether nested macros with a compact model are rendered by it in `mode`
/// rather than expanded.
pub open spec fn stops_at_compact(mode: MacroSmallSignalMode) -> bool {
    mode is CompactWhenAvailable
}

/// The net in the rendered netlist of pin `pin` of instance `id` of `m`.
pub open spec fn resolved_pin_net(
    m: MacroModel,
    id: Seq<char>,
    pin: Seq<char>,
    map: Seq<(Seq<char>, Seq<char>)>,
) -> Result<Seq<char>, MacroRenderErrorText> {
    match connected_net_spec(m.circuit.connections@, id, pin) {
        None => Err(MacroRenderErrorText::MissingConnectedPin { macro_name: m.name@, instance: id, pin }),
        Some(n) => Ok(resolve_net(map, n)),
    }
}

/// The `ro` and `gm` lines of the branches of instance `id` of `m`, named by
/// the instance path, on the nets its pins lead to.
pub open spec fn expanded_branch_lines(
    m: MacroModel,
    id: Seq<char>,
    instance_path: Seq<char>,
    map: Seq<(Seq<char>, Seq<char>)>,
    branches: Seq<SmallSignalBranch>,
) -> Result<Seq<Seq<char>>, MacroRenderErrorText>
    decreases branches.len(),
{
    if branches.len() == 0 {
        Ok(seq![])
    } else {
        match expanded_branch_lines(m, id, instance_path, map, branches.drop_last()) {
            Err(e) => Err(e),
            Ok(prev) => {
                let b = branches.last();
                match resolved_pin_net(m, id, b.vd@, map) {
                    Err(e) => Err(e),
                    Ok(vd) => match resolved_pin_net(m, id, b.vg@, map) {
                        Err(e) => Err(e),
                        Ok(vg) => match resolved_pin_net(m, id, b.vs@, map) {
                            Err(e) => Err(e),
                            Ok(vs) => Ok(prev + branch_lines_of(instance_path, b, vd, vg, vs)),
                        },
                    },
                }
            },
        }
    }
}

/// The lines of a primitive instance `id` of `m` at `instance_path`: a blank
/// line, a comment naming it, then its branch elements.
pub open spec fn primitive_block(
    m: MacroModel,
    pcat: Seq<PrimitiveManifest>,
    p: Seq<char>,
    id: Seq<char>,
    instance_path: Seq<char>,
    map: Seq<(Seq<char>, Seq<char>)>,
) -> Result<Seq<Seq<char>>, MacroRenderErrorText> {
    match lookup_primitive(pcat, p) {
        None => Err(MacroRenderErrorText::MissingPrimitive { primitive: p }),
        Some(prim) => match prim.small_signal {
            None => Err(MacroRenderErrorText::MissingSmallSignalModel { primitive: p }),
            Some(ss) => match expanded_branch_lines(m, id, instance_path, map, ss.branches@) {
                Err(e) => Err(e),
                Ok(ls) => Ok(
                    seq![seq![], "* instance "@ + instance_path + " ("@ + prim.name@ + seq![')']]
                        + ls,
                ),
            },
        },
    }
}

/// The lines of one instance of `m`, whose enclosing instances are `path`:
/// a primitive's branch elements, or a nested macro by its compact model or
/// expanded in turn, as `mode` says. `fuel` bounds how deep nested macros
/// are expanded.
pub open spec fn expand_step(
    pcat: Seq<PrimitiveManifest>,
    mcat: Seq<MacroModel>,
    m: MacroModel,
    inst: Instance,
    path: Seq<Seq<char>>,
    map: Seq<(Seq<char>, Seq<char>)>,
    mode: MacroSmallSignalMode,
    fuel: nat,
) -> Result<Seq<Seq<char>>, MacroRenderErrorText>
    decreases fuel, 0nat,
{
    let inner = path.push(inst.id@);
    let instance_path = join(inner, "__"@);
    match primitive_of(inst) {
        Some(p) => primitive_block(m, pcat, p, inst.id@, instance_path, map),
        None => match macro_of(inst) {
            None => Ok(seq![]),
            Some(r) => match lookup_macro(mcat, r) {
                None => Err(MacroRenderErrorText::MissingMacro { macro_name: r }),
                Some(nm) => match nested_map(m, inst.id@, nm.ports@, map) {
                    Err(e) => Err(e),
                    Ok(inner_map) => {
                        let head = seq![seq![], "* nested macro instance "@ + instance_path];
                        if mode is Compact || (mode is CompactWhenAvailable && nm.small_signal is Some) {
                            match compact_lines(nm, instance_path, inner_map) {
                                Err(e) => Err(e),
                                Ok(ls) => Ok(head + ls),
                            }
                        } else if fuel == 0 {
                            Ok(head)
                        } else {
                            match expand_walk(
                                pcat,
                                mcat,
                                nm,
                                nm.circuit.instances@,
                                inner,
                                inner_map,
                                mode,
                                (fuel - 1) as nat,
                            ) {
                                Err(e) => Err(e),
                                Ok(ls) => Ok(head + ls),
                            }
                        }
                    },
                },
            },
        },
    }
}

/// The lines of the instances `insts` of `m`, in order, or the first error.
pub open spec fn expand_walk(
    pcat: Seq<PrimitiveManifest>,
    mcat: Seq<MacroModel>,
    m: MacroModel,
    insts: Seq<Instance>,
    path: Seq<Seq<char>>,
    map: Seq<(Seq<char>, Seq<char>)>,
    mode: MacroSmallSignalMode,
    fuel: nat,
) -> Result<Seq<Seq<char>>, MacroRenderErrorText>
    decreases fuel, insts.len(),
{
    if insts.len() == 0 {
        Ok(seq![])
    } else {
        match expand_walk(pcat, mcat, m, insts.drop_last(), path, map, mode, fuel) {
            Err(e) => Err(e),
            Ok(prev) => match expand_step(pcat, mcat, m, insts.last(), path, map, mode, fuel) {
                Err(e) => Err(e),
                Ok(ls) => Ok(prev + ls),
            },
        }
    }
}

fn resolved_instance_pin_net(
    macro_model: &MacroModel,
    instance: &str,
    pin: &str,
    port_map: &PortNetMap,
) -> (r: Result<String, MacroRenderError>)
    ensures
        render_result(r) == resolved_pin_net(*macro_model, instance@, pin@, port_map@),
{
    match macro_pin_net(macro_model, instance, pin) {
        Ok(local) => Ok(port_map.resolve(local.as_str())),
        Err(e) => Err(e),
    }
}

fn push_spaced(line: &mut String, part: &str)
    ensures
        final(line)@ == old(line)@ + seq![' '] + part@,
{
    line.push(' ');
    push_str(line, part);
}

proof fn lemma_branches_err_stays(
    m: MacroModel,
    id: Seq<char>,
    instance_path: Seq<char>,
    map: Seq<(Seq<char>, Seq<char>)>,
    branches: Seq<SmallSignalBranch>,
    k: int,
)
    requires
        0 <= k <= branches.len(),
        expanded_branch_lines(m, id, instance_path, map, branches.take(k)) is Err,
    ensures
        expanded_branch_lines(m, id, instance_path, map, branches) == expanded_branch_lines(
            m,
            id,
            instance_path,
            map,
            branches.take(k),
        ),
    decreases branches.len() - k,
{
    if k < branches.len() {
        assert(branches.take(k + 1).drop_last() =~= branches.take(k));
        lemma_branches_err_stays(m, id, instance_path, map, branches, k + 1);
    } else {
        assert(branches.take(k) =~= branches);
    }
}

/// Appends the lines of primitive instance `id` of `macro_model`.
fn push_primitive_small_signal(
    macro_model: &MacroModel,
    primitive_catalog: &PrimitiveCatalog,
    primitive_name: &str,
    id: &String,
    instance_path: &String,
    port_map: &PortNetMap,
    lines: &mut Vec<String>,
) -> (r: Result<(), MacroRenderError>)
    ensures
        match r {
            Ok(()) => primitive_block(
                *macro_model,
                primitive_catalog@,
                primitive_name@,
                id@,
                instance_path@,
                port_map@,
            ) matches Ok(ls) && texts(final(lines)@) == texts(old(lines)@) + ls,
            Err(e) => primitive_block(
                *macro_model,
                primitive_catalog@,
                primitive_name@,
                id@,
                instance_path@,
                port_map@,
            ) == Err::<Seq<Seq<char>>, MacroRenderErrorText>(e@),
        },
{
    let primitive = match primitive_catalog.get(primitive_name) {
        Some(p) => p,
        None => {
            return Err(MacroRenderError::MissingPrimitive { primitive: string_from(primitive_name) });
        },
    };
    let small_signal = match &primitive.small_signal {
        Some(s) => s,
        None => {
            return Err(
                MacroRenderError::MissingSmallSignalModel { primitive: string_from(primitive_name) },
            );
        },
    };
    let ghost start = texts(lines@);
    lines.push(String::new());
    let mut comment = String::new();
    push_str(&mut comment, "* instance ");
    push_str(&mut comment, instance_path.as_str());
    push_str(&mut comment, " (");
    push_str(&mut comment, primitive.name.as_str());
    comment.push(')');
    let ghost head = seq![seq![], "* instance "@ + instance_path@ + " ("@ + primitive.name@ + seq![')']];
    assert(comment@ =~= head[1]);
    lines.push(comment);
    assert(texts(lines@) =~= start + head);
    let ghost branches = small_signal.branches@;
    let ghost m = *macro_model;
    let ghost map = port_map@;
    let mut k: usize = 0;
    assert(branches.take(0) =~= Seq::<SmallSignalBranch>::empty());
    while k < small_signal.branches.len()
        invariant
            k <= small_signal.branches.len(),
            branches == small_signal.branches@,
            m == *macro_model,
            map == port_map@,
            lookup_primitive(primitive_catalog@, primitive_name@) == Some(*primitive),
            primitive.small_signal == Some(*small_signal),
            expanded_branch_lines(m, id@, instance_path@, map, branches.take(k as int)) matches Ok(ls)
                && texts(lines@) == start + head + ls,
        decreases small_signal.branches.len() - k,
    {
        let b = &small_signal.branches[k];
        assert(branches.take(k + 1).drop_last() =~= branches.take(k as int));
        assert(branches.take(k + 1).last() == *b);
        let vd = match resolved_instance_pin_net(macro_model, id.as_str(), b.vd.as_str(), port_map) {
            Ok(n) => n,
            Err(e) => {
                proof {
                    lemma_branches_err_stays(m, id@, instance_path@, map, branches, k + 1);
                    assert(branches.take(branches.len() as int) =~= branches);
                }
                return Err(e);
            },
        };
        let vg = match resolved_instance_pin_net(macro_model, id.as_str(), b.vg.as_str(), port_map) {
            Ok(n) => n,
            Err(e) => {
                proof {
                    lemma_branches_err_stays(m, id@, instance_path@, map, branches, k + 1);
                    assert(branches.take(branches.len() as int) =~= branches);
                }
                return Err(e);
            },
        };
        let vs = match resolved_instance_pin_net(macro_model, id.as_str(), b.vs.as_str(), port_map) {
            Ok(n) => n,
            Err(e) => {
                proof {
                    lemma_branches_err_stays(m, id@, instance_path@, map, branches, k + 1);
                    assert(branches.take(branches.len() as int) =~= branches);
                }
                return Err(e);
            },
        };
        let ipath = instance_path.as_str();
        let mut ro_line = small_signal_element_name("R", "ro", ipath, b.name.as_str());
        push_spaced(&mut ro_line, vd.as_str());
        push_spaced(&mut ro_line, vs.as_str());
        let ro_param = small_signal_param_name("ro", ipath, b.name.as_str());
        push_spaced(&mut ro_line, ro_param.as_str());
        let mut gm_line = small_signal_element_name("G", "gm", ipath, b.name.as_str());
        push_spaced(&mut gm_line, vd.as_str());
        push_spaced(&mut gm_line, vs.as_str());
        push_spaced(&mut gm_line, vg.as_str());
        push_spaced(&mut gm_line, vs.as_str());
        let gm_param = small_signal_param_name("gm", ipath, b.name.as_str());
        push_spaced(&mut gm_line, gm_param.as_str());
        let ghost before = texts(lines@);
        let ghost new_lines = branch_lines_of(instance_path@, *b, vd@, vg@, vs@);
        assert(seq![ro_line@, gm_line@] =~= new_lines);
        lines.push(ro_line);
        lines.push(gm_line);
        assert(texts(lines@) =~= before + new_lines);
        k = k + 1;
    }
    assert(branches.take(small_signal.branches.len() as int) =~= branches);
    Ok(())
}

proof fn lemma_walk_err_stays(
    pcat: Seq<PrimitiveManifest>,
    mcat: Seq<MacroModel>,
    m: MacroModel,
    insts: Seq<Instance>,
    path: Seq<Seq<char>>,
    map: Seq<(Seq<char>, Seq<char>)>,
    mode: MacroSmallSignalMode,
    fuel: nat,
    k: int,
)
    requires
        0 <= k <= insts.len(),
        expand_walk(pcat, mcat, m, insts.take(k), path, map, mode, fuel) is Err,
    ensures
        expand_walk(pcat, mcat, m, insts, path, map, mode, fuel) == expand_walk(
            pcat,
            mcat,
            m,
            insts.take(k),
            path,
            map,
            mode,
            fuel,
        ),
    decreases insts.len() - k,
{
    if k < insts.len() {
        assert(insts.take(k + 1).drop_last() =~= insts.take(k));
        lemma_walk_err_stays(pcat, mcat, m, insts, path, map, mode, fuel, k + 1);
    } else {
        assert(insts.take(k) =~= insts);
    }
}

/// Appends the small-signal lines of the instances of `macro_model`, whose
/// enclosing instances are `path` and whose ports lead where `port_map`
/// says; nested macros are expanded or rendered by their compact model as
/// `mode` says.
fn expand_macro_small_signal(
    macro_model: &MacroModel,
    primitive_catalog: &PrimitiveCatalog,
    macro_catalog: &MacroCatalog,
    path: &mut Vec<String>,
    port_map: &PortNetMap,
    mode: MacroSmallSignalMode,
    lines: &mut Vec<String>,
    Ghost(fuel): Ghost<nat>,
    Ghost(rank): Ghost<spec_fn(Seq<char>) -> nat>,
) -> (r: Result<(), MacroRenderError>)
    requires
        ranks_below_size(macro_catalog@, rank, stops_at_compact(mode)),
        fuel <= macro_catalog@.len(),
        forall|c: Seq<char>| #[trigger]
            expands_into(macro_catalog@, *macro_model, c, stops_at_compact(mode)) ==> rank(c) < fuel,
    ensures
        match r {
            Ok(()) => final(path)@ == old(path)@ && (expand_walk(
                primitive_catalog@,
                macro_catalog@,
                *macro_model,
                macro_model.circuit.instances@,
                texts(old(path)@),
                port_map@,
                mode,
                fuel,
            ) matches Ok(ls) && texts(final(lines)@) == texts(old(lines)@) + ls),
            Err(e) => expand_walk(
                primitive_catalog@,
                macro_catalog@,
                *macro_model,
                macro_model.circuit.instances@,
                texts(old(path)@),
                port_map@,
                mode,
                fuel,
            ) == Err::<Seq<Seq<char>>, MacroRenderErrorText>(e@),
        },
    decreases fuel,
{
    let ghost pcat = primitive_catalog@;
    let ghost mcat = macro_catalog@;
    let ghost m = *macro_model;
    let ghost insts = macro_model.circuit.instances@;
    let ghost p0 = path@;
    let ghost l0 = texts(lines@);
    let ghost map = port_map@;
    let stop = match mode {
        MacroSmallSignalMode::CompactWhenAvailable => true,
        _ => false,
    };
    let mut i: usize = 0;
    assert(insts.take(0) =~= Seq::<Instance>::empty());
    assert(l0 + Seq::<Seq<char>>::empty() =~= l0);
    while i < macro_model.circuit.instances.len()
        invariant
            i <= macro_model.circuit.instances.len(),
            pcat == primitive_catalog@,
            mcat == macro_catalog@,
            m == *macro_model,
            insts == macro_model.circuit.instances@,
            map == port_map@,
            p0 == old(path)@,
            l0 == texts(old(lines)@),
            path@ == p0,
            stop == stops_at_compact(mode),
            ranks_below_size(mcat, rank, stop),
            fuel <= mcat.len(),
            forall|c: Seq<char>| #[trigger] expands_into(mcat, m, c, stop) ==> rank(c) < fuel,
            expand_walk(pcat, mcat, m, insts.take(i as int), texts(p0), map, mode, fuel) matches Ok(ls)
                && texts(lines@) == l0 + ls,
        decreases macro_model.circuit.instances.len() - i,
    {
        let inst = &macro_model.circuit.instances[i];
        assert(insts.take(i + 1).drop_last() =~= insts.take(i as int));
        assert(insts.take(i + 1).last() == *inst);
        let ghost mid = texts(lines@);
        let ghost prev = mid.skip(l0.len() as int);
        assert(mid =~= l0 + prev);
        path.push(inst.id.clone());
        let instance_path = join_strings(path, "__");
        let ghost inner = texts(p0).push(inst.id@);
        assert(texts(path@) =~= inner);
        match inst.primitive_name() {
            Some(p) => {
                match push_primitive_small_signal(
                    macro_model,
                    primitive_catalog,
                    p,
                    &inst.id,
                    &instance_path,
                    port_map,
                    lines,
                ) {
                    Ok(()) => {},
                    Err(e) => {
                        proof {
                            assert(primitive_of(*inst) == Some(p@));
                            assert(expand_step(pcat, mcat, m, *inst, texts(p0), map, mode, fuel)
                                == primitive_block(m, pcat, p@, inst.id@, instance_path@, map));
                            lemma_walk_err_stays(pcat, mcat, m, insts, texts(p0), map, mode, fuel, i + 1);
                        }
                        return Err(e);
                    },
                }
            },
            None => match inst.macro_name() {
                None => {},
                Some(r) => {
                    let nested = match macro_catalog.get(r) {
                        Some(nm) => nm,
                        None => {
                            proof {
                                lemma_walk_err_stays(pcat, mcat, m, insts, texts(p0), map, mode, fuel, i + 1);
                            }
                            return Err(MacroRenderError::MissingMacro { macro_name: string_from(r) });
                        },
                    };
                    let nested_map_exec = match PortNetMap::from_instance(
                        macro_model,
                        inst.id.as_str(),
                        nested,
                        port_map,
                    ) {
                        Ok(pm) => pm,
                        Err(e) => {
                            proof {
                                lemma_walk_err_stays(pcat, mcat, m, insts, texts(p0), map, mode, fuel, i + 1);
                            }
                            return Err(e);
                        },
                    };
                    lines.push(String::new());
                    let mut comment = String::new();
                    push_str(&mut comment, "* nested macro instance ");
                    push_str(&mut comment, instance_path.as_str());
                    let ghost head = seq![seq![], "* nested macro instance "@ + instance_path@];
                    assert(comment@ =~= head[1]);
                    lines.push(comment);
                    assert(texts(lines@) =~= mid + head);
                    let compact = match mode {
                        MacroSmallSignalMode::Expand => false,
                        MacroSmallSignalMode::Compact => true,
                        MacroSmallSignalMode::CompactWhenAvailable => nested.small_signal.is_some(),
                    };
                    if compact {
                        match push_compact_small_signal_lines(
                            nested,
                            instance_path.as_str(),
                            &nested_map_exec,
                            lines,
                        ) {
                            Ok(()) => {},
                            Err(e) => {
                                proof {
                                    lemma_walk_err_stays(pcat, mcat, m, insts, texts(p0), map, mode, fuel, i + 1);
                                }
                                return Err(e);
                            },
                        }
                    } else {
                        proof {
                            let k = lemma_found_entry(mcat, r@);
                            assert(expands_into(mcat, m, r@, stop));
                            assert forall|c: Seq<char>| #[trigger]
                                expands_into(mcat, *nested, c, stop) implies rank(c) < fuel - 1 by {
                                assert(expands_into(mcat, mcat[k], c, stop));
                            }
                        }
                        match expand_macro_small_signal(
                            nested,
                            primitive_catalog,
                            macro_catalog,
                            path,
                            &nested_map_exec,
                            mode,
                            lines,
                            Ghost((fuel - 1) as nat),
                            Ghost(rank),
                        ) {
                            Ok(()) => {},
                            Err(e) => {
                                proof {
                                    lemma_walk_err_stays(pcat, mcat, m, insts, texts(p0), map, mode, fuel, i + 1);
                                }
                                return Err(e);
                            },
                        }
                    }
                },
            },
        }
        path.pop();
        assert(path@ =~= p0);
        i = i + 1;
    }
    assert(insts.take(macro_model.circuit.instances.len() as int) =~= insts);
    Ok(())
}

// ---------------------------------------------------------------------------
// Small-signal netlists of macros
// ---------------------------------------------------------------------------
/// The small-signal netlist of a valid macro with its nested macros treated
/// as `mode` says: a header, then the lines of its instances. Nesting is
/// followed at most as deep as the catalog is large, which suffices when no
/// cycle is reached.
pub open spec fn expanded_netlist(
    m: MacroModel,
    pcat: Seq<PrimitiveManifest>,
    mcat: Seq<MacroModel>,
    mode: MacroSmallSignalMode,
) -> Result<Seq<char>, MacroRenderErrorText> {
    let errs = macro_errors(m, pcat, mcat);
    if errs.len() > 0 {
        Err(MacroRenderErrorText::InvalidMacro(errs))
    } else {
        match expand_walk(
            pcat,
            mcat,
            m,
            m.circuit.instances@,
            seq![],
            identity_map(m.ports@),
            mode,
            mcat.len(),
        ) {
            Err(e) => Err(e),
            Ok(ls) => Ok(
                join(seq!["* Small-signal macro: "@ + m.name@] + ls, seq!['\n']) + seq!['\n'],
            ),
        }
    }
}

/// The small-signal netlist of a valid macro by its own compact model.
pub open spec fn compact_netlist(m: MacroModel, pcat: Seq<PrimitiveManifest>, mcat: Seq<MacroModel>) -> Result<
    Seq<char>,
    MacroRenderErrorText,
> {
    let errs = macro_errors(m, pcat, mcat);
    if errs.len() > 0 {
        Err(MacroRenderErrorText::InvalidMacro(errs))
    } else {
        match compact_lines(m, m.name@, identity_map(m.ports@)) {
            Err(e) => Err(e),
            Ok(ls) => Ok(
                join(seq!["* Compact small-signal macro: "@ + m.name@] + ls, seq!['\n'])
                    + seq!['\n'],
            ),
        }
    }
}

/// The small-signal netlist of a macro in `mode`: expanded, by its compact
/// model, or by its compact model where it has one and expanded otherwise.
pub open spec fn macro_small_signal_netlist(
    m: MacroModel,
    pcat: Seq<PrimitiveManifest>,
    mcat: Seq<MacroModel>,
    mode: MacroSmallSignalMode,
) -> Result<Seq<char>, MacroRenderErrorText> {
    match mode {
        MacroSmallSignalMode::Expand => expanded_netlist(m, pcat, mcat, mode),
        MacroSmallSignalMode::Compact => compact_netlist(m, pcat, mcat),
        MacroSmallSignalMode::CompactWhenAvailable => if m.small_signal is Some {
            compact_netlist(m, pcat, mcat)
        } else {
            expanded_netlist(m, pcat, mcat, mode)
        },
    }
}

/// How the modes relate: an invalid macro is refused whatever the mode; a
/// valid macro with no compact model cannot be rendered compact; a macro
/// with a compact model renders the same compact and compact where
/// available; and a rendered netlist ends its last line and begins with the
/// header of its kind and the macro's name.
pub proof fn law_render_modes(
    m: MacroModel,
    pcat: Seq<PrimitiveManifest>,
    mcat: Seq<MacroModel>,
    mode: MacroSmallSignalMode,
)
    ensures
        macro_errors(m, pcat, mcat).len() > 0 ==> macro_small_signal_netlist(m, pcat, mcat, mode)
            == Err::<Seq<char>, MacroRenderErrorText>(
            MacroRenderErrorText::InvalidMacro(macro_errors(m, pcat, mcat)),
        ),
        macro_errors(m, pcat, mcat).len() == 0 && m.small_signal is None
            ==> macro_small_signal_netlist(m, pcat, mcat, MacroSmallSignalMode::Compact) == Err::<
            Seq<char>,
            MacroRenderErrorText,
        >(MacroRenderErrorText::MissingCompactSmallSignalModel { macro_name: m.name@ }),
        m.small_signal is Some ==> macro_small_signal_netlist(
            m,
            pcat,
            mcat,
            MacroSmallSignalMode::CompactWhenAvailable,
        ) == macro_small_signal_netlist(m, pcat, mcat, MacroSmallSignalMode::Compact),
        macro_small_signal_netlist(m, pcat, mcat, mode) matches Ok(s) ==> {
            &&& s.len() > 0
            &&& s.last() == '\n'
            &&& (("* Compact small-signal macro: "@ + m.name@).is_prefix_of(s) || (
            "* Small-signal macro: "@ + m.name@).is_prefix_of(s))
        },
{
    if let Ok(s) = macro_small_signal_netlist(m, pcat, mcat, mode) {
        let compact = match mode {
            MacroSmallSignalMode::Expand => false,
            MacroSmallSignalMode::Compact => true,
            MacroSmallSignalMode::CompactWhenAvailable => m.small_signal is Some,
        };
        if compact {
            let ls = compact_lines(m, m.name@, identity_map(m.ports@))->Ok_0;
            let parts = seq!["* Compact small-signal macro: "@ + m.name@] + ls;
            lemma_join_starts_with_first(parts, seq!['\n']);
            assert(parts[0] == "* Compact small-signal macro: "@ + m.name@);
            let j = join(parts, seq!['\n']);
            assert(s == j + seq!['\n']);
            assert(s.subrange(0, parts[0].len() as int) =~= j.subrange(0, parts[0].len() as int));
        } else {
            let ls = expand_walk(
                pcat,
                mcat,
                m,
                m.circuit.instances@,
                seq![],
                identity_map(m.ports@),
                mode,
                mcat.len(),
            )->Ok_0;
            let parts = seq!["* Small-signal macro: "@ + m.name@] + ls;
            lemma_join_starts_with_first(parts, seq!['\n']);
            assert(parts[0] == "* Small-signal macro: "@ + m.name@);
            let j = join(parts, seq!['\n']);
            assert(s == j + seq!['\n']);
            assert(s.subrange(0, parts[0].len() as int) =~= j.subrange(0, parts[0].len() as int));
        }
    }
}

/// Rendering `m` in `mode` ends: it expands no nested macro, or no macro it
/// expands into uses itself.
pub open spec fn small_signal_render_ends(
    pcat: Seq<PrimitiveManifest>,
    mcat: Seq<MacroModel>,
    m: MacroModel,
    mode: MacroSmallSignalMode,
) -> bool {
    ||| mode is Compact
    ||| (mode is CompactWhenAvailable && m.small_signal is Some)
    ||| macro_errors(m, pcat, mcat).len() > 0
    ||| no_cycle_below(mcat, m, stops_at_compact(mode))
}

/// The small-signal netlist of a testbench's macro, followed by the
/// testbench: the macro is expanded at the top even when it has a compact
/// model, unless `mode` asks for compact models only.
pub open spec fn macro_testbench_netlist(
    t: TestbenchSpec,
    pcat: Seq<PrimitiveManifest>,
    mcat: Seq<MacroModel>,
    mode: MacroSmallSignalMode,
) -> Result<Seq<char>, MacroRenderErrorText> {
    match t.dut {
        None => Err(MacroRenderErrorText::MissingTestbenchDut { testbench: t.name@ }),
        Some(DutRef::Circuit(c)) => Err(
            MacroRenderErrorText::UnsupportedCircuitDut { testbench: t.name@, circuit: c@ },
        ),
        Some(DutRef::Macro(name)) => match lookup_macro(mcat, name@) {
            None => Err(MacroRenderErrorText::MissingMacro { macro_name: name@ }),
            Some(m) => {
                let netlist = if mode is CompactWhenAvailable {
                    expanded_netlist(m, pcat, mcat, mode)
                } else {
                    macro_small_signal_netlist(m, pcat, mcat, mode)
                };
                match netlist {
                    Err(e) => Err(e),
                    Ok(n) => Ok(with_testbench(n, t)),
                }
            },
        },
    }
}

/// Rendering the testbench's macro in `mode` ends.
pub open spec fn testbench_render_ends(
    t: TestbenchSpec,
    pcat: Seq<PrimitiveManifest>,
    mcat: Seq<MacroModel>,
    mode: MacroSmallSignalMode,
) -> bool {
    t.dut matches Some(DutRef::Macro(name)) && lookup_macro(mcat, name@) matches Some(m) ==> (
    mode is Compact || macro_errors(m, pcat, mcat).len() > 0 || no_cycle_below(
        mcat,
        m,
        stops_at_compact(mode),
    ))
}

fn render_macro_expandable_small_signal_netlist(
    macro_model: &MacroModel,
    primitive_catalog: &PrimitiveCatalog,
    macro_catalog: &MacroCatalog,
    mode: MacroSmallSignalMode,
) -> (r: Result<String, MacroRenderError>)
    requires
        macro_errors(*macro_model, primitive_catalog@, macro_catalog@).len() > 0 || no_cycle_below(
            macro_catalog@,
            *macro_model,
            stops_at_compact(mode),
        ),
    ensures
        render_result(r) == expanded_netlist(
            *macro_model,
            primitive_catalog@,
            macro_catalog@,
            mode,
        ),
{
    let validation = validate_macro_model(macro_model, primitive_catalog, macro_catalog);
    if validation.len() > 0 {
        return Err(MacroRenderError::InvalidMacro(validation));
    }
    assert(macro_errors(*macro_model, primitive_catalog@, macro_catalog@).len() == 0);
    let ghost rank = choose|rank: spec_fn(Seq<char>) -> nat| #[trigger] ranks_from(
        macro_catalog@,
        *macro_model,
        rank,
        stops_at_compact(mode),
    );
    let mut lines: Vec<String> = Vec::new();
    let mut header = String::new();
    push_str(&mut header, "* Small-signal macro: ");
    push_str(&mut header, macro_model.name.as_str());
    let ghost head = "* Small-signal macro: "@ + macro_model.name@;
    assert(header@ =~= head);
    lines.push(header);
    assert(texts(lines@) =~= seq![head]);
    let mut path: Vec<String> = Vec::new();
    assert(texts(path@) =~= Seq::<Seq<char>>::empty());
    let port_map = PortNetMap::identity(macro_model);
    match expand_macro_small_signal(
        macro_model,
        primitive_catalog,
        macro_catalog,
        &mut path,
        &port_map,
        mode,
        &mut lines,
        Ghost(macro_catalog@.len()),
        Ghost(rank),
    ) {
        Ok(()) => {},
        Err(e) => {
            return Err(e);
        },
    }
    let mut out = join_strings(&lines, "\n");
    out.push('\n');
    proof {
        reveal_strlit("\n");
        assert("\n"@ =~= seq!['\n']);
        assert(out@ == join(texts(lines@), seq!['\n']) + seq!['\n']);
    }
    Ok(out)
}

fn render_macro_expanded_small_signal_netlist(
    macro_model: &MacroModel,
    primitive_catalog: &PrimitiveCatalog,
    macro_catalog: &MacroCatalog,
) -> (r: Result<String, MacroRenderError>)
    requires
        macro_errors(*macro_model, primitive_catalog@, macro_catalog@).len() > 0 || no_cycle_below(
            macro_catalog@,
            *macro_model,
            false,
        ),
    ensures
        render_result(r) == expanded_netlist(
            *macro_model,
            primitive_catalog@,
            macro_catalog@,
            MacroSmallSignalMode::Expand,
        ),
{
    render_macro_expandable_small_signal_netlist(
        macro_model,
        primitive_catalog,
        macro_catalog,
        MacroSmallSignalMode::Expand,
    )
}

/// Renders a valid macro's small-signal netlist by its own compact model,
/// its ports standing for themselves and `{instance}` for its name.
pub fn render_macro_compact_small_signal_netlist(
    macro_model: &MacroModel,
    primitive_catalog: &PrimitiveCatalog,
    macro_catalog: &MacroCatalog,
) -> (r: Result<String, MacroRenderError>)
    ensures
        render_result(r) == compact_netlist(*macro_model, primitive_catalog@, macro_catalog@),
{
    let validation = validate_macro_model(macro_model, primitive_catalog, macro_catalog);
    if validation.len() > 0 {
        return Err(MacroRenderError::InvalidMacro(validation));
    }
    assert(macro_errors(*macro_model, primitive_catalog@, macro_catalog@).len() == 0);
    let port_map = PortNetMap::identity(macro_model);
    let mut lines: Vec<String> = Vec::new();
    let mut header = String::new();
    push_str(&mut header, "* Compact small-signal macro: ");
    push_str(&mut header, macro_model.name.as_str());
    let ghost head = "* Compact small-signal macro: "@ + macro_model.name@;
    assert(header@ =~= head);
    lines.push(header);
    assert(texts(lines@) =~= seq![head]);
    match push_compact_small_signal_lines(
        macro_model,
        macro_model.name.as_str(),
        &port_map,
        &mut lines,
    ) {
        Ok(()) => {},
        Err(e) => {
            return Err(e);
        },
    }
    let mut out = join_strings(&lines, "\n");
    out.push('\n');
    proof {
        reveal_strlit("\n");
        assert("\n"@ =~= seq!['\n']);
        assert(out@ == join(texts(lines@), seq!['\n']) + seq!['\n']);
    }
    Ok(out)
}

/// Renders a macro's small-signal netlist with its nested macros treated as
/// `mode` says. In `CompactWhenAvailable`, a macro with a compact model is
/// rendered by it, and otherwise expanded with its nested macros rendered by
/// their compact models where they have one.
pub fn render_macro_small_signal_netlist_with_mode(
    macro_model: &MacroModel,
    primitive_catalog: &PrimitiveCatalog,
    macro_catalog: &MacroCatalog,
    mode: MacroSmallSignalMode,
) -> (r: Result<String, MacroRenderError>)
    requires
        small_signal_render_ends(primitive_catalog@, macro_catalog@, *macro_model, mode),
    ensures
        render_result(r) == macro_small_signal_netlist(
            *macro_model,
            primitive_catalog@,
            macro_catalog@,
            mode,
        ),
{
    match mode {
        MacroSmallSignalMode::Expand => render_macro_expanded_small_signal_netlist(
            macro_model,
            primitive_catalog,
            macro_catalog,
        ),
        MacroSmallSignalMode::Compact => render_macro_compact_small_signal_netlist(
            macro_model,
            primitive_catalog,
            macro_catalog,
        ),
        MacroSmallSignalMode::CompactWhenAvailable => {
            if macro_model.small_signal.is_some() {
                render_macro_compact_small_signal_netlist(
                    macro_model,
                    primitive_catalog,
                    macro_catalog,
                )
            } else {
                render_macro_expandable_small_signal_netlist(
                    macro_model,
                    primitive_catalog,
                    macro_catalog,
                    MacroSmallSignalMode::CompactWhenAvailable,
                )
            }
        },
    }
}

/// Renders a macro's small-signal netlist, compact models standing for the
/// macros that have one.
pub fn render_macro_small_signal_netlist(
    macro_model: &MacroModel,
    primitive_catalog: &PrimitiveCatalog,
    macro_catalog: &MacroCatalog,
) -> (r: Result<String, MacroRenderError>)
    requires
        small_signal_render_ends(
            primitive_catalog@,
            macro_catalog@,
            *macro_model,
            MacroSmallSignalMode::CompactWhenAvailable,
        ),
    ensures
        render_result(r) == macro_small_signal_netlist(
            *macro_model,
            primitive_catalog@,
            macro_catalog@,
            MacroSmallSignalMode::CompactWhenAvailable,
        ),
{
    render_macro_small_signal_netlist_with_mode(
        macro_model,
        primitive_catalog,
        macro_catalog,
        MacroSmallSignalMode::CompactWhenAvailable,
    )
}

/// Renders the small-signal netlist of the catalog macro a testbench
/// exercises, followed by the testbench.
pub fn render_macro_testbench_small_signal_netlist_with_mode(
    testbench: &TestbenchSpec,
    primitive_catalog: &PrimitiveCatalog,
    macro_catalog: &MacroCatalog,
    mode: MacroSmallSignalMode,
) -> (r: Result<String, MacroRenderError>)
    requires
        testbench_render_ends(*testbench, primitive_catalog@, macro_catalog@, mode),
    ensures
        render_result(r) == macro_testbench_netlist(
            *testbench,
            primitive_catalog@,
            macro_catalog@,
            mode,
        ),
{
    let macro_name = match &testbench.dut {
        Some(DutRef::Macro(name)) => name,
        Some(DutRef::Circuit(circuit)) => {
            return Err(
                MacroRenderError::UnsupportedCircuitDut {
                    testbench: testbench.name.clone(),
                    circuit: circuit.clone(),
                },
            );
        },
        None => {
            return Err(MacroRenderError::MissingTestbenchDut { testbench: testbench.name.clone() });
        },
    };
    let macro_model = match macro_catalog.get(macro_name.as_str()) {
        Some(m) => m,
        None => {
            return Err(MacroRenderError::MissingMacro { macro_name: macro_name.clone() });
        },
    };
    let rendered = match mode {
        MacroSmallSignalMode::CompactWhenAvailable => render_macro_expandable_small_signal_netlist(
            macro_model,
            primitive_catalog,
            macro_catalog,
            MacroSmallSignalMode::CompactWhenAvailable,
        ),
        _ => render_macro_small_signal_netlist_with_mode(
            macro_model,
            primitive_catalog,
            macro_catalog,
            mode,
        ),
    };
    let mut netlist = match rendered {
        Ok(n) => n,
        Err(e) => {
            return Err(e);
        },
    };
    append_testbench(&mut netlist, testbench);
    Ok(netlist)
}

/// Renders the small-signal netlist of a testbench's macro, compact models
/// standing for the nested macros that have one, followed by the testbench.
pub fn render_macro_testbench_small_signal_netlist(
    testbench: &TestbenchSpec,
    primitive_catalog: &PrimitiveCatalog,
    macro_catalog: &MacroCatalog,
) -> (r: Result<String, MacroRenderError>)
    requires
        testbench_render_ends(
            *testbench,
            primitive_catalog@,
            macro_catalog@,
            MacroSmallSignalMode::CompactWhenAvailable,
        ),
    ensures
        render_result(r) == macro_testbench_netlist(
            *testbench,
            primitive_catalog@,
            macro_catalog@,
            MacroSmallSignalMode::CompactWhenAvailable,
        ),
{
    render_macro_testbench_small_signal_netlist_with_mode(
        testbench,
        primitive_catalog,
        macro_catalog,
        MacroSmallSignalMode::CompactWhenAvailable,
    )
}

} // verus!
