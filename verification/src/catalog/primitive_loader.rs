use vstd::prelude::*;
use vstd::relations::{sorted_by, total_ordering};
use crate::primitive::manifest::{Pin, PinRole, PrimitiveFiles, PrimitiveManifest};
use crate::primitive::small_signal::SmallSignalModel;
use crate::text::{lemma_text_order_total, str_eq, string_from, text_leq, text_order, texts};

verus! {

/// A JSON error of `serde_json`, carried through unchanged.
#[verifier::external_type_specification]
#[verifier::external_body]
pub struct ExJsonError(serde_json::Error);

/// Why a primitive could not be loaded.
#[derive(Debug)]
pub enum PrimitiveLoadError {
    Io(std::io::Error),
    Json(serde_json::Error),
    ExternalBuildJson { path: std::path::PathBuf, source: serde_json::Error },
    MissingPort { primitive: String, pin: String },
    MissingNetlistFile { primitive: String },
}

/// A port of a primitive as its manifest file declares it.
#[derive(Debug, Clone, PartialEq, Eq)]
pub struct RawPort {
    pub name: Option<String>,
    pub role: PinRole,
}

/// The files of a primitive as its manifest file declares them.
#[derive(Debug, Clone, PartialEq, Eq)]
pub struct RawPrimitiveFiles {
    pub netlist: Option<String>,
    pub build: Option<String>,
    pub symbol: Option<String>,
}

/// What a primitive manifest file declares, before defaults are applied:
/// `ports` maps each port key to its port.
#[derive(Debug, Clone, PartialEq, Eq)]
pub struct RawPrimitiveManifest {
    pub name: String,
    pub version: Option<String>,
    pub description: Option<String>,
    pub subckt_name: Option<String>,
    pub transistor_type: Option<String>,
    pub pin_order: Option<Vec<String>>,
    pub ports: Vec<(String, RawPort)>,
    pub files: RawPrimitiveFiles,
    pub small_signal: Option<SmallSignalModel>,
}

/// A load error, by its text; the outside errors by kind only.
pub enum LoadErrorText {
    Io,
    Json,
    ExternalBuildJson,
    MissingPort { primitive: Seq<char>, pin: Seq<char> },
    MissingNetlistFile { primitive: Seq<char> },
}

impl View for PrimitiveLoadError {
    type V = LoadErrorText;

    open spec fn view(&self) -> LoadErrorText {
        match self {
            PrimitiveLoadError::Io(_) => LoadErrorText::Io,
            PrimitiveLoadError::Json(_) => LoadErrorText::Json,
            PrimitiveLoadError::ExternalBuildJson { .. } => LoadErrorText::ExternalBuildJson,
            PrimitiveLoadError::MissingPort { primitive, pin } => LoadErrorText::MissingPort {
                primitive: primitive@,
                pin: pin@,
            },
            PrimitiveLoadError::MissingNetlistFile { primitive } =>
                LoadErrorText::MissingNetlistFile { primitive: primitive@ },
        }
    }
}

/// The port with key `key`, the first one when keys repeat.
pub open spec fn port_for(ports: Seq<(String, RawPort)>, key: Seq<char>) -> Option<RawPort>
    decreases ports.len(),
{
    if ports.len() == 0 {
        None
    } else if ports[0].0@ == key {
        Some(ports[0].1)
    } else {
        port_for(ports.drop_first(), key)
    }
}

/// The port keys in lexicographic order.
pub open spec fn sorted_keys(ports: Seq<(String, RawPort)>) -> Seq<Seq<char>> {
    ports.map_values(|p: (String, RawPort)| p.0@).sort_by(text_order())
}

/// The pin of port key `key`: the port's own name when it has one, else the
/// key.
pub open spec fn pin_name_of(port: RawPort, key: Seq<char>) -> Seq<char> {
    match port.name {
        Some(n) => n@,
        None => key,
    }
}

/// The pins in the given key order, or the first key without a port.
pub open spec fn pins_spec(
    primitive: Seq<char>,
    ports: Seq<(String, RawPort)>,
    order: Seq<Seq<char>>,
) -> Result<Seq<(Seq<char>, PinRole)>, LoadErrorText>
    decreases order.len(),
{
    if order.len() == 0 {
        Ok(seq![])
    } else {
        match pins_spec(primitive, ports, order.drop_last()) {
            Err(e) => Err(e),
            Ok(prev) => match port_for(ports, order.last()) {
                None => Err(LoadErrorText::MissingPort { primitive, pin: order.last() }),
                Some(port) => Ok(prev.push((pin_name_of(port, order.last()), port.role))),
            },
        }
    }
}

pub open spec fn pin_entries(v: Seq<Pin>) -> Seq<(Seq<char>, PinRole)> {
    v.map_values(|p: Pin| (p.name@, p.role))
}

pub open spec fn opt_text(o: Option<String>) -> Option<Seq<char>> {
    match o {
        Some(s) => Some(s@),
        None => None,
    }
}

/// The pin order of a manifest: the declared one, else the sorted port keys.
pub open spec fn pin_order_of(raw: RawPrimitiveManifest) -> Seq<Seq<char>> {
    match raw.pin_order {
        Some(v) => texts(v@),
        None => sorted_keys(raw.ports@),
    }
}

/// The fields of `m` other than its pins, as `raw` gives them.
pub open spec fn manifest_fields(raw: RawPrimitiveManifest, m: PrimitiveManifest) -> bool {
    &&& match raw.files.netlist {
        Some(n) => m.files.netlist@ == n@,
        None => false,
    }
    &&& m.name@ == raw.name@
    &&& m.subckt_name@ == match raw.subckt_name {
        Some(s) => s@,
        None => raw.name@,
    }
    &&& m.version@ == match raw.version {
        Some(v) => v@,
        None => "0.1.0"@,
    }
    &&& opt_text(m.description) == opt_text(raw.description)
    &&& opt_text(m.transistor_type) == opt_text(raw.transistor_type)
    &&& opt_text(m.files.build) == opt_text(raw.files.build)
    &&& opt_text(m.files.symbol) == opt_text(raw.files.symbol)
    &&& m.small_signal == raw.small_signal
}

fn sorted_port_names(ports: &Vec<(String, RawPort)>) -> (r: Vec<String>)
    ensures
        texts(r@) == sorted_keys(ports@),
{
    let ghost le = text_order();
    let ghost keys = ports@.map_values(|p: (String, RawPort)| p.0@);
    let mut out: Vec<String> = Vec::new();
    let mut i: usize = 0;
    proof {
        lemma_text_order_total();
        assert(texts(out@) =~= keys.take(0));
    }
    while i < ports.len()
        invariant
            i <= ports.len(),
            le == text_order(),
            keys == ports@.map_values(|p: (String, RawPort)| p.0@),
            total_ordering(le),
            sorted_by(texts(out@), le),
            texts(out@).to_multiset() == keys.take(i as int).to_multiset(),
        decreases ports.len() - i,
    {
        let key = &ports[i].0;
        let ghost kv = key@;
        let ghost before = texts(out@);
        let mut pos: usize = 0;
        while pos < out.len() && text_leq(out[pos].as_str(), key.as_str())
            invariant
                pos <= out.len(),
                before == texts(out@),
                kv == key@,
                le == text_order(),
                forall|k: int| 0 <= k < pos ==> le(#[trigger] before[k], kv),
            decreases out.len() - pos,
        {
            pos = pos + 1;
        }
        out.insert(pos, key.clone());
        proof {
            assert(texts(out@) =~= before.insert(pos as int, kv));
            if pos < before.len() {
                assert(!le(before[pos as int], kv));
                assert(le(kv, before[pos as int]));
            }
            let after = texts(out@);
            assert forall|a: int, b: int| 0 <= a < b < after.len() implies #[trigger] le(
                after[a],
                after[b],
            ) by {
                if b < pos {
                    assert(after[a] == before[a] && after[b] == before[b]);
                } else if b == pos {
                    assert(after[a] == before[a]);
                } else if a < pos {
                    assert(after[a] == before[a] && after[b] == before[b - 1]);
                    assert(le(before[a], kv));
                    assert(le(kv, before[pos as int]));
                    assert(le(before[pos as int], before[b - 1]) || pos == b - 1);
                } else if a == pos {
                    assert(after[b] == before[b - 1]);
                    assert(le(before[pos as int], before[b - 1]) || pos == b - 1);
                } else {
                    assert(after[a] == before[a - 1] && after[b] == before[b - 1]);
                }
            }
            vstd::seq_lib::to_multiset_insert(before, pos as int, kv);
            assert(keys.take(i + 1) =~= keys.take(i as int).push(kv));
            vstd::seq_lib::to_multiset_build(keys.take(i as int), kv);
        }
        i = i + 1;
    }
    proof {
        assert(keys.take(ports.len() as int) =~= keys);
        keys.lemma_sort_by_ensures(le);
        vstd::seq_lib::lemma_sorted_unique(texts(out@), keys.sort_by(le), le);
    }
    out
}

fn find_port<'a>(ports: &'a Vec<(String, RawPort)>, key: &String) -> (r: Option<&'a RawPort>)
    ensures
        match r {
            Some(p) => port_for(ports@, key@) == Some(*p),
            None => port_for(ports@, key@) is None,
        },
{
    let mut i: usize = 0;
    assert(ports@.skip(0) =~= ports@);
    while i < ports.len()
        invariant
            i <= ports.len(),
            port_for(ports@, key@) == port_for(ports@.skip(i as int), key@),
        decreases ports.len() - i,
    {
        assert(ports@.skip(i as int)[0] == ports@[i as int]);
        if str_eq(ports[i].0.as_str(), key.as_str()) {
            return Some(&ports[i].1);
        }
        assert(ports@.skip(i as int).drop_first() =~= ports@.skip(i + 1));
        i = i + 1;
    }
    None
}

proof fn lemma_pins_err_stays(
    primitive: Seq<char>,
    ports: Seq<(String, RawPort)>,
    order: Seq<Seq<char>>,
    k: int,
)
    requires
        0 <= k <= order.len(),
        pins_spec(primitive, ports, order.take(k)) is Err,
    ensures
        pins_spec(primitive, ports, order) == pins_spec(primitive, ports, order.take(k)),
    decreases order.len() - k,
{
    if k < order.len() {
        assert(order.take(k + 1).drop_last() =~= order.take(k));
        lemma_pins_err_stays(primitive, ports, order, k + 1);
    } else {
        assert(order.take(k) =~= order);
    }
}

impl RawPrimitiveManifest {
    /// The manifest with its defaults: the pins in the declared order (or
    /// the sorted port keys), version `0.1.0`, the subcircuit named after
    /// the primitive. A pin without a port, or no netlist file, is an error.
    pub fn into_manifest(self) -> (r: Result<PrimitiveManifest, PrimitiveLoadError>)
        ensures
            match r {
                Ok(m) => pins_spec(self.name@, self.ports@, pin_order_of(self)) == Ok::<
                    Seq<(Seq<char>, PinRole)>,
                    LoadErrorText,
                >(pin_entries(m.pins@)) && manifest_fields(self, m),
                Err(e) => match pins_spec(self.name@, self.ports@, pin_order_of(self)) {
                    Err(pe) => e@ == pe,
                    Ok(_) => self.files.netlist is None && e@ == LoadErrorText::MissingNetlistFile {
                        primitive: self.name@,
                    },
                },
            },
    {
        let ghost raw = self;
        let order = match &self.pin_order {
            Some(v) => {
                let mut copy: Vec<String> = Vec::new();
                let mut k: usize = 0;
                while k < v.len()
                    invariant
                        k <= v.len(),
                        texts(copy@) == texts(v@).take(k as int),
                    decreases v.len() - k,
                {
                    let ghost before = texts(copy@);
                    let c = v[k].clone();
                    assert(c@ == v@[k as int]@);
                    copy.push(c);
                    assert(texts(copy@) =~= before.push(v@[k as int]@));
                    assert(texts(copy@) =~= texts(v@).take(k + 1));
                    k = k + 1;
                }
                assert(texts(v@).take(v.len() as int) =~= texts(v@));
                copy
            },
            None => sorted_port_names(&self.ports),
        };
        let ghost ov = texts(order@);
        assert(ov == pin_order_of(raw));
        let mut pins: Vec<Pin> = Vec::new();
        let mut i: usize = 0;
        assert(ov.take(0) =~= Seq::<Seq<char>>::empty());
        assert(pin_entries(pins@) =~= Seq::<(Seq<char>, PinRole)>::empty());
        while i < order.len()
            invariant
                i <= order.len(),
                ov == texts(order@),
                ov == pin_order_of(raw),
                raw == self,
                pins_spec(self.name@, self.ports@, ov.take(i as int)) == Ok::<
                    Seq<(Seq<char>, PinRole)>,
                    LoadErrorText,
                >(pin_entries(pins@)),
            decreases order.len() - i,
        {
            assert(ov.take(i + 1).drop_last() =~= ov.take(i as int));
            assert(ov.take(i + 1).last() == order@[i as int]@);
            match find_port(&self.ports, &order[i]) {
                None => {
                    proof {
                        lemma_pins_err_stays(self.name@, self.ports@, ov, i + 1);
                        assert(ov.take(ov.len() as int) =~= ov);
                    }
                    return Err(
                        PrimitiveLoadError::MissingPort {
                            primitive: self.name.clone(),
                            pin: order[i].clone(),
                        },
                    );
                },
                Some(port) => {
                    let name = match &port.name {
                        Some(n) => n.clone(),
                        None => order[i].clone(),
                    };
                    let ghost before = pin_entries(pins@);
                    pins.push(Pin { name, role: port.role });
                    assert(pin_entries(pins@) =~= before.push(
                        (pin_name_of(*port, order@[i as int]@), port.role),
                    ));
                },
            }
            i = i + 1;
        }
        assert(ov.take(order.len() as int) =~= ov);
        let netlist = match &self.files.netlist {
            Some(n) => n.clone(),
            None => {
                return Err(PrimitiveLoadError::MissingNetlistFile { primitive: self.name.clone() });
            },
        };
        let subckt_name = match &self.subckt_name {
            Some(s) => s.clone(),
            None => self.name.clone(),
        };
        let version = match &self.version {
            Some(v) => v.clone(),
            None => string_from("0.1.0"),
        };
        let files = PrimitiveFiles {
            netlist,
            build: self.files.build.clone(),
            symbol: self.files.symbol.clone(),
        };
        Ok(
            PrimitiveManifest {
                subckt_name,
                name: self.name,
                version,
                description: self.description,
                pins,
                files,
                small_signal: self.small_signal,
                transistor_type: self.transistor_type,
            },
        )
    }
}

} // verus!
