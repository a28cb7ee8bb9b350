//! Mapping sysfs backlights to DRM connectors: first through a shared DDC
//! i2c adapter, then through an EDID that only one connector shows.
use vstd::prelude::*;

use crate::drm::{connector_output_name, spec_connector_output_name};
use crate::edid::{edid_pairs, lemma_unique_edids, only_at, spec_unique_edids, unique_edids, EdidTable};
use crate::table::NameMap;

verus! {

/// How a backlight was matched to its connector.
#[derive(Clone, Copy, Debug, PartialEq, Eq, Structural)]
pub enum BacklightMappingMethod {
    /// Through the DDC i2c adapter both devices link to.
    Ddc,
    /// Through an EDID that one connector alone shows.
    Edid,
}

impl BacklightMappingMethod {
    /// The method's name in lower case, as the daemon and the JSON listing show it.
    pub fn name(&self) -> (s: &'static str)
        ensures
            *self == BacklightMappingMethod::Ddc ==> s@ == "ddc"@,
            *self == BacklightMappingMethod::Edid ==> s@ == "edid"@,
    {
        match self {
            BacklightMappingMethod::Ddc => "ddc",
            BacklightMappingMethod::Edid => "edid",
        }
    }
}

/// A backlight and the connector (and output) whose panel it lights.
#[derive(Clone, Debug)]
pub struct BacklightMapping {
    pub backlight: String,
    pub path: String,
    pub connector: String,
    pub output: String,
    pub method: BacklightMappingMethod,
}

/// What was read for a DRM connector: its name, the canonical path of its
/// `ddc` link, and its base EDID.
#[derive(Clone, Debug)]
pub struct ConnectorInfo {
    pub name: String,
    pub ddc: Option<String>,
    pub edid: Option<Vec<u8>>,
}

/// What was read for a backlight device: its name, its path, the canonical
/// path of its `device/ddc` link, and its `device/edid` base EDID.
#[derive(Clone, Debug)]
pub struct BacklightInfo {
    pub name: String,
    pub path: String,
    pub ddc: Option<String>,
    pub edid: Option<Vec<u8>>,
}

/// Per DDC adapter path, the connector that links to it (the last one listed).
pub open spec fn ddc_claims(conns: Seq<ConnectorInfo>) -> Map<Seq<char>, String>
    decreases conns.len(),
{
    if conns.len() == 0 {
        Map::empty()
    } else {
        let m = ddc_claims(conns.drop_last());
        match conns.last().ddc {
            Some(d) => m.insert(d@, conns.last().name),
            None => m,
        }
    }
}

/// The backlights matched through DDC: backlight name to connector and method.
pub open spec fn ddc_stage(conns: Seq<ConnectorInfo>, bls: Seq<BacklightInfo>) -> Map<
    Seq<char>,
    (String, BacklightMappingMethod),
>
    decreases bls.len(),
{
    if bls.len() == 0 {
        Map::empty()
    } else {
        let m = ddc_stage(conns, bls.drop_last());
        let b = bls.last();
        match b.ddc {
            Some(d) => if ddc_claims(conns).contains_key(d@) {
                m.insert(b.name@, (ddc_claims(conns)[d@], BacklightMappingMethod::Ddc))
            } else {
                m
            },
            None => m,
        }
    }
}

/// The connectors that have a base EDID, as `(edid, name)` pairs.
pub open spec fn connector_edids(conns: Seq<ConnectorInfo>) -> Seq<(Seq<u8>, String)>
    decreases conns.len(),
{
    if conns.len() == 0 {
        Seq::empty()
    } else {
        let init = connector_edids(conns.drop_last());
        match conns.last().edid {
            Some(e) => init.push((e@, conns.last().name)),
            None => init,
        }
    }
}

/// One backlight of the EDID stage: a backlight not yet matched takes the
/// connector that alone shows its EDID, and that EDID is used up.
pub open spec fn edid_step(
    b: BacklightInfo,
    m: Map<Seq<char>, (String, BacklightMappingMethod)>,
    t: Map<Seq<u8>, String>,
) -> (Map<Seq<char>, (String, BacklightMappingMethod)>, Map<Seq<u8>, String>) {
    if m.contains_key(b.name@) {
        (m, t)
    } else {
        match b.edid {
            Some(e) => if t.contains_key(e@) {
                (m.insert(b.name@, (t[e@], BacklightMappingMethod::Edid)), t.remove(e@))
            } else {
                (m, t)
            },
            None => (m, t),
        }
    }
}

pub open spec fn edid_stage(
    bls: Seq<BacklightInfo>,
    m: Map<Seq<char>, (String, BacklightMappingMethod)>,
    t: Map<Seq<u8>, String>,
) -> (Map<Seq<char>, (String, BacklightMappingMethod)>, Map<Seq<u8>, String>)
    decreases bls.len(),
{
    if bls.len() == 0 {
        (m, t)
    } else {
        let (m2, t2) = edid_stage(bls.drop_last(), m, t);
        edid_step(bls.last(), m2, t2)
    }
}

/// A produced mapping, before its output name: backlight, path, connector, method.
pub type MappingRow = (String, String, String, BacklightMappingMethod);

/// The mappings in backlight order; a backlight's entry is used once.
pub open spec fn emit_stage(
    bls: Seq<BacklightInfo>,
    m: Map<Seq<char>, (String, BacklightMappingMethod)>,
) -> (Seq<MappingRow>, Map<Seq<char>, (String, BacklightMappingMethod)>)
    decreases bls.len(),
{
    if bls.len() == 0 {
        (Seq::empty(), m)
    } else {
        let (out, m2) = emit_stage(bls.drop_last(), m);
        let b = bls.last();
        if m2.contains_key(b.name@) {
            (out.push((b.name, b.path, m2[b.name@].0, m2[b.name@].1)), m2.remove(b.name@))
        } else {
            (out, m2)
        }
    }
}

/// The backlight mappings, in backlight order.
pub open spec fn spec_backlight_mappings(conns: Seq<ConnectorInfo>, bls: Seq<BacklightInfo>) -> Seq<
    MappingRow,
> {
    let m = ddc_stage(conns, bls);
    let (m2, _) = edid_stage(bls, m, spec_unique_edids(connector_edids(conns)));
    emit_stage(bls, m2).0
}

pub fn collect_connector_edids(conns: &Vec<ConnectorInfo>) -> (r: Vec<(Vec<u8>, String)>)
    ensures
        edid_pairs(r@) == connector_edids(conns@),
{
    let mut out: Vec<(Vec<u8>, String)> = Vec::new();
    let mut i: usize = 0;
    while i < conns.len()
        invariant
            i <= conns@.len(),
            edid_pairs(out@) == connector_edids(conns@.take(i as int)),
        decreases conns@.len() - i,
    {
        assert(conns@.take(i + 1).drop_last() =~= conns@.take(i as int));
        match &conns[i].edid {
            Some(e) => {
                let item = (e.clone(), conns[i].name.clone());
                let ghost prev = out@;
                out.push(item);
                assert(edid_pairs(out@) =~= edid_pairs(prev).push((e@, conns@[i as int].name)));
            },
            None => {},
        }
        i = i + 1;
    }
    assert(conns@.take(conns@.len() as int) =~= conns@);
    out
}

/// Maps backlights to connectors, as read from the DRM and backlight class
/// directories: a backlight whose DDC adapter is a connector's takes that
/// connector; any other takes the connector that alone shows the same EDID,
/// each such EDID serving one backlight.
pub fn map_backlights_to_connectors_from(
    connectors: &Vec<ConnectorInfo>,
    backlights: &Vec<BacklightInfo>,
) -> (r: Vec<BacklightMapping>)
    ensures
        r@.len() == spec_backlight_mappings(connectors@, backlights@).len(),
        forall|i: int|
            0 <= i < r@.len() ==> {
                let row = spec_backlight_mappings(connectors@, backlights@)[i];
                &&& (#[trigger] r@[i]).backlight == row.0
                &&& r@[i].path == row.1
                &&& r@[i].connector == row.2
                &&& r@[i].method == row.3
                &&& r@[i].output@ == spec_connector_output_name(row.2@)
            },
{
    // Connectors by the DDC adapter they link to.
    let mut by_ddc: NameMap<String> = NameMap::new();
    let mut i: usize = 0;
    while i < connectors.len()
        invariant
            i <= connectors@.len(),
            by_ddc@ == ddc_claims(connectors@.take(i as int)),
        decreases connectors@.len() - i,
    {
        assert(connectors@.take(i + 1).drop_last() =~= connectors@.take(i as int));
        match &connectors[i].ddc {
            Some(d) => {
                by_ddc.insert(d.clone(), connectors[i].name.clone());
            },
            None => {},
        }
        i = i + 1;
    }
    assert(connectors@.take(connectors@.len() as int) =~= connectors@);

    // Backlights matched through DDC.
    let mut mapped: NameMap<(String, BacklightMappingMethod)> = NameMap::new();
    let mut i: usize = 0;
    while i < backlights.len()
        invariant
            i <= backlights@.len(),
            by_ddc@ == ddc_claims(connectors@),
            mapped@ == ddc_stage(connectors@, backlights@.take(i as int)),
        decreases backlights@.len() - i,
    {
        assert(backlights@.take(i + 1).drop_last() =~= backlights@.take(i as int));
        let b = &backlights[i];
        match &b.ddc {
            Some(d) => {
                match by_ddc.get(d.as_str()) {
                    Some(c) => {
                        mapped.insert(b.name.clone(), (c.clone(), BacklightMappingMethod::Ddc));
                    },
                    None => {},
                }
            },
            None => {},
        }
        i = i + 1;
    }
    assert(backlights@.take(backlights@.len() as int) =~= backlights@);
    let ghost m_ddc = mapped@;

    // Backlights matched through an EDID that one connector alone shows.
    let edids = collect_connector_edids(connectors);
    let mut table: EdidTable = unique_edids(edids);
    let ghost t0 = table@;
    let mut i: usize = 0;
    while i < backlights.len()
        invariant
            i <= backlights@.len(),
            (mapped@, table@) == edid_stage(backlights@.take(i as int), m_ddc, t0),
        decreases backlights@.len() - i,
    {
        assert(backlights@.take(i + 1).drop_last() =~= backlights@.take(i as int));
        let b = &backlights[i];
        if !mapped.contains_key(b.name.as_str()) {
            match &b.edid {
                Some(e) => {
                    let ghost t_before = table@;
                    match table.remove(e) {
                        Some(c) => {
                            mapped.insert(b.name.clone(), (c, BacklightMappingMethod::Edid));
                        },
                        None => {
                            assert(table@ =~= t_before);
                        },
                    }
                },
                None => {},
            }
        }
        i = i + 1;
    }
    assert(backlights@.take(backlights@.len() as int) =~= backlights@);
    let ghost m_all = mapped@;

    // One mapping per matched backlight, in backlight order.
    let mut out: Vec<BacklightMapping> = Vec::new();
    let ghost mut rows: Seq<MappingRow> = Seq::empty();
    let mut i: usize = 0;
    while i < backlights.len()
        invariant
            i <= backlights@.len(),
            (rows, mapped@) == emit_stage(backlights@.take(i as int), m_all),
            out@.len() == rows.len(),
            forall|k: int|
                0 <= k < out@.len() ==> {
                    &&& (#[trigger] out@[k]).backlight == rows[k].0
                    &&& out@[k].path == rows[k].1
                    &&& out@[k].connector == rows[k].2
                    &&& out@[k].method == rows[k].3
                    &&& out@[k].output@ == spec_connector_output_name(rows[k].2@)
                },
        decreases backlights@.len() - i,
    {
        assert(backlights@.take(i + 1).drop_last() =~= backlights@.take(i as int));
        let b = &backlights[i];
        let ghost m_before = mapped@;
        match mapped.remove(b.name.as_str()) {
            Some(entry) => {
                let (connector, method) = entry;
                let output = connector_output_name(connector.as_str());
                proof {
                    rows = rows.push((b.name, b.path, m_before[b.name@].0, m_before[b.name@].1));
                }
                out.push(
                    BacklightMapping {
                        backlight: b.name.clone(),
                        path: b.path.clone(),
                        connector,
                        output,
                        method,
                    },
                );
            },
            None => {},
        }
        i = i + 1;
    }
    assert(backlights@.take(backlights@.len() as int) =~= backlights@);
    out
}

/// What the emit stage keeps: distinct backlights, none of them left to emit.
proof fn lemma_emit_distinct(
    bls: Seq<BacklightInfo>,
    m: Map<Seq<char>, (String, BacklightMappingMethod)>,
)
    ensures
        ({
            let (out, m2) = emit_stage(bls, m);
            &&& forall|i: int, j: int|
                0 <= i < j < out.len() ==> (#[trigger] out[i]).0@ != (#[trigger] out[j]).0@
            &&& forall|i: int| 0 <= i < out.len() ==> !m2.contains_key((#[trigger] out[i]).0@)
        }),
    decreases bls.len(),
{
    if bls.len() > 0 {
        lemma_emit_distinct(bls.drop_last(), m);
        let (out, m2) = emit_stage(bls.drop_last(), m);
        let b = bls.last();
        if m2.contains_key(b.name@) {
            let row = (b.name, b.path, m2[b.name@].0, m2[b.name@].1);
            let out2 = out.push(row);
            let m3 = m2.remove(b.name@);
            assert forall|i: int, j: int| 0 <= i < j < out2.len() implies (#[trigger] out2[i]).0@
                != (#[trigger] out2[j]).0@ by {
                if j == out.len() {
                    assert(out2[i] == out[i]);
                    assert(!m2.contains_key(out[i].0@));
                } else {
                    assert(out2[i] == out[i] && out2[j] == out[j]);
                }
            }
            assert forall|i: int| 0 <= i < out2.len() implies !m3.contains_key(
                (#[trigger] out2[i]).0@,
            ) by {
                if i < out.len() {
                    assert(out2[i] == out[i]);
                }
            }
        }
    }
}

/// No backlight is mapped twice: the mappings name distinct backlights.
pub proof fn lemma_backlights_mapped_once(conns: Seq<ConnectorInfo>, bls: Seq<BacklightInfo>)
    ensures
        forall|i: int, j: int|
            0 <= i < j < spec_backlight_mappings(conns, bls).len() ==> (
            #[trigger] spec_backlight_mappings(conns, bls)[i]).0@ != (
            #[trigger] spec_backlight_mappings(conns, bls)[j]).0@,
{
    let m = ddc_stage(conns, bls);
    let (m2, _) = edid_stage(bls, m, spec_unique_edids(connector_edids(conns)));
    lemma_emit_distinct(bls, m2);
}

/// The DDC stage matches through DDC only.
proof fn lemma_ddc_stage_method(conns: Seq<ConnectorInfo>, bls: Seq<BacklightInfo>)
    ensures
        forall|k: Seq<char>|
            #[trigger] ddc_stage(conns, bls).contains_key(k) ==> ddc_stage(conns, bls)[k].1
                == BacklightMappingMethod::Ddc,
    decreases bls.len(),
{
    if bls.len() > 0 {
        lemma_ddc_stage_method(conns, bls.drop_last());
    }
}

/// The EDID stage keeps every match it is given and adds only EDID matches.
proof fn lemma_edid_stage_keeps(
    bls: Seq<BacklightInfo>,
    m: Map<Seq<char>, (String, BacklightMappingMethod)>,
    t: Map<Seq<u8>, String>,
)
    ensures
        forall|k: Seq<char>|
            #[trigger] m.contains_key(k) ==> edid_stage(bls, m, t).0.contains_key(k) && edid_stage(
                bls,
                m,
                t,
            ).0[k] == m[k],
        forall|k: Seq<char>|
            #[trigger] edid_stage(bls, m, t).0.contains_key(k) && !m.contains_key(k) ==> edid_stage(
                bls,
                m,
                t,
            ).0[k].1 == BacklightMappingMethod::Edid,
    decreases bls.len(),
{
    if bls.len() > 0 {
        lemma_edid_stage_keeps(bls.drop_last(), m, t);
    }
}

/// Each mapping comes from the entry of its backlight in the matches.
proof fn lemma_emit_rows(bls: Seq<BacklightInfo>, m: Map<Seq<char>, (String, BacklightMappingMethod)>)
    ensures
        forall|i: int|
            0 <= i < emit_stage(bls, m).0.len() ==> m.contains_key(
                (#[trigger] emit_stage(bls, m).0[i]).0@,
            ) && m[emit_stage(bls, m).0[i].0@] == (emit_stage(bls, m).0[i].2, emit_stage(
                bls,
                m,
            ).0[i].3),
        forall|k: Seq<char>|
            #[trigger] emit_stage(bls, m).1.contains_key(k) ==> m.contains_key(k) && emit_stage(
                bls,
                m,
            ).1[k] == m[k],
    decreases bls.len(),
{
    if bls.len() > 0 {
        lemma_emit_rows(bls.drop_last(), m);
        let (out, m2) = emit_stage(bls.drop_last(), m);
        let b = bls.last();
        if m2.contains_key(b.name@) {
            let rows = emit_stage(bls, m).0;
            assert forall|i: int| 0 <= i < rows.len() implies m.contains_key(
                (#[trigger] rows[i]).0@,
            ) && m[rows[i].0@] == (rows[i].2, rows[i].3) by {
                if i < out.len() {
                    assert(rows[i] == out[i]);
                }
            }
        }
    }
}

/// DDC wins: a backlight whose DDC adapter a connector links to is mapped to
/// that connector through DDC, whatever EDID it shows; every other mapping
/// is through an EDID.
pub proof fn lemma_ddc_wins(conns: Seq<ConnectorInfo>, bls: Seq<BacklightInfo>)
    ensures
        forall|i: int|
            0 <= i < spec_backlight_mappings(conns, bls).len() ==> {
                let row = #[trigger] spec_backlight_mappings(conns, bls)[i];
                &&& ddc_stage(conns, bls).contains_key(row.0@) ==> (row.2, row.3) == ddc_stage(
                    conns,
                    bls,
                )[row.0@] && row.3 == BacklightMappingMethod::Ddc
                &&& !ddc_stage(conns, bls).contains_key(row.0@) ==> row.3
                    == BacklightMappingMethod::Edid
            },
{
    let m = ddc_stage(conns, bls);
    let t = spec_unique_edids(connector_edids(conns));
    let (m2, _) = edid_stage(bls, m, t);
    lemma_ddc_stage_method(conns, bls);
    lemma_edid_stage_keeps(bls, m, t);
    lemma_emit_rows(bls, m2);
    let rows = spec_backlight_mappings(conns, bls);
    assert forall|i: int| 0 <= i < rows.len() implies {
        let row = #[trigger] rows[i];
        &&& m.contains_key(row.0@) ==> (row.2, row.3) == m[row.0@] && row.3
            == BacklightMappingMethod::Ddc
        &&& !m.contains_key(row.0@) ==> row.3 == BacklightMappingMethod::Edid
    } by {
        assert(rows[i] == emit_stage(bls, m2).0[i]);
        assert(m2.contains_key(rows[i].0@));
    }
}

/// No two backlights share a name (as no two entries of a directory do).
pub open spec fn distinct_names(bls: Seq<BacklightInfo>) -> bool {
    forall|i: int, j: int| 0 <= i < j < bls.len() ==> (#[trigger] bls[i]).name@ != (#[trigger] bls[j]).name@
}

/// What the EDID stage adds and takes: it matches only backlights of the
/// list, and an EDID leaves the table only for a backlight that showed it
/// while still unmatched.
proof fn lemma_edid_stage_facts(
    bls: Seq<BacklightInfo>,
    m: Map<Seq<char>, (String, BacklightMappingMethod)>,
    t: Map<Seq<u8>, String>,
)
    ensures
        forall|k: Seq<char>|
            #[trigger] edid_stage(bls, m, t).0.contains_key(k) ==> m.contains_key(k) || exists|j: int|
                0 <= j < bls.len() && (#[trigger] bls[j]).name@ == k,
        forall|e: Seq<u8>|
            #[trigger] edid_stage(bls, m, t).1.contains_key(e) ==> t.contains_key(e) && edid_stage(
                bls,
                m,
                t,
            ).1[e] == t[e],
        forall|e: Seq<u8>|
            t.contains_key(e) && !(#[trigger] edid_stage(bls, m, t).1.contains_key(e)) ==> exists|j: int|
                0 <= j < bls.len() && !m.contains_key((#[trigger] bls[j]).name@) && bls[j].edid is Some
                    && bls[j].edid.unwrap()@ == e,
    decreases bls.len(),
{
    if bls.len() > 0 {
        let init = bls.drop_last();
        let n = bls.len() - 1;
        lemma_edid_stage_facts(init, m, t);
        lemma_edid_stage_keeps(init, m, t);
        let (m2, t2) = edid_stage(init, m, t);
        let (m3, t3) = edid_stage(bls, m, t);
        assert forall|j: int| 0 <= j < n implies #[trigger] init[j] == bls[j] by {}
        assert forall|k: Seq<char>| #[trigger] m3.contains_key(k) implies m.contains_key(k) || exists|
            j: int,
        | 0 <= j < bls.len() && (#[trigger] bls[j]).name@ == k by {
            if !m2.contains_key(k) {
                assert(bls[n].name@ == k);
            } else if !m.contains_key(k) {
                let j = choose|j: int| 0 <= j < init.len() && (#[trigger] init[j]).name@ == k;
                assert(bls[j] == init[j]);
            }
        }
        assert forall|e: Seq<u8>|
            t.contains_key(e) && !(#[trigger] t3.contains_key(e)) implies exists|j: int|
            0 <= j < bls.len() && !m.contains_key((#[trigger] bls[j]).name@) && bls[j].edid is Some
                && bls[j].edid.unwrap()@ == e by {
            if t2.contains_key(e) {
                assert(bls[n].edid is Some && bls[n].edid.unwrap()@ == e);
                assert(!m2.contains_key(bls[n].name@));
                if m.contains_key(bls[n].name@) {
                    assert(m2.contains_key(bls[n].name@));
                }
            } else {
                let j = choose|j: int|
                    0 <= j < init.len() && !m.contains_key((#[trigger] init[j]).name@) && init[j].edid is Some
                        && init[j].edid.unwrap()@ == e;
                assert(bls[j] == init[j]);
            }
        }
    }
}

/// A backlight left unmatched, whose EDID is in the table and was shown by
/// no earlier unmatched backlight, is matched by the EDID stage to the
/// table's connector for that EDID.
proof fn lemma_edid_stage_matches(
    bls: Seq<BacklightInfo>,
    m: Map<Seq<char>, (String, BacklightMappingMethod)>,
    t: Map<Seq<u8>, String>,
    i: int,
)
    requires
        distinct_names(bls),
        0 <= i < bls.len(),
        !m.contains_key(bls[i].name@),
        bls[i].edid is Some,
        t.contains_key(bls[i].edid.unwrap()@),
        forall|j: int|
            0 <= j < i ==> !(!m.contains_key((#[trigger] bls[j]).name@) && bls[j].edid is Some
                && bls[j].edid.unwrap()@ == bls[i].edid.unwrap()@),
    ensures
        edid_stage(bls, m, t).0.contains_key(bls[i].name@),
        edid_stage(bls, m, t).0[bls[i].name@] == (
            t[bls[i].edid.unwrap()@],
            BacklightMappingMethod::Edid,
        ),
    decreases bls.len(),
{
    let init = bls.drop_last();
    let n = bls.len() - 1;
    let e = bls[i].edid.unwrap()@;
    let (m2, t2) = edid_stage(init, m, t);
    assert forall|j: int| 0 <= j < n implies #[trigger] init[j] == bls[j] by {}
    if i < n {
        assert(distinct_names(init)) by {
            assert forall|a: int, b: int| 0 <= a < b < init.len() implies (#[trigger] init[a]).name@
                != (#[trigger] init[b]).name@ by {
                assert(bls[a].name@ != bls[b].name@);
            }
        }
        lemma_edid_stage_matches(init, m, t, i);
    } else {
        lemma_edid_stage_facts(init, m, t);
        if m2.contains_key(bls[n].name@) {
            let j = choose|j: int| 0 <= j < init.len() && (#[trigger] init[j]).name@ == bls[n].name@;
            assert(bls[j].name@ != bls[n].name@);
        }
        if !t2.contains_key(e) {
            let j = choose|j: int|
                0 <= j < init.len() && !m.contains_key((#[trigger] init[j]).name@) && init[j].edid is Some
                    && init[j].edid.unwrap()@ == e;
            assert(bls[j] == init[j]);
        }
    }
}

/// The matches left for emission: a name not in the list stays.
proof fn lemma_emit_keeps(bls: Seq<BacklightInfo>, m: Map<Seq<char>, (String, BacklightMappingMethod)>, k: Seq<char>)
    requires
        m.contains_key(k),
        forall|j: int| 0 <= j < bls.len() ==> (#[trigger] bls[j]).name@ != k,
    ensures
        emit_stage(bls, m).1.contains_key(k),
        emit_stage(bls, m).1[k] == m[k],
    decreases bls.len(),
{
    if bls.len() > 0 {
        let init = bls.drop_last();
        assert forall|j: int| 0 <= j < init.len() implies (#[trigger] init[j]).name@ != k by {
            assert(init[j] == bls[j]);
        }
        lemma_emit_keeps(init, m, k);
        assert(bls[bls.len() - 1].name@ != k);
    }
}

/// With distinct names, every matched backlight gets its mapping row.
proof fn lemma_emit_has_row(bls: Seq<BacklightInfo>, m: Map<Seq<char>, (String, BacklightMappingMethod)>, i: int)
    requires
        distinct_names(bls),
        0 <= i < bls.len(),
        m.contains_key(bls[i].name@),
    ensures
        exists|k: int|
            0 <= k < emit_stage(bls, m).0.len() && #[trigger] emit_stage(bls, m).0[k] == (
                bls[i].name,
                bls[i].path,
                m[bls[i].name@].0,
                m[bls[i].name@].1,
            ),
    decreases bls.len(),
{
    let init = bls.drop_last();
    let n = bls.len() - 1;
    let (out, m2) = emit_stage(init, m);
    let full = emit_stage(bls, m).0;
    assert forall|j: int| 0 <= j < n implies #[trigger] init[j] == bls[j] by {}
    if i < n {
        assert(distinct_names(init)) by {
            assert forall|a: int, b: int| 0 <= a < b < init.len() implies (#[trigger] init[a]).name@
                != (#[trigger] init[b]).name@ by {
                assert(bls[a].name@ != bls[b].name@);
            }
        }
        lemma_emit_has_row(init, m, i);
        let k = choose|k: int|
            0 <= k < out.len() && #[trigger] out[k] == (
                bls[i].name,
                bls[i].path,
                m[bls[i].name@].0,
                m[bls[i].name@].1,
            );
        assert(full[k] == out[k]);
    } else {
        assert forall|j: int| 0 <= j < init.len() implies (#[trigger] init[j]).name@ != bls[n].name@ by {
            assert(bls[j].name@ != bls[n].name@);
        }
        lemma_emit_keeps(init, m, bls[n].name@);
        assert(full[out.len() as int] == (
            bls[i].name,
            bls[i].path,
            m[bls[i].name@].0,
            m[bls[i].name@].1,
        ));
    }
}

/// A backlight that the DDC stage leaves unmatched, and whose EDID one
/// connector alone shows, is mapped to that connector through its EDID,
/// unless an earlier backlight left unmatched by DDC showed the same EDID
/// (and used it up); whether the backlight has a DDC link does not matter.
/// Backlights are told apart by name, as in a directory.
pub proof fn lemma_edid_match(conns: Seq<ConnectorInfo>, bls: Seq<BacklightInfo>, i: int, c: int)
    requires
        distinct_names(bls),
        0 <= i < bls.len(),
        !ddc_stage(conns, bls).contains_key(bls[i].name@),
        bls[i].edid is Some,
        only_at(connector_edids(conns), bls[i].edid.unwrap()@, c),
        forall|j: int|
            0 <= j < i ==> !(!ddc_stage(conns, bls).contains_key((#[trigger] bls[j]).name@)
                && bls[j].edid is Some && bls[j].edid.unwrap()@ == bls[i].edid.unwrap()@),
    ensures
        exists|k: int|
            0 <= k < spec_backlight_mappings(conns, bls).len()
                && #[trigger] spec_backlight_mappings(conns, bls)[k] == (
                bls[i].name,
                bls[i].path,
                connector_edids(conns)[c].1,
                BacklightMappingMethod::Edid,
            ),
{
    let m = ddc_stage(conns, bls);
    let t = spec_unique_edids(connector_edids(conns));
    let e = bls[i].edid.unwrap()@;
    lemma_unique_edids(connector_edids(conns), e);
    assert(t.contains_key(e));
    assert(t[e] == connector_edids(conns)[c].1);
    lemma_edid_stage_matches(bls, m, t, i);
    let m2 = edid_stage(bls, m, t).0;
    lemma_emit_has_row(bls, m2, i);
    let rows = emit_stage(bls, m2).0;
    assert(rows == spec_backlight_mappings(conns, bls));
    assert(m2[bls[i].name@] == (connector_edids(conns)[c].1, BacklightMappingMethod::Edid));
    let k = choose|k: int|
        0 <= k < rows.len() && #[trigger] rows[k] == (
            bls[i].name,
            bls[i].path,
            m2[bls[i].name@].0,
            m2[bls[i].name@].1,
        );
    assert(rows[k] == (
        bls[i].name,
        bls[i].path,
        connector_edids(conns)[c].1,
        BacklightMappingMethod::Edid,
    ));
}

/// The connector that claims a DDC adapter is the last one linking to it.
proof fn lemma_ddc_claims_last(conns: Seq<ConnectorInfo>, d: Seq<char>, c: int)
    requires
        0 <= c < conns.len(),
        conns[c].ddc is Some,
        conns[c].ddc.unwrap()@ == d,
        forall|l: int|
            c < l < conns.len() ==> !((#[trigger] conns[l]).ddc is Some && conns[l].ddc.unwrap()@ == d),
    ensures
        ddc_claims(conns).contains_key(d),
        ddc_claims(conns)[d] == conns[c].name,
    decreases conns.len(),
{
    let n = conns.len() - 1;
    if c < n {
        let init = conns.drop_last();
        assert forall|l: int| c < l < init.len() implies !((#[trigger] init[l]).ddc is Some
            && init[l].ddc.unwrap()@ == d) by {
            assert(init[l] == conns[l]);
        }
        lemma_ddc_claims_last(init, d, c);
        assert(init[c] == conns[c]);
        assert(!(conns[n].ddc is Some && conns[n].ddc.unwrap()@ == d));
    }
}

/// With distinct names, a backlight whose DDC adapter is claimed is matched
/// by the DDC stage to the claiming connector.
proof fn lemma_ddc_stage_matches(conns: Seq<ConnectorInfo>, bls: Seq<BacklightInfo>, i: int)
    requires
        distinct_names(bls),
        0 <= i < bls.len(),
        bls[i].ddc is Some,
        ddc_claims(conns).contains_key(bls[i].ddc.unwrap()@),
    ensures
        ddc_stage(conns, bls).contains_key(bls[i].name@),
        ddc_stage(conns, bls)[bls[i].name@] == (
            ddc_claims(conns)[bls[i].ddc.unwrap()@],
            BacklightMappingMethod::Ddc,
        ),
    decreases bls.len(),
{
    let init = bls.drop_last();
    let n = bls.len() - 1;
    if i < n {
        assert forall|j: int| 0 <= j < n implies #[trigger] init[j] == bls[j] by {}
        assert(distinct_names(init)) by {
            assert forall|a: int, b: int| 0 <= a < b < init.len() implies (#[trigger] init[a]).name@
                != (#[trigger] init[b]).name@ by {
                assert(bls[a].name@ != bls[b].name@);
            }
        }
        lemma_ddc_stage_matches(conns, init, i);
        assert(bls[i].name@ != bls[n].name@);
    }
}

/// A backlight whose DDC adapter a connector links to is mapped through DDC
/// to the last connector listed with that adapter, whatever its EDID.
/// Backlights are told apart by name, as in a directory.
pub proof fn lemma_ddc_match(conns: Seq<ConnectorInfo>, bls: Seq<BacklightInfo>, i: int, c: int)
    requires
        distinct_names(bls),
        0 <= i < bls.len(),
        bls[i].ddc is Some,
        0 <= c < conns.len(),
        conns[c].ddc is Some,
        conns[c].ddc.unwrap()@ == bls[i].ddc.unwrap()@,
        forall|l: int|
            c < l < conns.len() ==> !((#[trigger] conns[l]).ddc is Some && conns[l].ddc.unwrap()@
                == bls[i].ddc.unwrap()@),
    ensures
        exists|k: int|
            0 <= k < spec_backlight_mappings(conns, bls).len()
                && #[trigger] spec_backlight_mappings(conns, bls)[k] == (
                bls[i].name,
                bls[i].path,
                conns[c].name,
                BacklightMappingMethod::Ddc,
            ),
{
    let m = ddc_stage(conns, bls);
    let t = spec_unique_edids(connector_edids(conns));
    lemma_ddc_claims_last(conns, bls[i].ddc.unwrap()@, c);
    lemma_ddc_stage_matches(conns, bls, i);
    lemma_edid_stage_keeps(bls, m, t);
    let m2 = edid_stage(bls, m, t).0;
    assert(m2.contains_key(bls[i].name@));
    lemma_emit_has_row(bls, m2, i);
    let rows = emit_stage(bls, m2).0;
    assert(rows == spec_backlight_mappings(conns, bls));
    let k = choose|k: int|
        0 <= k < rows.len() && #[trigger] rows[k] == (
            bls[i].name,
            bls[i].path,
            m2[bls[i].name@].0,
            m2[bls[i].name@].1,
        );
    assert(rows[k] == (bls[i].name, bls[i].path, conns[c].name, BacklightMappingMethod::Ddc));
}

} // verus!
