//! Mapping DDC/CI monitors on i2c buses to DRM connectors by EDID.
use vstd::prelude::*;

use crate::backlight::{collect_connector_edids, connector_edids, ConnectorInfo};
use crate::drm::{connector_output_name, spec_connector_output_name};
use crate::edid::{spec_unique_edids, unique_edids, EdidTable};

verus! {

/// A monitor that answers DDC/CI on an i2c bus, with the EDID it reported.
#[derive(Clone, Debug)]
pub struct DdcCiDevice {
    pub i2c_bus: String,
    pub device: String,
    pub edid: Option<Vec<u8>>,
}

/// A DDC/CI monitor and the connector (and output) it was matched to, if any.
#[derive(Clone, Debug)]
pub struct DdcCiMapping {
    pub i2c_bus: String,
    pub device: String,
    pub connector: Option<String>,
    pub output: Option<String>,
}

/// The connector of each device, in device order: the one that alone shows
/// the device's EDID; each such EDID serves one device.
pub open spec fn ddc_assign(devices: Seq<DdcCiDevice>, t: Map<Seq<u8>, String>) -> (
    Seq<Option<String>>,
    Map<Seq<u8>, String>,
)
    decreases devices.len(),
{
    if devices.len() == 0 {
        (Seq::empty(), t)
    } else {
        let (cs, t2) = ddc_assign(devices.drop_last(), t);
        match devices.last().edid {
            Some(e) => if t2.contains_key(e@) {
                (cs.push(Some(t2[e@])), t2.remove(e@))
            } else {
                (cs.push(None), t2)
            },
            None => (cs.push(None), t2),
        }
    }
}

/// The connector matched to each device.
pub open spec fn spec_ddcci_connectors(devices: Seq<DdcCiDevice>, conns: Seq<ConnectorInfo>) -> Seq<
    Option<String>,
> {
    ddc_assign(devices, spec_unique_edids(connector_edids(conns))).0
}

pub proof fn lemma_ddc_assign_len(devices: Seq<DdcCiDevice>, t: Map<Seq<u8>, String>)
    ensures
        ddc_assign(devices, t).0.len() == devices.len(),
    decreases devices.len(),
{
    if devices.len() > 0 {
        lemma_ddc_assign_len(devices.drop_last(), t);
    }
}

/// Maps the DDC/CI monitors to the connectors they are plugged into.
pub fn map_ddcci_to_outputs_from(devices: Vec<DdcCiDevice>, connectors: &Vec<ConnectorInfo>) -> (r:
    Vec<DdcCiMapping>)
    ensures
        r@.len() == devices@.len(),
        forall|i: int|
            0 <= i < r@.len() ==> {
                &&& (#[trigger] r@[i]).i2c_bus == devices@[i].i2c_bus
                &&& r@[i].device == devices@[i].device
                &&& r@[i].connector == spec_ddcci_connectors(devices@, connectors@)[i]
                &&& r@[i].output is Some <==> r@[i].connector is Some
                &&& r@[i].connector matches Some(c) ==> r@[i].output.unwrap()@
                    == spec_connector_output_name(c@)
            },
{
    let edids = collect_connector_edids(connectors);
    let mut table: EdidTable = unique_edids(edids);
    let ghost t0 = table@;
    let mut out: Vec<DdcCiMapping> = Vec::new();
    let mut i: usize = 0;
    while i < devices.len()
        invariant
            i <= devices@.len(),
            t0 == spec_unique_edids(connector_edids(connectors@)),
            ddc_assign(devices@.take(i as int), t0).1 == table@,
            ddc_assign(devices@.take(i as int), t0).0.len() == out@.len(),
            out@.len() == i,
            forall|k: int|
                0 <= k < out@.len() ==> {
                    &&& (#[trigger] out@[k]).i2c_bus == devices@[k].i2c_bus
                    &&& out@[k].device == devices@[k].device
                    &&& out@[k].connector == ddc_assign(devices@.take(i as int), t0).0[k]
                    &&& out@[k].output is Some <==> out@[k].connector is Some
                    &&& out@[k].connector matches Some(c) ==> out@[k].output.unwrap()@
                        == spec_connector_output_name(c@)
                },
        decreases devices@.len() - i,
    {
        assert(devices@.take(i + 1).drop_last() =~= devices@.take(i as int));
        let ghost prev = ddc_assign(devices@.take(i as int), t0).0;
        let d = &devices[i];
        let ghost t_before = table@;
        let connector = match &d.edid {
            Some(e) => {
                let c = table.remove(e);
                proof {
                    if c is None {
                        assert(table@ =~= t_before);
                    }
                }
                c
            },
            None => None,
        };
        let output = match &connector {
            Some(c) => Some(connector_output_name(c.as_str())),
            None => None,
        };
        out.push(
            DdcCiMapping {
                i2c_bus: d.i2c_bus.clone(),
                device: d.device.clone(),
                connector,
                output,
            },
        );
        proof {
            let next = ddc_assign(devices@.take(i + 1), t0).0;
            assert(next == prev.push(out@[i as int].connector));
            assert forall|k: int| 0 <= k < out@.len() implies (#[trigger] out@[k]).connector
                == next[k] by {
                if k < i {
                    assert(next[k] == prev[k]);
                }
            }
        }
        i = i + 1;
    }
    assert(devices@.take(devices@.len() as int) =~= devices@);
    out
}

/// Each matched device used up the EDID it was matched by: no two matched
/// devices share an EDID.
pub proof fn lemma_matched_edids_distinct(devices: Seq<DdcCiDevice>, t: Map<Seq<u8>, String>)
    ensures
        forall|i: int, j: int|
            0 <= i < j < devices.len() && (#[trigger] ddc_assign(devices, t).0[i]) is Some && (
            #[trigger] ddc_assign(devices, t).0[j]) is Some ==> devices[i].edid.unwrap()@
                != devices[j].edid.unwrap()@,
        forall|i: int|
            0 <= i < devices.len() && (#[trigger] ddc_assign(devices, t).0[i]) is Some
                ==> devices[i].edid is Some && !ddc_assign(devices, t).1.contains_key(
                devices[i].edid.unwrap()@,
            ),
    decreases devices.len(),
{
    lemma_ddc_assign_len(devices, t);
    if devices.len() > 0 {
        let init = devices.drop_last();
        let n = devices.len() - 1;
        lemma_matched_edids_distinct(init, t);
        lemma_ddc_assign_len(init, t);
        let (cs, t2) = ddc_assign(init, t);
        let (cs3, t3) = ddc_assign(devices, t);
        assert forall|i: int| 0 <= i < n implies #[trigger] cs3[i] == cs[i] by {}
        assert forall|i: int|
            0 <= i < devices.len() && (#[trigger] ddc_assign(devices, t).0[i]) is Some implies devices[
            i].edid is Some && !ddc_assign(devices, t).1.contains_key(devices[i].edid.unwrap()@) by {
            if i < n {
                assert(cs[i] is Some);
                assert(init[i] == devices[i]);
                assert(!t2.contains_key(devices[i].edid.unwrap()@));
            }
        }
        assert forall|i: int, j: int|
            0 <= i < j < devices.len() && (#[trigger] ddc_assign(devices, t).0[i]) is Some && (
            #[trigger] ddc_assign(devices, t).0[j]) is Some implies devices[i].edid.unwrap()@
            != devices[j].edid.unwrap()@ by {
            assert(init[i] == devices[i]);
            assert(cs[i] is Some);
            if j < n {
                assert(init[j] == devices[j]);
                assert(cs[j] is Some);
            } else {
                assert(!t2.contains_key(devices[i].edid.unwrap()@));
                assert(t2.contains_key(devices[j].edid.unwrap()@));
            }
        }
    }
}

/// The EDIDs the devices reported.
pub open spec fn reported_edids(devices: Seq<DdcCiDevice>) -> Set<Seq<u8>> {
    Set::new(
        |e: Seq<u8>|
            exists|j: int| 0 <= j < devices.len() && (#[trigger] devices[j]).edid is Some
                && devices[j].edid.unwrap()@ == e,
    )
}

/// The connector device `i` gets from table `t`: the one under its EDID,
/// when no earlier device reported the same EDID.
pub open spec fn matched_connector(devices: Seq<DdcCiDevice>, t: Map<Seq<u8>, String>, i: int) -> Option<
    String,
> {
    match devices[i].edid {
        Some(e) => if t.contains_key(e@) && !reported_edids(devices.take(i)).contains(e@) {
            Some(t[e@])
        } else {
            None
        },
        None => None,
    }
}

proof fn lemma_ddc_assign_direct(devices: Seq<DdcCiDevice>, t: Map<Seq<u8>, String>)
    ensures
        ddc_assign(devices, t).1 == t.remove_keys(reported_edids(devices)),
        forall|i: int|
            0 <= i < devices.len() ==> #[trigger] ddc_assign(devices, t).0[i] == matched_connector(
                devices,
                t,
                i,
            ),
    decreases devices.len(),
{
    lemma_ddc_assign_len(devices, t);
    if devices.len() == 0 {
        assert(reported_edids(devices) =~= Set::<Seq<u8>>::empty());
        assert(t.remove_keys(Set::<Seq<u8>>::empty()) =~= t);
    } else {
        let init = devices.drop_last();
        let n = devices.len() - 1;
        lemma_ddc_assign_direct(init, t);
        lemma_ddc_assign_len(init, t);
        let (cs, t2) = ddc_assign(init, t);
        assert(init =~= devices.take(n));
        assert forall|i: int| 0 <= i < n implies #[trigger] ddc_assign(devices, t).0[i]
            == matched_connector(devices, t, i) by {
            assert(ddc_assign(devices, t).0[i] == cs[i]);
            assert(init[i] == devices[i]);
            assert(init.take(i) =~= devices.take(i));
        }
        match devices[n].edid {
            Some(e) => {
                assert(reported_edids(devices) =~= reported_edids(init).insert(e@)) by {
                    assert forall|x: Seq<u8>| reported_edids(devices).contains(x) implies reported_edids(
                        init,
                    ).insert(e@).contains(x) by {
                        let j = choose|j: int|
                            0 <= j < devices.len() && (#[trigger] devices[j]).edid is Some
                                && devices[j].edid.unwrap()@ == x;
                        if j < n {
                            assert(init[j] == devices[j]);
                        }
                    }
                    assert forall|x: Seq<u8>| reported_edids(init).contains(x) implies reported_edids(
                        devices,
                    ).contains(x) by {
                        let j = choose|j: int|
                            0 <= j < init.len() && (#[trigger] init[j]).edid is Some
                                && init[j].edid.unwrap()@ == x;
                        assert(devices[j] == init[j]);
                    }
                    assert(devices[n].edid is Some && devices[n].edid.unwrap()@ == e@);
                }
                assert(t2.remove(e@) =~= t.remove_keys(reported_edids(devices)));
                assert(t2 =~= t.remove_keys(reported_edids(init)));
            },
            None => {
                assert(reported_edids(devices) =~= reported_edids(init)) by {
                    assert forall|x: Seq<u8>| reported_edids(devices).contains(x) implies reported_edids(
                        init,
                    ).contains(x) by {
                        let j = choose|j: int|
                            0 <= j < devices.len() && (#[trigger] devices[j]).edid is Some
                                && devices[j].edid.unwrap()@ == x;
                        assert(j < n);
                        assert(init[j] == devices[j]);
                    }
                    assert forall|x: Seq<u8>| reported_edids(init).contains(x) implies reported_edids(
                        devices,
                    ).contains(x) by {
                        let j = choose|j: int|
                            0 <= j < init.len() && (#[trigger] init[j]).edid is Some
                                && init[j].edid.unwrap()@ == x;
                        assert(devices[j] == init[j]);
                    }
                }
            },
        }
    }
}

/// A monitor gets a connector exactly when it reported an EDID that one
/// connector alone shows and no earlier monitor reported the same EDID;
/// it then gets that connector.
pub proof fn lemma_ddcci_connectors_direct(devices: Seq<DdcCiDevice>, conns: Seq<ConnectorInfo>)
    ensures
        spec_ddcci_connectors(devices, conns).len() == devices.len(),
        forall|i: int|
            0 <= i < devices.len() ==> #[trigger] spec_ddcci_connectors(devices, conns)[i]
                == matched_connector(devices, spec_unique_edids(connector_edids(conns)), i),
{
    let t = spec_unique_edids(connector_edids(conns));
    lemma_ddc_assign_len(devices, t);
    lemma_ddc_assign_direct(devices, t);
}

} // verus!
