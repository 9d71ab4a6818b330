//! The dispatcher: given one decoded per-device settings map and the list
//! of currently connected device names, plan at most three batched
//! actuation calls per device — one per feature kind with at least one
//! pending entry. A device named in the map but not connected is silently
//! skipped; when two connected devices share a name, the first takes the
//! batch and the second finds nothing, as the settings are taken out of the
//! map when matched.

use vstd::prelude::*;

use crate::assoc::{lemma_map_of_at, map_of};
use crate::configuration_v3::ActuatorType;
use crate::protocol::{DeviceMap, MotorSettings, MotorSettingsView};

verus! {

/// The mathematical value of one planned actuation call.
pub ghost enum CallView {
    Scalar { device: int, entries: Map<u32, (u32, ActuatorType)> },
    Rotate { device: int, entries: Map<u32, (u32, bool)> },
    Linear { device: int, entries: Map<u32, (u32, u32)> },
}

/// One batched actuation call: the position of the target device in the
/// live device list, and the batch of per-feature-index values of one kind.
pub enum ActuationCall {
    Scalar { device_index: usize, entries: Vec<(u32, (u32, ActuatorType))> },
    Rotate { device_index: usize, entries: Vec<(u32, (u32, bool))> },
    Linear { device_index: usize, entries: Vec<(u32, (u32, u32))> },
}

impl View for ActuationCall {
    type V = CallView;

    open spec fn view(&self) -> CallView {
        match self {
            ActuationCall::Scalar { device_index, entries } => CallView::Scalar {
                device: *device_index as int,
                entries: map_of(entries@),
            },
            ActuationCall::Rotate { device_index, entries } => CallView::Rotate {
                device: *device_index as int,
                entries: map_of(entries@),
            },
            ActuationCall::Linear { device_index, entries } => CallView::Linear {
                device: *device_index as int,
                entries: map_of(entries@),
            },
        }
    }
}

/// The calls one matched device receives: one per feature kind that has at
/// least one pending entry, in scalar, rotate, linear order.
pub open spec fn spec_device_calls(device: int, ms: MotorSettingsView) -> Seq<CallView> {
    (if ms.scalar != Map::<u32, (u32, ActuatorType)>::empty() {
        seq![CallView::Scalar { device, entries: ms.scalar }]
    } else {
        Seq::empty()
    }) + (if ms.rotate != Map::<u32, (u32, bool)>::empty() {
        seq![CallView::Rotate { device, entries: ms.rotate }]
    } else {
        Seq::empty()
    }) + (if ms.linear != Map::<u32, (u32, u32)>::empty() {
        seq![CallView::Linear { device, entries: ms.linear }]
    } else {
        Seq::empty()
    })
}

/// What is left of the settings map after the first `devices` entries of
/// the live list have taken their batches out.
pub open spec fn spec_remaining(
    m: Map<Seq<char>, MotorSettingsView>,
    devices: Seq<Seq<char>>,
) -> Map<Seq<char>, MotorSettingsView>
    decreases devices.len(),
{
    if devices.len() == 0 {
        m
    } else {
        spec_remaining(m, devices.drop_last()).remove(devices.last())
    }
}

/// The planned calls for a live device list, in device order: each device
/// takes its pending settings out of the map, so a duplicate name later in
/// the list finds nothing.
pub open spec fn spec_plan(
    m: Map<Seq<char>, MotorSettingsView>,
    devices: Seq<Seq<char>>,
) -> Seq<CallView>
    decreases devices.len(),
{
    if devices.len() == 0 {
        Seq::empty()
    } else {
        let pre = spec_plan(m, devices.drop_last());
        let rem = spec_remaining(m, devices.drop_last());
        let name = devices.last();
        if rem.contains_key(name) {
            pre + spec_device_calls(devices.len() - 1, rem[name])
        } else {
            pre
        }
    }
}

/// Plan the batched actuation calls of one decoded settings map against the
/// live device list.
pub fn plan_dispatch(device_map: DeviceMap, devices: &Vec<String>) -> (r: Vec<ActuationCall>)
    requires
        device_map.wf(),
    ensures
        Seq::new(r@.len(), |i: int| r@[i]@) == spec_plan(device_map.as_map(), devices.deep_view()),
{
    let ghost m0 = device_map.as_map();
    let ghost names = devices.deep_view();
    let mut dm = device_map;
    let mut calls: Vec<ActuationCall> = Vec::new();
    let n: usize = devices.len();
    let mut i: usize = 0;
    proof {
        assert(names.take(0).len() == 0);
        assert(Seq::new(calls@.len(), |k: int| calls@[k]@) =~= spec_plan(m0, names.take(0)));
    }
    while i < n
        invariant
            n == names.len(),
            names == devices.deep_view(),
            i <= n,
            dm.wf(),
            dm.as_map() == spec_remaining(m0, names.take(i as int)),
            Seq::new(calls@.len(), |k: int| calls@[k]@) == spec_plan(m0, names.take(i as int)),
        decreases n - i,
    {
        let ghost pre_calls = Seq::new(calls@.len(), |k: int| calls@[k]@);
        let ghost rem = dm.as_map();
        proof {
            assert(names.take(i as int + 1).drop_last() =~= names.take(i as int));
            assert(names.take(i as int + 1).last() == names[i as int]);
            assert(devices@[i as int]@ == names[i as int]);
        }
        match dm.remove(devices[i].as_str()) {
            Some(ms) => {
                let ghost msv = ms@;
                let MotorSettings { scalar_map, rotate_map, linear_map } = ms;
                proof {
                    if scalar_map@.len() == 0 {
                        assert(msv.scalar =~= Map::<u32, (u32, ActuatorType)>::empty());
                    } else {
                        lemma_map_of_at(scalar_map@, 0);
                        assert(msv.scalar != Map::<u32, (u32, ActuatorType)>::empty());
                    }
                    if rotate_map@.len() == 0 {
                        assert(msv.rotate =~= Map::<u32, (u32, bool)>::empty());
                    } else {
                        lemma_map_of_at(rotate_map@, 0);
                        assert(msv.rotate != Map::<u32, (u32, bool)>::empty());
                    }
                    if linear_map@.len() == 0 {
                        assert(msv.linear =~= Map::<u32, (u32, u32)>::empty());
                    } else {
                        lemma_map_of_at(linear_map@, 0);
                        assert(msv.linear != Map::<u32, (u32, u32)>::empty());
                    }
                }
                if scalar_map.len() > 0 {
                    calls.push(ActuationCall::Scalar { device_index: i, entries: scalar_map });
                }
                if rotate_map.len() > 0 {
                    calls.push(ActuationCall::Rotate { device_index: i, entries: rotate_map });
                }
                if linear_map.len() > 0 {
                    calls.push(ActuationCall::Linear { device_index: i, entries: linear_map });
                }
                proof {
                    assert(Seq::new(calls@.len(), |k: int| calls@[k]@) =~= pre_calls
                        + spec_device_calls(i as int, msv));
                }
            },
            None => {
                proof {
                    assert(rem.remove(names[i as int]) =~= rem);
                }
            },
        }
        i = i + 1;
        proof {
            assert(Seq::new(calls@.len(), |k: int| calls@[k]@) =~= spec_plan(
                m0,
                names.take(i as int),
            ));
        }
    }
    proof {
        assert(names.take(n as int) =~= names);
    }
    calls
}

} // verus!
