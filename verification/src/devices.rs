//! The device layer's view of connected hardware, reduced to plain values:
//! per-device declared feature counts and identifiers, the motor addresses
//! they give rise to, and the stable identifier strings.

use vstd::prelude::*;

use crate::configuration_v3::{ActuatorType, MotorConfigurationV3, MotorTypeV3, MotorV3View};

verus! {

/// The declared features of one connected device, as the external device
/// layer reports them: the actuator type of each scalar feature in index
/// order, and the counts of rotation and linear features.
pub struct DeviceFeatures {
    pub device_name: String,
    pub device_identifier: Option<String>,
    pub scalar_actuators: Vec<ActuatorType>,
    pub rotate_count: u32,
    pub linear_count: u32,
}

/// The mathematical value of a device status.
pub ghost struct DeviceStatusView {
    pub name: Seq<char>,
    pub battery_percent: Option<i32>,
    pub rssi_level: Option<i32>,
}

/// The status of a single connected device, battery charge as whole
/// percent.
#[derive(Clone, PartialEq, Eq, Debug)]
pub struct DeviceStatus {
    pub name: String,
    pub battery_percent: Option<i32>,
    pub rssi_level: Option<i32>,
}

impl View for DeviceStatus {
    type V = DeviceStatusView;

    open spec fn view(&self) -> DeviceStatusView {
        DeviceStatusView {
            name: self.name@,
            battery_percent: self.battery_percent,
            rssi_level: self.rssi_level,
        }
    }
}

/// The stable identifier of a connected device, assembled from its
/// protocol, address and protocol-internal identifier.
#[derive(Clone, PartialEq, Eq, Debug)]
pub struct ServerDeviceIdentifier {
    pub address: String,
    pub protocol: String,
    pub attributes_identifier: ProtocolAttributesType,
}

/// The protocol-internal identifier of a device, when its protocol
/// distinguishes device flavours.
#[derive(Clone, PartialEq, Eq, Debug)]
pub enum ProtocolAttributesType {
    Default,
    Identifier(String),
}

/// The identifier string of a device: `protocol://address` with the
/// protocol-internal identifier appended after a slash when present.
pub open spec fn spec_device_id(
    protocol: Seq<char>,
    address: Seq<char>,
    identifier: Option<Seq<char>>,
) -> Seq<char> {
    match identifier {
        Some(id) => protocol + "://"@ + address + "/"@ + id,
        None => protocol + "://"@ + address,
    }
}

/// Format the stable identifier of a device.
pub fn id_from_device(id: &ServerDeviceIdentifier) -> (r: String)
    ensures
        r@ == spec_device_id(
            id.protocol@,
            id.address@,
            match id.attributes_identifier {
                ProtocolAttributesType::Identifier(s) => Some(s@),
                ProtocolAttributesType::Default => None,
            },
        ),
{
    let mut out = crate::text::chars_of(id.protocol.as_str());
    let sep = crate::text::chars_of("://");
    crate::codec::append_chars(&mut out, sep.as_slice());
    let addr = crate::text::chars_of(id.address.as_str());
    crate::codec::append_chars(&mut out, addr.as_slice());
    match &id.attributes_identifier {
        ProtocolAttributesType::Identifier(s) => {
            let slash = crate::text::chars_of("/");
            crate::codec::append_chars(&mut out, slash.as_slice());
            let idc = crate::text::chars_of(s.as_str());
            crate::codec::append_chars(&mut out, idc.as_slice());
        },
        ProtocolAttributesType::Default => {},
    }
    let r = crate::text::string_from_chars(out.as_slice());
    proof {
        assert(r@ =~= spec_device_id(
            id.protocol@,
            id.address@,
            match id.attributes_identifier {
                ProtocolAttributesType::Identifier(s) => Some(s@),
                ProtocolAttributesType::Default => None,
            },
        ));
    }
    r
}

/// A full debug name for a device: the display name, with the stable
/// identifier appended after `@` when known.
pub fn debug_name_from_device(name: &str, identifier: Option<&String>) -> (r: String)
    ensures
        r@ == (match identifier {
            Some(id) => name@ + "@"@ + id@,
            None => name@,
        }),
{
    match identifier {
        Some(id) => {
            let mut out = crate::text::chars_of(name);
            let at = crate::text::chars_of("@");
            crate::codec::append_chars(&mut out, at.as_slice());
            let idc = crate::text::chars_of(id.as_str());
            crate::codec::append_chars(&mut out, idc.as_slice());
            let r = crate::text::string_from_chars(out.as_slice());
            proof {
                assert(r@ =~= name@ + "@"@ + id@);
            }
            r
        },
        None => {
            let chars = crate::text::chars_of(name);
            crate::text::string_from_chars(chars.as_slice())
        },
    }
}

/// The motor addresses one device's declared features give rise to: its
/// scalar features in index order with their actuator types, then its
/// rotation features, then its linear features.
pub open spec fn spec_device_motors(
    name: Seq<char>,
    identifier: Option<Seq<char>>,
    scalars: Seq<ActuatorType>,
    rotate_count: int,
    linear_count: int,
) -> Seq<MotorV3View> {
    Seq::new(
        scalars.len(),
        |i: int|
            MotorV3View {
                device_name: name,
                device_identifier: identifier,
                feature_index: i as u32,
                feature_type: MotorTypeV3::Scalar { actuator_type: scalars[i] },
            },
    ) + Seq::new(
        rotate_count as nat,
        |i: int|
            MotorV3View {
                device_name: name,
                device_identifier: identifier,
                feature_index: i as u32,
                feature_type: MotorTypeV3::Rotation,
            },
    ) + Seq::new(
        linear_count as nat,
        |i: int|
            MotorV3View {
                device_name: name,
                device_identifier: identifier,
                feature_index: i as u32,
                feature_type: MotorTypeV3::Linear,
            },
    )
}

/// All distinct motor addresses of the connected devices, in device order.
pub open spec fn spec_all_motors(devices: Seq<DeviceFeatures>) -> Seq<MotorV3View>
    decreases devices.len(),
{
    if devices.len() == 0 {
        Seq::empty()
    } else {
        spec_all_motors(devices.drop_last()) + ({
            let d = devices.last();
            spec_device_motors(
                d.device_name@,
                match d.device_identifier {
                    Some(s) => Some(s@),
                    None => None,
                },
                d.scalar_actuators@,
                d.rotate_count as int,
                d.linear_count as int,
            )
        })
    }
}

/// Enumerate the motor addresses of the connected devices' declared
/// features.
pub fn motor_configuration_from_devices(devices: &Vec<DeviceFeatures>) -> (r: Vec<
    MotorConfigurationV3,
>)
    requires
        forall|i: int|
            0 <= i < devices@.len() ==> (#[trigger] devices@[i]).scalar_actuators@.len()
                <= u32::MAX && devices@[i].rotate_count <= u32::MAX && devices@[i].linear_count
                <= u32::MAX,
    ensures
        Seq::new(r@.len(), |i: int| r@[i]@) == spec_all_motors(devices@),
{
    let mut out: Vec<MotorConfigurationV3> = Vec::new();
    let mut d: usize = 0;
    proof {
        assert(devices@.take(0).len() == 0);
        assert(Seq::new(out@.len(), |i: int| out@[i]@) =~= spec_all_motors(devices@.take(0)));
    }
    while d < devices.len()
        invariant
            d <= devices@.len(),
            forall|i: int|
                0 <= i < devices@.len() ==> (#[trigger] devices@[i]).scalar_actuators@.len()
                    <= u32::MAX && devices@[i].rotate_count <= u32::MAX && devices@[i].linear_count
                    <= u32::MAX,
            Seq::new(out@.len(), |i: int| out@[i]@) == spec_all_motors(devices@.take(d as int)),
        decreases devices@.len() - d,
    {
        let ghost pre = Seq::new(out@.len(), |i: int| out@[i]@);
        let dev = &devices[d];
        let ghost name_view = dev.device_name@;
        let ghost id_view = match &dev.device_identifier {
            Some(s) => Some(s@),
            None => None,
        };
        let ghost block = spec_device_motors(
            name_view,
            id_view,
            dev.scalar_actuators@,
            dev.rotate_count as int,
            dev.linear_count as int,
        );
        let ns: usize = dev.scalar_actuators.len();
        let mut i: usize = 0;
        while i < ns
            invariant
                i <= ns,
                ns == dev.scalar_actuators@.len(),
                ns <= u32::MAX,
                dev == devices@[d as int],
                d < devices@.len(),
                name_view == dev.device_name@,
                id_view == (match dev.device_identifier {
                    Some(s) => Some(s@),
                    None => None,
                }),
                block == spec_device_motors(
                    name_view,
                    id_view,
                    dev.scalar_actuators@,
                    dev.rotate_count as int,
                    dev.linear_count as int,
                ),
                Seq::new(out@.len(), |k: int| out@[k]@) == pre + block.take(i as int),
            decreases ns - i,
        {
            let motor = MotorConfigurationV3 {
                device_name: dev.device_name.clone(),
                device_identifier: match &dev.device_identifier {
                    Some(s) => Some(s.clone()),
                    None => None,
                },
                feature_index: i as u32,
                feature_type: MotorTypeV3::Scalar { actuator_type: dev.scalar_actuators[i] },
            };
            proof {
                let bm = block[i as int];
                assert(bm.device_name == name_view);
                assert(bm.device_identifier == id_view);
                assert(bm.feature_index == i as u32);
                assert(bm.feature_type == MotorTypeV3::Scalar {
                    actuator_type: dev.scalar_actuators@[i as int],
                });
                assert(motor@.device_identifier == id_view);
                assert(motor@ == bm);
            }
            let ghost old_out = out@;
            let ghost motor_snapshot = motor;
            out.push(motor);
            i = i + 1;
            proof {
                assert(out@ =~= old_out + seq![motor_snapshot]);
                lemma_views_push(old_out, out@, motor_snapshot, pre, block, i as int);
            }
        }
        let nr: usize = dev.rotate_count as usize;
        let mut j: usize = 0;
        while j < nr
            invariant
                j <= nr,
                nr == dev.rotate_count,
                ns == dev.scalar_actuators@.len(),
                dev == devices@[d as int],
                d < devices@.len(),
                name_view == dev.device_name@,
                id_view == (match dev.device_identifier {
                    Some(s) => Some(s@),
                    None => None,
                }),
                block == spec_device_motors(
                    name_view,
                    id_view,
                    dev.scalar_actuators@,
                    dev.rotate_count as int,
                    dev.linear_count as int,
                ),
                Seq::new(out@.len(), |k: int| out@[k]@) == pre + block.take(ns + j as int),
            decreases nr - j,
        {
            let motor = MotorConfigurationV3 {
                device_name: dev.device_name.clone(),
                device_identifier: match &dev.device_identifier {
                    Some(s) => Some(s.clone()),
                    None => None,
                },
                feature_index: j as u32,
                feature_type: MotorTypeV3::Rotation,
            };
            proof {
                let bm = block[ns + j as int];
                assert(bm.device_name == name_view);
                assert(bm.device_identifier == id_view);
                assert(bm.feature_index == j as u32);
                assert(bm.feature_type == MotorTypeV3::Rotation);
                assert(motor@.device_identifier == id_view);
                assert(motor@ == bm);
            }
            let ghost old_out = out@;
            let ghost motor_snapshot = motor;
            out.push(motor);
            j = j + 1;
            proof {
                assert(out@ =~= old_out + seq![motor_snapshot]);
                lemma_views_push(old_out, out@, motor_snapshot, pre, block, ns + j as int);
            }
        }
        let nl: usize = dev.linear_count as usize;
        let mut j2: usize = 0;
        while j2 < nl
            invariant
                j2 <= nl,
                nl == dev.linear_count,
                nr == dev.rotate_count,
                ns == dev.scalar_actuators@.len(),
                dev == devices@[d as int],
                d < devices@.len(),
                name_view == dev.device_name@,
                id_view == (match dev.device_identifier {
                    Some(s) => Some(s@),
                    None => None,
                }),
                block == spec_device_motors(
                    name_view,
                    id_view,
                    dev.scalar_actuators@,
                    dev.rotate_count as int,
                    dev.linear_count as int,
                ),
                Seq::new(out@.len(), |k: int| out@[k]@) == pre + block.take(ns + nr + j2 as int),
            decreases nl - j2,
        {
            let motor = MotorConfigurationV3 {
                device_name: dev.device_name.clone(),
                device_identifier: match &dev.device_identifier {
                    Some(s) => Some(s.clone()),
                    None => None,
                },
                feature_index: j2 as u32,
                feature_type: MotorTypeV3::Linear,
            };
            proof {
                let bm = block[ns + nr + j2 as int];
                assert(bm.device_name == name_view);
                assert(bm.device_identifier == id_view);
                assert(bm.feature_index == j2 as u32);
                assert(bm.feature_type == MotorTypeV3::Linear);
                assert(motor@.device_identifier == id_view);
                assert(motor@ == bm);
            }
            let ghost old_out = out@;
            let ghost motor_snapshot = motor;
            out.push(motor);
            j2 = j2 + 1;
            proof {
                assert(out@ =~= old_out + seq![motor_snapshot]);
                lemma_views_push(old_out, out@, motor_snapshot, pre, block, ns + nr + j2 as int);
            }
        }
        proof {
            assert(block.take(ns + nr + nl as int) =~= block);
            assert(devices@.take(d as int + 1).drop_last() =~= devices@.take(d as int));
            assert(devices@.take(d as int + 1).last() == devices@[d as int]);
            assert(Seq::new(out@.len(), |k: int| out@[k]@) =~= spec_all_motors(
                devices@.take(d as int + 1),
            ));
        }
        d = d + 1;
    }
    proof {
        assert(devices@.take(devices@.len() as int) =~= devices@);
    }
    out
}

/// Pushing a motor whose view is the next block element extends the view
/// sequence by that element.
proof fn lemma_views_push(
    old_vec: Seq<MotorConfigurationV3>,
    new_vec: Seq<MotorConfigurationV3>,
    m: MotorConfigurationV3,
    pre: Seq<MotorV3View>,
    block: Seq<MotorV3View>,
    t: int,
)
    requires
        0 < t <= block.len(),
        new_vec == old_vec + seq![m],
        m@ == block[t - 1],
        Seq::new(old_vec.len(), |k: int| old_vec[k]@) == pre + block.take(t - 1),
    ensures
        Seq::new(new_vec.len(), |k: int| new_vec[k]@) == pre + block.take(t),
{
    let before = Seq::new(old_vec.len(), |k: int| old_vec[k]@);
    let cur = Seq::new(new_vec.len(), |k: int| new_vec[k]@);
    assert(before.len() == old_vec.len());
    assert((pre + block.take(t - 1)).len() == pre.len() + (t - 1));
    assert(before.len() == pre.len() + (t - 1));
    assert(new_vec.len() == old_vec.len() + 1);
    assert forall|k: int| 0 <= k < cur.len() implies cur[k] == (pre + block.take(t))[k] by {
        if k < cur.len() - 1 {
            assert(new_vec[k] == old_vec[k]);
            assert(cur[k] == before[k]);
            assert(before[k] == (pre + block.take(t - 1))[k]);
            if k >= pre.len() {
                assert(block.take(t - 1)[k - pre.len()] == block[k - pre.len()]);
                assert(block.take(t)[k - pre.len()] == block[k - pre.len()]);
            }
        } else {
            assert(new_vec[k] == m);
            assert(block.take(t)[k - pre.len()] == block[t - 1]);
        }
    }
    assert(cur =~= pre + block.take(t));
}

} // verus!