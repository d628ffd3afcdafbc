//! Device discovery results and the rules that turn probed hardware into
//! selectable accelerator entries.  The probing itself (WMI, the NVIDIA
//! management library, the platform's system info) happens in the host;
//! the classification and naming happen here.

use crate::codec::{fmt_u64, spec_u64_string};
use crate::text::{spec_starts_with, starts_with, str_eq};
use crate::utils::{Ep, EpInfo};
use vstd::prelude::*;

verus! {

/// Broad class of a compute device.
#[derive(Clone, Copy, Debug, PartialEq, Eq, Structural)]
pub enum DeviceType {
    Cpu,
    Gpu,
    Npu,
}

/// One selectable device and the accelerators that can drive it.
pub struct Device {
    pub device_type: DeviceType,
    pub name: String,
    pub ep: Vec<EpInfo>,
}

/// One row of the device table: the (deduplicated) key the host shows,
/// and the device behind it.
pub struct DeviceEntry {
    pub key: String,
    pub device: Device,
}

/// A graphics adapter reported by the platform, with its plug-and-play
/// device id.
pub struct AdapterProbe {
    pub name: String,
    pub pnp_device_id: String,
}

/// Only adapters on the PCI bus are selectable.
pub open spec fn spec_adapter_usable(a: AdapterProbe) -> bool {
    spec_starts_with(a.pnp_device_id@, "PCI"@)
}

/// NVIDIA adapters are handled through the CUDA probes instead.
pub open spec fn spec_adapter_nvidia(a: AdapterProbe) -> bool {
    spec_starts_with(a.name@, "NVIDIA"@)
}

/// Intel adapters additionally get OpenVINO.
pub open spec fn spec_adapter_intel(a: AdapterProbe) -> bool {
    spec_starts_with(a.name@, "Intel"@)
}

/// A CUDA-capable card reported by the management library.
pub struct CudaProbe {
    pub name: String,
    pub cc_major: u32,
    pub cc_minor: u32,
}

/// The accelerators of a non-NVIDIA adapter: Intel cards get OpenVINO on
/// the GPU device plus DirectML, others DirectML alone; the DirectML id
/// is the adapter's enumeration index.
pub fn ep_list_for_adapter(intel: bool, index: u64) -> (r: Vec<EpInfo>)
    ensures
        intel ==> r@.len() == 2 && r@[0].ep == Ep::OpenVINO && r@[0].id@ == "gpu"@ && r@[1].ep
            == Ep::DirectML && r@[1].id@ == spec_u64_string(index as int),
        !intel ==> r@.len() == 1 && r@[0].ep == Ep::DirectML && r@[0].id@ == spec_u64_string(
            index as int,
        ),
{
    let mut r: Vec<EpInfo> = Vec::new();
    if intel {
        proof {
            reveal_strlit("gpu");
        }
        let mut gpu = String::new();
        gpu.append("gpu");
        proof {
            assert(gpu@ =~= "gpu"@);
        }
        r.push(EpInfo { ep: Ep::OpenVINO, id: gpu });
        r.push(EpInfo { ep: Ep::DirectML, id: fmt_u64(index) });
    } else {
        r.push(EpInfo { ep: Ep::DirectML, id: fmt_u64(index) });
    }
    r
}

/// Whether a CUDA card is offered TensorRT: the compute capability must
/// have major at least 7 and minor at least 5, each part checked on its
/// own.
pub open spec fn spec_offers_tensorrt(cc_major: u32, cc_minor: u32) -> bool {
    cc_major >= 7 && cc_minor >= 5
}

/// The accelerators of a CUDA card: TensorRT plus CUDA where the compute
/// capability allows it, CUDA alone otherwise; ids are the card's index.
pub fn ep_list_for_cuda(cc_major: u32, cc_minor: u32, index: u64) -> (r: Vec<EpInfo>)
    ensures
        spec_offers_tensorrt(cc_major, cc_minor) ==> r@.len() == 2 && r@[0].ep == Ep::TensorRT
            && r@[0].id@ == spec_u64_string(index as int) && r@[1].ep == Ep::CUDA && r@[1].id@
            == spec_u64_string(index as int),
        !spec_offers_tensorrt(cc_major, cc_minor) ==> r@.len() == 1 && r@[0].ep == Ep::CUDA
            && r@[0].id@ == spec_u64_string(index as int),
{
    let mut r: Vec<EpInfo> = Vec::new();
    if cc_major >= 7 && cc_minor >= 5 {
        r.push(EpInfo { ep: Ep::TensorRT, id: fmt_u64(index) });
        r.push(EpInfo { ep: Ep::CUDA, id: fmt_u64(index) });
    } else {
        r.push(EpInfo { ep: Ep::CUDA, id: fmt_u64(index) });
    }
    r
}

/// The processor entry every table starts with.
pub fn cpu_device() -> (r: DeviceEntry)
    ensures
        r.key@ == "CPU"@,
        r.device.device_type == DeviceType::Cpu,
        r.device.name@ == "CPU"@,
        r.device.ep@.len() == 1 && r.device.ep@[0].ep == Ep::Cpu && r.device.ep@[0].id@ == "cpu"@,
{
    proof {
        reveal_strlit("CPU");
        reveal_strlit("cpu");
    }
    let mut key = String::new();
    key.append("CPU");
    let mut name = String::new();
    name.append("CPU");
    let mut id = String::new();
    id.append("cpu");
    proof {
        assert(key@ =~= "CPU"@);
        assert(name@ =~= "CPU"@);
        assert(id@ =~= "cpu"@);
    }
    let mut ep: Vec<EpInfo> = Vec::new();
    ep.push(EpInfo { ep: Ep::Cpu, id });
    DeviceEntry { key, device: Device { device_type: DeviceType::Cpu, name, ep } }
}

/// No two table rows share a key.
pub open spec fn unique_keys(t: Seq<DeviceEntry>) -> bool {
    forall|i: int, j: int| 0 <= i < j < t.len() ==> (#[trigger] t[i].key)@ != (#[trigger] t[j].key)@
}

fn key_taken(table: &Vec<DeviceEntry>, key: &str) -> (r: bool)
    ensures
        r == (exists|i: int| 0 <= i < table@.len() && (#[trigger] table@[i].key)@ == key@),
{
    let mut i: usize = 0;
    while i < table.len()
        invariant
            i <= table@.len(),
            forall|j: int| 0 <= j < i ==> (#[trigger] table@[j].key)@ != key@,
        decreases table@.len() - i,
    {
        if str_eq(table[i].key.as_str(), key) {
            proof {
                assert((table@[i as int].key)@ == key@);
            }
            return true;
        }
        i = i + 1;
    }
    false
}

/// A key for `base` that no table row holds yet: `base` itself, else
/// `base:1`, `base:2`, and so on.  Gives up (without renaming anything)
/// only when `table.len() + 1` candidates all collide, which distinct
/// keys cannot force.
pub fn unique_name(table: &Vec<DeviceEntry>, base: &str) -> (r: Option<String>)
    ensures
        (match r {
            Some(key) => !(exists|i: int|
                0 <= i < table@.len() && (#[trigger] table@[i].key)@ == key@),
            None => true,
        }),
{
    if !key_taken(table, base) {
        return Some(base.to_owned());
    }
    let mut count: u128 = 1;
    let n = table.len();
    while count <= n as u128 + 1
        invariant
            n == table@.len(),
            1 <= count <= n as u128 + 2,
        decreases n as u128 + 2 - count,
    {
        if count > u64::MAX as u128 {
            return None;
        }
        proof {
            reveal_strlit(":");
        }
        let mut cand = base.to_owned();
        cand.append(":");
        let num = fmt_u64(count as u64);
        cand.append(num.as_str());
        if !key_taken(table, cand.as_str()) {
            return Some(cand);
        }
        count = count + 1;
    }
    None
}

/// Build the device table of one machine: the processor first, then the
/// usable graphics adapters (PCI, non-NVIDIA), then the CUDA cards, each
/// under a key no earlier row holds.  An adapter or card whose every
/// candidate key is taken is left out rather than shadowing another row.
pub fn build_device_table(adapters: Vec<AdapterProbe>, cuda: Vec<CudaProbe>) -> (r: Vec<
    DeviceEntry,
>)
    ensures
        unique_keys(r@),
        r@.len() >= 1,
        r@[0].key@ == "CPU"@,
        r@[0].device.device_type == DeviceType::Cpu,
{
    let mut table: Vec<DeviceEntry> = Vec::new();
    table.push(cpu_device());
    let mut i: usize = 0;
    while i < adapters.len()
        invariant
            i <= adapters@.len(),
            unique_keys(table@),
            table@.len() >= 1,
            table@[0].key@ == "CPU"@,
            table@[0].device.device_type == DeviceType::Cpu,
        decreases adapters@.len() - i,
    {
        let a = &adapters[i];
        let usable = starts_with(a.pnp_device_id.as_str(), "PCI") && !starts_with(
            a.name.as_str(),
            "NVIDIA",
        );
        if usable {
            match unique_name(&table, a.name.as_str()) {
                Some(key) => {
                    let ghost pre = table@;
                    let intel = starts_with(a.name.as_str(), "Intel");
                    let ep = ep_list_for_adapter(intel, i as u64);
                    let device = Device {
                        device_type: DeviceType::Gpu,
                        name: a.name.clone(),
                        ep,
                    };
                    table.push(DeviceEntry { key, device });
                    proof {
                        assert forall|x: int, y: int|
                            0 <= x < y < table@.len() implies (#[trigger] table@[x].key)@ != (
                        #[trigger] table@[y].key)@ by {
                            if y < pre.len() {
                                assert(table@[x] == pre[x] && table@[y] == pre[y]);
                            } else {
                                assert(table@[x] == pre[x]);
                                assert(!(exists|z: int|
                                    0 <= z < pre.len() && (#[trigger] pre[z].key)@
                                        == table@[y].key@));
                            }
                        }
                    }
                },
                None => {},
            }
        }
        i = i + 1;
    }
    let mut j: usize = 0;
    while j < cuda.len()
        invariant
            j <= cuda@.len(),
            unique_keys(table@),
            table@.len() >= 1,
            table@[0].key@ == "CPU"@,
            table@[0].device.device_type == DeviceType::Cpu,
        decreases cuda@.len() - j,
    {
        let c = &cuda[j];
        match unique_name(&table, c.name.as_str()) {
            Some(key) => {
                let ghost pre = table@;
                let ep = ep_list_for_cuda(c.cc_major, c.cc_minor, j as u64);
                let device = Device { device_type: DeviceType::Gpu, name: c.name.clone(), ep };
                table.push(DeviceEntry { key, device });
                proof {
                    assert forall|x: int, y: int|
                        0 <= x < y < table@.len() implies (#[trigger] table@[x].key)@ != (
                    #[trigger] table@[y].key)@ by {
                        if y < pre.len() {
                            assert(table@[x] == pre[x] && table@[y] == pre[y]);
                        } else {
                            assert(table@[x] == pre[x]);
                            assert(!(exists|z: int|
                                0 <= z < pre.len() && (#[trigger] pre[z].key)@ == table@[y].key@));
                        }
                    }
                }
            },
            None => {},
        }
        j = j + 1;
    }
    table
}

} // verus!
