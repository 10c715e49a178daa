//! The devices of the reactor and the cables between them: reading the list
//! of cables, looking up where a device leads, and putting together the
//! number of routes that pass two given devices.

use crate::text::{
    fields, find_mark, first_mark, lines, split_fields, split_lines, views, Separator,
};
use vstd::prelude::*;
use vstd::slice::slice_subrange;
use vstd::string::StringSliceAdditionalSpecFns;

verus! {

/// A device and the devices that its outputs lead to, by name.
#[derive(Debug, Clone)]
pub struct Device {
    pub name: Vec<u8>,
    pub outputs: Vec<Vec<u8>>,
}

/// What a [`Device`] holds.
pub struct DeviceView {
    pub name: Seq<u8>,
    pub outputs: Seq<Seq<u8>>,
}

impl View for Device {
    type V = DeviceView;

    open spec fn view(&self) -> DeviceView {
        DeviceView { name: self.name@, outputs: views(self.outputs@) }
    }
}

/// The devices as values.
pub open spec fn device_views(devices: Seq<Device>) -> Seq<DeviceView> {
    Seq::new(devices.len(), |i: int| devices[i]@)
}

/// The device that a line describes: its name before the first colon, and after it the
/// names of its outputs with one space before each. What stands between the colon and the
/// first space counts as an output too, and is the empty name as a rule.
pub open spec fn device_of(line: Seq<u8>) -> Option<DeviceView> {
    let colon = first_mark(line, 58, 0);
    if colon >= line.len() {
        None
    } else {
        Some(
            DeviceView {
                name: line.take(colon),
                outputs: fields(line.skip(colon + 1), Separator::Space),
            },
        )
    }
}

/// The devices of the first `upto` lines, if each describes one.
pub open spec fn devices_of(all: Seq<Seq<u8>>, upto: int) -> Option<Seq<DeviceView>>
    decreases upto,
{
    if upto <= 0 {
        Some(Seq::empty())
    } else {
        match (devices_of(all, upto - 1), device_of(all[upto - 1])) {
            (Some(before), Some(device)) => Some(before.push(device)),
            _ => None,
        }
    }
}

/// Where the device `name` leads, going by the first `upto` entries: the outputs of the
/// last entry of that name, and nowhere if there is none.
pub open spec fn outputs_of(graph: Seq<DeviceView>, name: Seq<u8>, upto: int) -> Seq<Seq<u8>>
    decreases upto,
{
    if upto <= 0 {
        Seq::empty()
    } else if graph[upto - 1].name == name {
        graph[upto - 1].outputs
    } else {
        outputs_of(graph, name, upto - 1)
    }
}

/// Once a line describes no device, no devices come of the lines.
pub proof fn lemma_devices_fail(all: Seq<Seq<u8>>, upto: int)
    requires
        0 <= upto <= all.len(),
        devices_of(all, upto) is None,
    ensures
        devices_of(all, all.len() as int) is None,
    decreases all.len() - upto,
{
    if upto < all.len() {
        lemma_devices_fail(all, upto + 1);
    }
}

/// Reads the devices and their outputs, one device per line.
///
/// `None` where a line has no colon.
pub fn build_graph(input: &str) -> (r: Option<Vec<Device>>)
    ensures
        match r {
            Some(graph) => devices_of(
                lines(input.spec_bytes()),
                lines(input.spec_bytes()).len() as int,
            ) == Some(device_views(graph@)),
            None => devices_of(lines(input.spec_bytes()), lines(input.spec_bytes()).len() as int)
                is None,
        },
{
    let rows = split_lines(input.as_bytes());
    let ghost all = lines(input.spec_bytes());
    let mut graph: Vec<Device> = Vec::new();
    let mut i: usize = 0;
    assert(device_views(graph@) =~= Seq::<DeviceView>::empty());
    while i < rows.len()
        invariant
            i <= rows.len(),
            all == views(rows@),
            all == lines(input.spec_bytes()),
            devices_of(all, i as int) == Some(device_views(graph@)),
        decreases rows.len() - i,
    {
        let line = rows[i].as_slice();
        assert(all[i as int] == line@);
        let colon = find_mark(line, 58);
        if colon >= line.len() {
            proof {
                lemma_devices_fail(all, i + 1);
            }
            return None;
        }
        let name = copy_bytes(slice_subrange(line, 0, colon));
        let outputs = split_fields(slice_subrange(line, colon + 1, line.len()), Separator::Space);
        proof {
            assert(line@.take(colon as int) == line@.subrange(0, colon as int));
            assert(line@.skip(colon + 1) == line@.subrange(colon + 1, line@.len() as int));
        }
        let ghost before = device_views(graph@);
        let device = Device { name, outputs };
        graph.push(device);
        assert(device_views(graph@) =~= before.push(device@));
        i += 1;
    }
    Some(graph)
}

/// Copies the bytes.
pub fn copy_bytes(s: &[u8]) -> (r: Vec<u8>)
    ensures
        r@ == s@,
{
    let mut out: Vec<u8> = Vec::new();
    let mut i: usize = 0;
    while i < s.len()
        invariant
            i <= s.len(),
            out@ == s@.take(i as int),
        decreases s.len() - i,
    {
        out.push(s[i]);
        assert(out@ =~= s@.take(i + 1));
        i += 1;
    }
    assert(s@.take(i as int) == s@);
    out
}

/// Tells whether two names are the same.
pub fn same_name(a: &[u8], b: &[u8]) -> (r: bool)
    ensures
        r == (a@ == b@),
{
    if a.len() != b.len() {
        return false;
    }
    let mut i: usize = 0;
    while i < a.len()
        invariant
            i <= a.len(),
            a@.len() == b@.len(),
            forall|k: int| 0 <= k < i ==> a@[k] == b@[k],
        decreases a.len() - i,
    {
        if a[i] != b[i] {
            return false;
        }
        i += 1;
    }
    assert(a@ =~= b@);
    true
}

/// Where the device `name` leads: the outputs of the last entry of that name, and nowhere
/// if the list has none.
pub fn successors(graph: &Vec<Device>, name: &[u8]) -> (r: Vec<Vec<u8>>)
    ensures
        views(r@) == outputs_of(device_views(graph@), name@, graph@.len() as int),
{
    let mut i: usize = graph.len();
    while i > 0
        invariant
            i <= graph.len(),
            outputs_of(device_views(graph@), name@, graph@.len() as int) == outputs_of(
                device_views(graph@),
                name@,
                i as int,
            ),
        decreases i,
    {
        i -= 1;
        assert(device_views(graph@)[i as int] == graph@[i as int]@);
        if same_name(graph[i].name.as_slice(), name) {
            let outputs = &graph[i].outputs;
            let mut out: Vec<Vec<u8>> = Vec::new();
            let mut k: usize = 0;
            while k < outputs.len()
                invariant
                    k <= outputs.len(),
                    views(out@) == views(outputs@).take(k as int),
                decreases outputs.len() - k,
            {
                let ghost before = views(out@);
                let copy = copy_bytes(outputs[k].as_slice());
                out.push(copy);
                assert(views(out@) =~= before.push(outputs@[k as int]@));
                assert(views(out@) =~= views(outputs@).take(k + 1));
                k += 1;
            }
            assert(views(outputs@).take(k as int) == views(outputs@));
            return out;
        }
    }
    let out: Vec<Vec<u8>> = Vec::new();
    assert(views(out@) =~= Seq::<Seq<u8>>::empty());
    out
}

/// In which order a route passes the two devices that it must pass.
#[derive(Debug, Clone, Copy, PartialEq, Eq, Structural)]
pub enum Order {
    /// From `svr` to `dac`, on to `fft`, and then to `out`.
    DacFirst,
    /// From `svr` to `fft`, on to `dac`, and then to `out`.
    FftFirst,
}

/// The order in which the two devices are passed, from the number of routes that lead from
/// `dac` to `fft`. Where there is such a route there is none the other way, the cables
/// having no loop.
pub fn route_order(dac_fft: usize) -> (r: Order)
    ensures
        r == if dac_fft != 0 {
            Order::DacFirst
        } else {
            Order::FftFirst
        },
{
    if dac_fft != 0 {
        Order::DacFirst
    } else {
        Order::FftFirst
    }
}

/// The number of routes that are made of three legs, from the number of routes of each leg.
/// `None` where it does not fit a `usize`.
pub fn legs_product(first: usize, second: usize, third: usize) -> (r: Option<usize>)
    ensures
        r == if first * second * third <= usize::MAX {
            Some((first * second * third) as usize)
        } else {
            None
        },
{
    if first == 0 || second == 0 || third == 0 {
        assert(first * second * third == 0) by (nonlinear_arith)
            requires
                first == 0 || second == 0 || third == 0,
        ;
        return Some(0);
    }
    match first.checked_mul(second) {
        Some(two) => two.checked_mul(third),
        None => {
            assert(first * second * third > usize::MAX) by (nonlinear_arith)
                requires
                    first * second > usize::MAX,
                    third >= 1,
            ;
            None
        },
    }
}

} // verus!
