//! Regrouping of what the devices of each chunk's data bus yield: counters from
//! "one bus per chunk" into "one list per device", and the first collector of
//! each bus for the instance that the buses were built for.

use vstd::prelude::*;
use crate::plan::ChunkId;

verus! {

/// Whether the device list of a bus holds the main counter at `main_idx`.
pub open spec fn has_main(main_idx: Option<usize>, num_devices: nat) -> bool {
    main_idx is Some && main_idx->Some_0 < num_devices
}

/// The devices of a bus other than the main counter, in order.
pub open spec fn secondary_of<T>(devices: Seq<Option<T>>, main_idx: Option<usize>) -> Seq<Option<T>> {
    if has_main(main_idx, devices.len()) {
        devices.remove(main_idx->Some_0 as int)
    } else {
        devices
    }
}

/// Splits the devices of one bus into the main counter, if `main_idx` names one,
/// and the others in order.
pub fn split_main<T>(devices: Vec<Option<T>>, main_idx: Option<usize>) -> (r: (Option<Option<T>>, Vec<Option<T>>))
    ensures
        r.0 == if has_main(main_idx, devices@.len()) {
            Some(devices@[main_idx->Some_0 as int])
        } else {
            None::<Option<T>>
        },
        r.1@ == secondary_of(devices@, main_idx),
{
    let ghost d = devices@;
    let n = devices.len();
    let mut main: Option<Option<T>> = None;
    let mut secondary: Vec<Option<T>> = Vec::new();
    let mut idx: usize = 0;
    for dev in it: devices.into_iter()
        invariant
            idx == it.index(),
            it.seq() == d,
            d.len() == n,
            idx <= n,
            main == if has_main(main_idx, idx as nat) {
                Some(d[main_idx->Some_0 as int])
            } else {
                None::<Option<T>>
            },
            secondary@ == secondary_of(d.take(idx as int), main_idx),
    {
        let ghost before = secondary@;
        let is_main = match main_idx {
            Some(i) => i == idx,
            None => false,
        };
        assert(d.take(idx + 1) =~= d.take(idx as int).push(dev));
        if is_main {
            main = Some(dev);
            assert(secondary@ =~= d.take(idx + 1).remove(idx as int));
        } else {
            secondary.push(dev);
            proof {
                if has_main(main_idx, idx as nat) {
                    assert(secondary@ =~= d.take(idx + 1).remove(main_idx->Some_0 as int));
                } else {
                    assert(secondary@ =~= d.take(idx + 1));
                }
            }
        }
        idx = idx + 1;
    }
    assert(d.take(idx as int) =~= d);
    (main, secondary)
}

/// Regroups what each chunk's bus yields, `num_devices` devices per bus, into
/// one list per device of `(chunk, device)` in chunk order.
pub fn group_by_device<T>(per_chunk: Vec<Vec<Option<T>>>, num_devices: usize) -> (r: Vec<Vec<(ChunkId, Option<T>)>>)
    requires
        forall|c: int| 0 <= c < per_chunk@.len() ==> (#[trigger] per_chunk@[c])@.len() == num_devices,
    ensures
        r@.len() == num_devices,
        forall|d: int|
            0 <= d < num_devices ==> (#[trigger] r@[d])@.len() == per_chunk@.len() && forall|c: int|
                0 <= c < per_chunk@.len() ==> #[trigger] r@[d]@[c] == (ChunkId(c as usize), per_chunk@[c]@[d]),
{
    let ghost pc = per_chunk@;
    let n = per_chunk.len();
    let mut groups: Vec<Vec<(ChunkId, Option<T>)>> = Vec::new();
    let mut d: usize = 0;
    while d < num_devices
        invariant
            d <= num_devices,
            groups@.len() == d,
            forall|j: int| 0 <= j < d ==> (#[trigger] groups@[j])@.len() == 0,
        decreases num_devices - d,
    {
        groups.push(Vec::new());
        d = d + 1;
    }
    let mut c: usize = 0;
    for devices in it: per_chunk.into_iter()
        invariant
            c == it.index(),
            it.seq() == pc,
            pc.len() == n,
            c <= n,
            forall|k: int| 0 <= k < pc.len() ==> (#[trigger] pc[k])@.len() == num_devices,
            groups@.len() == num_devices,
            forall|j: int|
                0 <= j < num_devices ==> (#[trigger] groups@[j])@.len() == c && forall|k: int|
                    0 <= k < c ==> #[trigger] groups@[j]@[k] == (ChunkId(k as usize), pc[k]@[j]),
    {
        let ghost devs = devices@;
        assert(devs == pc[c as int]@);
        let mut k: usize = 0;
        for dev in dit: devices.into_iter()
            invariant
                k == dit.index(),
                dit.seq() == devs,
                devs.len() == num_devices,
                devs == pc[c as int]@,
                c < pc.len(),
                k <= num_devices,
                groups@.len() == num_devices,
                forall|j: int|
                    0 <= j < num_devices ==> (#[trigger] groups@[j])@.len() == if j < k {
                        c + 1
                    } else {
                        c as int
                    },
                forall|j: int, q: int|
                    0 <= j < num_devices && 0 <= q < c ==> #[trigger] groups@[j]@[q] == (
                        ChunkId(q as usize),
                        pc[q]@[j],
                    ),
                forall|j: int| 0 <= j < k ==> #[trigger] groups@[j]@[c as int] == (ChunkId(c), devs[j]),
        {
            let ghost before = groups@;
            groups[k].push((ChunkId(c), dev));
            assert forall|j: int| 0 <= j < num_devices && j != k implies #[trigger] groups@[j] == before[j] by {}
            k = k + 1;
        }
        c = c + 1;
    }
    groups
}

/// Number of devices other than the main counter on a bus of `num_devices`.
pub open spec fn num_secondary(main_idx: Option<usize>, num_devices: nat) -> nat {
    if has_main(main_idx, num_devices) {
        (num_devices - 1) as nat
    } else {
        num_devices
    }
}

/// Tells whether counting yields something to plan from: at least one chunk, and
/// `num_devices` devices on every chunk's bus.
pub fn counters_are_uniform<T>(per_chunk: &Vec<Vec<Option<T>>>, num_devices: usize) -> (r: bool)
    ensures
        r == (per_chunk@.len() > 0 && forall|c: int|
            0 <= c < per_chunk@.len() ==> (#[trigger] per_chunk@[c])@.len() == num_devices),
{
    if per_chunk.len() == 0 {
        return false;
    }
    let mut c: usize = 0;
    while c < per_chunk.len()
        invariant
            c <= per_chunk@.len(),
            forall|k: int| 0 <= k < c ==> (#[trigger] per_chunk@[k])@.len() == num_devices,
        decreases per_chunk@.len() - c,
    {
        if per_chunk[c].len() != num_devices {
            assert(per_chunk@[c as int]@.len() != num_devices);
            return false;
        }
        c = c + 1;
    }
    true
}

/// Splits what the bus of each chunk yields, `num_devices` devices per bus, into
/// the main counters, one per chunk, and one list per secondary device, ordered
/// by chunk.
pub fn group_counters<T>(per_chunk: Vec<Vec<Option<T>>>, main_idx: Option<usize>, num_devices: usize) -> (r: (
    Vec<(ChunkId, Option<T>)>,
    Vec<Vec<(ChunkId, Option<T>)>>,
))
    requires
        per_chunk@.len() > 0,
        forall|c: int| 0 <= c < per_chunk@.len() ==> (#[trigger] per_chunk@[c])@.len() == num_devices,
    ensures
        r.0@ == if has_main(main_idx, num_devices as nat) {
            Seq::new(
                per_chunk@.len(),
                |c: int| (ChunkId(c as usize), per_chunk@[c]@[main_idx->Some_0 as int]),
            )
        } else {
            Seq::empty()
        },
        r.1@.len() == num_secondary(main_idx, num_devices as nat),
        forall|d: int|
            0 <= d < r.1@.len() ==> (#[trigger] r.1@[d])@.len() == per_chunk@.len() && forall|c: int|
                0 <= c < per_chunk@.len() ==> #[trigger] r.1@[d]@[c] == (
                    ChunkId(c as usize),
                    secondary_of(per_chunk@[c]@, main_idx)[d],
                ),
{
    let ghost pc = per_chunk@;
    let n = per_chunk.len();
    let main_present = match main_idx {
        Some(i) => i < num_devices,
        None => false,
    };
    let num_secn = if main_present {
        num_devices - 1
    } else {
        num_devices
    };
    let mut main: Vec<(ChunkId, Option<T>)> = Vec::new();
    let mut secs: Vec<Vec<Option<T>>> = Vec::new();
    let mut c: usize = 0;
    for devices in it: per_chunk.into_iter()
        invariant
            c == it.index(),
            it.seq() == pc,
            pc.len() == n,
            c <= n,
            forall|k: int| 0 <= k < pc.len() ==> (#[trigger] pc[k])@.len() == num_devices,
            main_present == has_main(main_idx, num_devices as nat),
            num_secn == num_secondary(main_idx, num_devices as nat),
            main@ == if main_present {
                Seq::new(c as nat, |k: int| (ChunkId(k as usize), pc[k]@[main_idx->Some_0 as int]))
            } else {
                Seq::empty()
            },
            secs@.len() == c,
            forall|k: int| 0 <= k < c ==> (#[trigger] secs@[k])@ == secondary_of(pc[k]@, main_idx),
    {
        assert(devices@ == pc[c as int]@);
        let (m, sec) = split_main(devices, main_idx);
        match m {
            Some(x) => {
                main.push((ChunkId(c), x));
            },
            None => {},
        }
        proof {
            if main_present {
                assert(main@ =~= Seq::new(
                    (c + 1) as nat,
                    |k: int| (ChunkId(k as usize), pc[k]@[main_idx->Some_0 as int]),
                ));
            }
        }
        secs.push(sec);
        c = c + 1;
    }
    let groups = group_by_device(secs, num_secn);
    (main, groups)
}

/// Some item is for chunk `k`.
pub open spec fn chunk_listed<T>(items: Seq<(ChunkId, T)>, k: int) -> bool {
    exists|j: int| 0 <= j < items.len() && (#[trigger] items[j]).0.0 == k
}

/// Puts the items in chunk order, where their chunk ids are `0..n` each once
/// (results come back from parallel tasks in any order); `None` otherwise.
pub fn order_by_chunk<T>(items: Vec<(ChunkId, T)>) -> (r: Option<Vec<(ChunkId, T)>>)
    ensures
        r is Some <==> {
            &&& forall|j: int| 0 <= j < items@.len() ==> (#[trigger] items@[j]).0.0 < items@.len()
            &&& forall|j1: int, j2: int|
                0 <= j1 < j2 < items@.len() ==> (#[trigger] items@[j1]).0 != (#[trigger] items@[j2]).0
            &&& forall|k: int| 0 <= k < items@.len() ==> #[trigger] chunk_listed(items@, k)
        },
        r is Some ==> r->Some_0@.len() == items@.len() && forall|k: int|
            0 <= k < items@.len() ==> (#[trigger] r->Some_0@[k]).0 == ChunkId(k as usize) && exists|j: int|
                0 <= j < items@.len() && items@[j] == r->Some_0@[k],
{
    let ghost v = items@;
    let n = items.len();
    let mut slots: Vec<Option<T>> = Vec::new();
    let mut k: usize = 0;
    while k < n
        invariant
            k <= n,
            slots@.len() == k,
            forall|q: int| 0 <= q < k ==> (#[trigger] slots@[q]) is None,
        decreases n - k,
    {
        slots.push(None);
        k = k + 1;
    }
    let mut p: usize = 0;
    for item in it: items.into_iter()
        invariant
            p == it.index(),
            it.seq() == v,
            v.len() == n,
            p <= n,
            slots@.len() == n,
            forall|j: int| 0 <= j < p ==> (#[trigger] v[j]).0.0 < n,
            forall|j1: int, j2: int| 0 <= j1 < j2 < p ==> (#[trigger] v[j1]).0 != (#[trigger] v[j2]).0,
            forall|q: int|
                0 <= q < n ==> match #[trigger] slots@[q] {
                    Some(t) => exists|j: int| 0 <= j < p && v[j] == (ChunkId(q as usize), t),
                    None => forall|j: int| 0 <= j < p ==> (#[trigger] v[j]).0.0 != q,
                },
    {
        let (id, t) = item;
        assert(v[p as int] == (id, t));
        if id.0 >= n {
            return None;
        }
        if slots[id.0].is_some() {
            assert(exists|j: int| 0 <= j < p && v[j].0.0 == id.0);
            return None;
        }
        let ghost before = slots@;
        slots[id.0] = Some(t);
        assert forall|q: int| 0 <= q < n implies match #[trigger] slots@[q] {
            Some(t) => exists|j: int| 0 <= j < p + 1 && v[j] == (ChunkId(q as usize), t),
            None => forall|j: int| 0 <= j < p + 1 ==> (#[trigger] v[j]).0.0 != q,
        } by {
            if q == id.0 {
                assert(v[p as int] == (ChunkId(q as usize), t));
            } else {
                assert(slots@[q] == before[q]);
            }
        }
        p = p + 1;
    }
    let mut out: Vec<(ChunkId, T)> = Vec::new();
    let mut q: usize = 0;
    for slot in sit: slots.into_iter()
        invariant
            q == sit.index(),
            sit.seq().len() == n,
            q <= n,
            v.len() == n,
            v == items@,
            forall|j: int| 0 <= j < n ==> (#[trigger] v[j]).0.0 < n,
            forall|j1: int, j2: int| 0 <= j1 < j2 < n ==> (#[trigger] v[j1]).0 != (#[trigger] v[j2]).0,
            forall|s: int|
                0 <= s < n ==> match #[trigger] sit.seq()[s] {
                    Some(t) => exists|j: int| 0 <= j < n && v[j] == (ChunkId(s as usize), t),
                    None => forall|j: int| 0 <= j < n ==> (#[trigger] v[j]).0.0 != s,
                },
            out@.len() == q,
            forall|s: int|
                0 <= s < q ==> (#[trigger] out@[s]).0 == ChunkId(s as usize) && exists|j: int|
                    0 <= j < n && v[j] == out@[s],
            forall|s: int| 0 <= s < q ==> #[trigger] chunk_listed(v, s),
    {
        match slot {
            Some(t) => {
                assert(sit.seq()[q as int] == Some(t));
                out.push((ChunkId(q), t));
            },
            None => {
                assert(sit.seq()[q as int] is None);
                assert(!chunk_listed(v, q as int));
                return None;
            },
        }
        q = q + 1;
    }
    assert(q == n);
    assert forall|k: int| 0 <= k < items@.len() implies (#[trigger] out@[k]).0 == ChunkId(k as usize)
        && exists|j: int| 0 <= j < items@.len() && items@[j] == out@[k] by {
        assert(0 <= k < q);
        assert(out@[k].0 == ChunkId(k as usize));
        assert(exists|j: int| 0 <= j < n && v[j] == out@[k]);
    }
    Some(out)
}

/// For each chunk whose bus is present, the bus's first device, which by
/// convention is the instance's collector; `None` where a present bus has none.
pub open spec fn first_collectors<T>(buses: Seq<Option<Vec<Option<T>>>>) -> Seq<(usize, T)>
    decreases buses.len(),
{
    if buses.len() == 0 {
        Seq::empty()
    } else {
        let rest = first_collectors(buses.drop_last());
        match buses.last() {
            Some(devices) => rest.push(((buses.len() - 1) as usize, devices@[0]->Some_0)),
            None => rest,
        }
    }
}

/// Every present bus has a collector first.
pub open spec fn collectors_present<T>(buses: Seq<Option<Vec<Option<T>>>>) -> bool {
    forall|c: int|
        0 <= c < buses.len() && (#[trigger] buses[c]) is Some ==> buses[c]->Some_0@.len() > 0
            && buses[c]->Some_0@[0] is Some
}

/// Takes from each chunk's bus, where there is one, its first device: the collector
/// of the instance, tagged with the chunk's index.
pub fn close_data_bus_collectors<T>(data_buses: Vec<Option<Vec<Option<T>>>>) -> (r: Option<Vec<(usize, T)>>)
    ensures
        r is Some <==> collectors_present(data_buses@),
        r is Some ==> r->Some_0@ == first_collectors(data_buses@),
{
    let ghost b = data_buses@;
    let n = data_buses.len();
    let mut out: Vec<(usize, T)> = Vec::new();
    let mut c: usize = 0;
    for bus in it: data_buses.into_iter()
        invariant
            c == it.index(),
            it.seq() == b,
            b.len() == n,
            c <= n,
            collectors_present(b.take(c as int)),
            out@ == first_collectors(b.take(c as int)),
    {
        assert(b.take(c + 1).drop_last() =~= b.take(c as int));
        assert(b[c as int] == bus);
        match bus {
            Some(mut devices) => {
                if devices.len() == 0 {
                    assert(!collectors_present(b));
                    return None;
                }
                let first = devices.swap_remove(0);
                match first {
                    Some(t) => {
                        out.push((c, t));
                    },
                    None => {
                        assert(!collectors_present(b));
                        return None;
                    },
                }
            },
            None => {},
        }
        assert forall|k: int| 0 <= k < c + 1 && (#[trigger] b.take(c + 1)[k]) is Some implies b.take(
            c + 1,
        )[k]->Some_0@.len() > 0 && b.take(c + 1)[k]->Some_0@[0] is Some by {
            if k < c {
                assert(b.take(c + 1)[k] == b.take(c as int)[k]);
            }
        }
        c = c + 1;
    }
    assert(b.take(c as int) =~= b);
    Some(out)
}

} // verus!
