use vstd::prelude::*;
use vstd::view::View as _;
use crate::report::{CpuLoad, Disk, NetDev, Sample};

verus! {

/// Index of the first entry of `s` that satisfies `p`.
pub open spec fn first_where<T>(s: Seq<T>, p: spec_fn(T) -> bool) -> Option<int>
    decreases s.len(),
{
    if s.len() == 0 {
        None
    } else {
        match first_where(s.drop_last(), p) {
            Some(k) => Some(k),
            None => if p(s.last()) {
                Some(s.len() - 1)
            } else {
                None
            },
        }
    }
}

/// What `first_where` finds satisfies `p`, and no earlier entry does; when it
/// finds nothing, no entry does.
pub proof fn lemma_first_where<T>(s: Seq<T>, p: spec_fn(T) -> bool)
    ensures
        match first_where(s, p) {
            Some(k) => 0 <= k < s.len() && p(s[k]) && forall|j: int| 0 <= j < k ==> !p(#[trigger] s[j]),
            None => forall|j: int| 0 <= j < s.len() ==> !p(#[trigger] s[j]),
        },
    decreases s.len(),
{
    if s.len() > 0 {
        lemma_first_where(s.drop_last(), p);
        assert(forall|j: int| 0 <= j < s.len() - 1 ==> s.drop_last()[j] == s[j]);
    }
}

/// The idle reading of the `all` CPU line, the first one if there are several.
pub open spec fn cpu_idle_of(loads: Seq<CpuLoad>) -> Option<u64> {
    match first_where(loads, |c: CpuLoad| c.cpu@ == "all"@) {
        Some(k) => Some(loads[k].idle),
        None => None,
    }
}

/// Whether a disk line is for the device named `name`.
pub open spec fn names_disk(name: Seq<char>) -> spec_fn(Disk) -> bool {
    |d: Disk| d.disk_device@ == name
}

/// Whether an interface line is for the interface named `name`.
pub open spec fn names_iface(name: Seq<char>) -> spec_fn(NetDev) -> bool {
    |d: NetDev| d.iface@ == name
}

/// The utilisation reading of the first device named `name`.
pub open spec fn disk_util_of(disks: Seq<Disk>, name: Seq<char>) -> Option<u64> {
    match first_where(disks, names_disk(name)) {
        Some(k) => Some(disks[k].util_percent),
        None => None,
    }
}

/// The (received, transmitted) readings of the first interface named `name`.
pub open spec fn iface_traffic_of(devs: Seq<NetDev>, name: Seq<char>) -> Option<(u64, u64)> {
    match first_where(devs, names_iface(name)) {
        Some(k) => Some((devs[k].rx_kb, devs[k].tx_kb)),
        None => None,
    }
}

/// The points of a series: for each sample in order that has a reading, its
/// index paired with the reading; samples without one are skipped.
pub open spec fn series_of<R>(stats: Seq<Sample>, reading: spec_fn(Sample) -> Option<R>) -> Seq<(usize, R)>
    decreases stats.len(),
{
    if stats.len() == 0 {
        Seq::empty()
    } else {
        let earlier = series_of(stats.drop_last(), reading);
        match reading(stats.last()) {
            Some(r) => earlier.push(((stats.len() - 1) as usize, r)),
            None => earlier,
        }
    }
}

/// CPU series: the `all` line's idle reading of each sample that has one.
pub open spec fn cpu_series_of(stats: Seq<Sample>) -> Seq<(usize, u64)> {
    series_of(stats, |s: Sample| cpu_idle_of(s.cpu_load@))
}

/// Memory series: the used-memory reading of each sample that has one.
pub open spec fn memory_series_of(stats: Seq<Sample>) -> Seq<(usize, u64)> {
    series_of(
        stats,
        |s: Sample|
            match s.memory {
                Some(m) => Some(m.memused_percent),
                None => None,
            },
    )
}

/// Disk series: the utilisation of device `name` in each sample that reports it.
pub open spec fn disk_series_of(stats: Seq<Sample>, name: Seq<char>) -> Seq<(usize, u64)> {
    series_of(stats, |s: Sample| disk_util_of(s.disk@, name))
}

/// The traffic of interface `name` in one sample, if it has network figures for it.
pub open spec fn sample_traffic_of(s: Sample, name: Seq<char>) -> Option<(u64, u64)> {
    match s.network {
        Some(n) => iface_traffic_of(n.net_dev@, name),
        None => None,
    }
}

/// Network series: the traffic of interface `name` in each sample that has it.
pub open spec fn network_series_of(stats: Seq<Sample>, name: Seq<char>) -> Seq<(usize, (u64, u64))> {
    series_of(stats, |s: Sample| sample_traffic_of(s, name))
}

/// A point `(k, r)` is in a series exactly when sample `k` has reading `r`;
/// the points come in increasing sample order.
pub proof fn lemma_series_points<R>(stats: Seq<Sample>, reading: spec_fn(Sample) -> Option<R>)
    requires
        stats.len() <= usize::MAX,
    ensures
        forall|a: int, b: int|
            0 <= a < b < series_of(stats, reading).len() ==> (#[trigger] series_of(stats, reading)[a]).0
                < (#[trigger] series_of(stats, reading)[b]).0,
        forall|a: int|
            0 <= a < series_of(stats, reading).len() ==> {
                let p = #[trigger] series_of(stats, reading)[a];
                &&& p.0 < stats.len()
                &&& reading(stats[p.0 as int]) == Some(p.1)
            },
        forall|k: int|
            0 <= k < stats.len() && (#[trigger] reading(stats[k])) is Some ==> exists|a: int|
                0 <= a < series_of(stats, reading).len() && series_of(stats, reading)[a].0 == k,
    decreases stats.len(),
{
    if stats.len() > 0 {
        let d = stats.drop_last();
        lemma_series_points(d, reading);
        assert(forall|j: int| 0 <= j < stats.len() - 1 ==> d[j] == stats[j]);
        let e = series_of(d, reading);
        let s = series_of(stats, reading);
        assert forall|k: int|
            0 <= k < stats.len() && (#[trigger] reading(stats[k])) is Some implies exists|a: int|
                0 <= a < s.len() && s[a].0 == k by {
            if k < stats.len() - 1 {
                assert(reading(d[k]) is Some);
                let a = choose|a: int| 0 <= a < e.len() && e[a].0 == k;
                assert(s[a] == e[a]);
            } else {
                assert(s[s.len() - 1].0 == k);
            }
        }
    }
}

/// Entry `j` is the first line of `loads` for the `all` CPU.
pub open spec fn first_all_at(loads: Seq<CpuLoad>, j: int) -> bool {
    &&& 0 <= j < loads.len()
    &&& loads[j].cpu@ == "all"@
    &&& forall|i: int| 0 <= i < j ==> (#[trigger] loads[i]).cpu@ != "all"@
}

/// Entry `j` is the first line of `disks` for the device named `name`.
pub open spec fn first_disk_at(disks: Seq<Disk>, name: Seq<char>, j: int) -> bool {
    &&& 0 <= j < disks.len()
    &&& disks[j].disk_device@ == name
    &&& forall|i: int| 0 <= i < j ==> (#[trigger] disks[i]).disk_device@ != name
}

/// Entry `j` is the first line of `devs` for the interface named `name`.
pub open spec fn first_iface_at(devs: Seq<NetDev>, name: Seq<char>, j: int) -> bool {
    &&& 0 <= j < devs.len()
    &&& devs[j].iface@ == name
    &&& forall|i: int| 0 <= i < j ==> (#[trigger] devs[i]).iface@ != name
}

/// A sample's CPU reading exists exactly when one of its CPU lines is the
/// `all` line, searching all lines from the first; it is the idle figure of
/// the first such line.
pub proof fn lemma_cpu_reading(loads: Seq<CpuLoad>)
    ensures
        cpu_idle_of(loads) is Some <==> exists|j: int|
            0 <= j < loads.len() && (#[trigger] loads[j]).cpu@ == "all"@,
        forall|j: int| #[trigger] first_all_at(loads, j) ==> cpu_idle_of(loads) == Some(loads[j].idle),
        cpu_idle_of(loads) is Some ==> exists|j: int|
            #[trigger] first_all_at(loads, j) && cpu_idle_of(loads) == Some(loads[j].idle),
{
    let p = |c: CpuLoad| c.cpu@ == "all"@;
    lemma_first_where(loads, p);
    match first_where(loads, p) {
        Some(k) => {
            assert(first_all_at(loads, k));
            assert forall|j: int| #[trigger] first_all_at(loads, j) implies j == k by {
                if j < k {
                    assert(!p(loads[j]));
                } else if j > k {
                    assert(loads[k].cpu@ != "all"@);
                }
            }
        },
        None => {
            assert forall|j: int| 0 <= j < loads.len() implies (#[trigger] loads[j]).cpu@ != "all"@ by {
                assert(!p(loads[j]));
            }
        },
    }
}

/// A sample's reading for device `name` exists exactly when one of its disk
/// lines names it; it is the utilisation of the first such line.
pub proof fn lemma_disk_reading(disks: Seq<Disk>, name: Seq<char>)
    ensures
        disk_util_of(disks, name) is Some <==> exists|j: int|
            0 <= j < disks.len() && (#[trigger] disks[j]).disk_device@ == name,
        forall|j: int| #[trigger] first_disk_at(disks, name, j) ==> disk_util_of(disks, name) == Some(
            disks[j].util_percent,
        ),
        disk_util_of(disks, name) is Some ==> exists|j: int|
            #[trigger] first_disk_at(disks, name, j) && disk_util_of(disks, name) == Some(
                disks[j].util_percent,
            ),
{
    let p = names_disk(name);
    lemma_first_where(disks, p);
    match first_where(disks, p) {
        Some(k) => {
            assert(first_disk_at(disks, name, k));
            assert forall|j: int| #[trigger] first_disk_at(disks, name, j) implies j == k by {
                if j < k {
                    assert(!p(disks[j]));
                } else if j > k {
                    assert(disks[k].disk_device@ != name);
                }
            }
        },
        None => {
            assert forall|j: int| 0 <= j < disks.len() implies (#[trigger] disks[j]).disk_device@ != name by {
                assert(!p(disks[j]));
            }
        },
    }
}

/// A sample's traffic for interface `name` exists exactly when one of its
/// interface lines names it; it is the (received, transmitted) pair of the
/// first such line, whatever the figures are.
pub proof fn lemma_iface_reading(devs: Seq<NetDev>, name: Seq<char>)
    ensures
        iface_traffic_of(devs, name) is Some <==> exists|j: int|
            0 <= j < devs.len() && (#[trigger] devs[j]).iface@ == name,
        forall|j: int| #[trigger] first_iface_at(devs, name, j) ==> iface_traffic_of(devs, name) == Some(
            (devs[j].rx_kb, devs[j].tx_kb),
        ),
        iface_traffic_of(devs, name) is Some ==> exists|j: int|
            #[trigger] first_iface_at(devs, name, j) && iface_traffic_of(devs, name) == Some(
                (devs[j].rx_kb, devs[j].tx_kb),
            ),
{
    let p = names_iface(name);
    lemma_first_where(devs, p);
    match first_where(devs, p) {
        Some(k) => {
            assert(first_iface_at(devs, name, k));
            assert forall|j: int| #[trigger] first_iface_at(devs, name, j) implies j == k by {
                if j < k {
                    assert(!p(devs[j]));
                } else if j > k {
                    assert(devs[k].iface@ != name);
                }
            }
        },
        None => {
            assert forall|j: int| 0 <= j < devs.len() implies (#[trigger] devs[j]).iface@ != name by {
                assert(!p(devs[j]));
            }
        },
    }
}

/// The CPU series holds, for every sample that has an `all` CPU line, the
/// sample's index with the idle figure of its first `all` line, and nothing
/// else; points come in sample order.
pub proof fn lemma_cpu_series_law(stats: Seq<Sample>)
    requires
        stats.len() <= usize::MAX,
    ensures
        forall|k: int, j: int|
            0 <= k < stats.len() && #[trigger] first_all_at(stats[k].cpu_load@, j) ==> cpu_series_of(
                stats,
            ).contains((k as usize, stats[k].cpu_load@[j].idle)),
        forall|a: int|
            0 <= a < cpu_series_of(stats).len() ==> (#[trigger] cpu_series_of(stats)[a]).0 < stats.len()
                && exists|j: int|
                first_all_at(stats[cpu_series_of(stats)[a].0 as int].cpu_load@, j)
                    && cpu_series_of(stats)[a].1 == stats[cpu_series_of(stats)[a].0 as int].cpu_load@[j].idle,
        forall|a: int, b: int|
            0 <= a < b < cpu_series_of(stats).len() ==> (#[trigger] cpu_series_of(stats)[a]).0
                < (#[trigger] cpu_series_of(stats)[b]).0,
{
    let f = |s: Sample| cpu_idle_of(s.cpu_load@);
    let ser = cpu_series_of(stats);
    assert(ser == series_of(stats, f));
    lemma_series_points(stats, f);
    assert forall|k: int, j: int|
        0 <= k < stats.len() && #[trigger] first_all_at(stats[k].cpu_load@, j) implies ser.contains(
            (k as usize, stats[k].cpu_load@[j].idle),
        ) by {
        lemma_cpu_reading(stats[k].cpu_load@);
        assert(f(stats[k]) is Some);
        let a = choose|a: int| 0 <= a < ser.len() && ser[a].0 == k;
        assert(f(stats[ser[a].0 as int]) == Some(ser[a].1));
        assert(ser[a] == (k as usize, stats[k].cpu_load@[j].idle));
    }
    assert forall|a: int| 0 <= a < ser.len() implies (#[trigger] ser[a]).0 < stats.len() && exists|j: int|
        first_all_at(stats[ser[a].0 as int].cpu_load@, j) && ser[a].1 == stats[ser[a].0 as int].cpu_load@[j].idle by {
        let k = ser[a].0 as int;
        assert(f(stats[k]) == Some(ser[a].1));
        lemma_cpu_reading(stats[k].cpu_load@);
    }
}

/// The memory series holds, for every sample with memory figures, the
/// sample's index with its used-memory figure, and nothing else.
pub proof fn lemma_memory_series_law(stats: Seq<Sample>)
    requires
        stats.len() <= usize::MAX,
    ensures
        forall|k: int|
            0 <= k < stats.len() && (#[trigger] stats[k]).memory is Some ==> memory_series_of(
                stats,
            ).contains((k as usize, stats[k].memory->0.memused_percent)),
        forall|a: int|
            0 <= a < memory_series_of(stats).len() ==> {
                let p = #[trigger] memory_series_of(stats)[a];
                &&& p.0 < stats.len()
                &&& stats[p.0 as int].memory is Some
                &&& p.1 == stats[p.0 as int].memory->0.memused_percent
            },
{
    let f = |s: Sample|
        match s.memory {
            Some(m) => Some(m.memused_percent),
            None => None,
        };
    let ser = memory_series_of(stats);
    assert(ser == series_of(stats, f));
    lemma_series_points(stats, f);
    assert forall|k: int|
        0 <= k < stats.len() && (#[trigger] stats[k]).memory is Some implies ser.contains(
            (k as usize, stats[k].memory->0.memused_percent),
        ) by {
        assert(f(stats[k]) is Some);
        let a = choose|a: int| 0 <= a < ser.len() && ser[a].0 == k;
        assert(f(stats[ser[a].0 as int]) == Some(ser[a].1));
        assert(ser[a] == (k as usize, stats[k].memory->0.memused_percent));
    }
    assert forall|a: int| 0 <= a < ser.len() implies {
        let p = #[trigger] ser[a];
        &&& p.0 < stats.len()
        &&& stats[p.0 as int].memory is Some
        &&& p.1 == stats[p.0 as int].memory->0.memused_percent
    } by {
        assert(f(stats[ser[a].0 as int]) == Some(ser[a].1));
    }
}

/// The series of device `name` holds, for every sample with a disk line for
/// it, the sample's index with the utilisation of its first such line, and
/// nothing else; it is empty only when no sample reports the device.
pub proof fn lemma_disk_series_law(stats: Seq<Sample>, name: Seq<char>)
    requires
        stats.len() <= usize::MAX,
    ensures
        forall|k: int, j: int|
            0 <= k < stats.len() && #[trigger] first_disk_at(stats[k].disk@, name, j)
                ==> disk_series_of(stats, name).contains(
                (k as usize, stats[k].disk@[j].util_percent),
            ),
        forall|a: int|
            0 <= a < disk_series_of(stats, name).len() ==> (#[trigger] disk_series_of(stats, name)[a]).0
                < stats.len() && exists|j: int|
                first_disk_at(stats[disk_series_of(stats, name)[a].0 as int].disk@, name, j)
                    && disk_series_of(stats, name)[a].1 == stats[disk_series_of(
                    stats,
                    name,
                )[a].0 as int].disk@[j].util_percent,
        (exists|k: int, j: int|
            0 <= k < stats.len() && 0 <= j < stats[k].disk@.len() && (#[trigger] stats[k].disk@[j]).disk_device@
                == name) ==> disk_series_of(stats, name).len() > 0,
{
    let f = |s: Sample| disk_util_of(s.disk@, name);
    let ser = disk_series_of(stats, name);
    assert(ser == series_of(stats, f));
    lemma_series_points(stats, f);
    assert forall|k: int, j: int|
        0 <= k < stats.len() && #[trigger] first_disk_at(stats[k].disk@, name, j) implies ser.contains(
            (k as usize, stats[k].disk@[j].util_percent),
        ) by {
        lemma_disk_reading(stats[k].disk@, name);
        assert(f(stats[k]) is Some);
        let a = choose|a: int| 0 <= a < ser.len() && ser[a].0 == k;
        assert(f(stats[ser[a].0 as int]) == Some(ser[a].1));
        assert(ser[a] == (k as usize, stats[k].disk@[j].util_percent));
    }
    assert forall|a: int| 0 <= a < ser.len() implies (#[trigger] ser[a]).0 < stats.len() && exists|j: int|
        first_disk_at(stats[ser[a].0 as int].disk@, name, j) && ser[a].1 == stats[ser[a].0 as int].disk@[j].util_percent by {
        let k = ser[a].0 as int;
        assert(f(stats[k]) == Some(ser[a].1));
        lemma_disk_reading(stats[k].disk@, name);
    }
    if exists|k: int, j: int|
        0 <= k < stats.len() && 0 <= j < stats[k].disk@.len() && (#[trigger] stats[k].disk@[j]).disk_device@
            == name {
        let (k, j) = choose|k: int, j: int|
            0 <= k < stats.len() && 0 <= j < stats[k].disk@.len() && (#[trigger] stats[k].disk@[j]).disk_device@
                == name;
        lemma_disk_reading(stats[k].disk@, name);
        assert(f(stats[k]) is Some);
    }
}

/// The series of interface `name` holds, for every sample with network
/// figures for it, the sample's index with the (received, transmitted) pair
/// of its first such line, zero or not, and nothing else; it is empty only
/// when no sample has figures for the interface.
pub proof fn lemma_network_series_law(stats: Seq<Sample>, name: Seq<char>)
    requires
        stats.len() <= usize::MAX,
    ensures
        forall|k: int, j: int|
            0 <= k < stats.len() && stats[k].network is Some && #[trigger] first_iface_at(
                stats[k].network->0.net_dev@,
                name,
                j,
            ) ==> network_series_of(stats, name).contains(
                (
                    k as usize,
                    (
                        stats[k].network->0.net_dev@[j].rx_kb,
                        stats[k].network->0.net_dev@[j].tx_kb,
                    ),
                ),
            ),
        forall|a: int|
            0 <= a < network_series_of(stats, name).len() ==> {
                let p = #[trigger] network_series_of(stats, name)[a];
                &&& p.0 < stats.len()
                &&& stats[p.0 as int].network is Some
                &&& exists|j: int|
                    first_iface_at(stats[p.0 as int].network->0.net_dev@, name, j) && p.1 == (
                        stats[p.0 as int].network->0.net_dev@[j].rx_kb,
                        stats[p.0 as int].network->0.net_dev@[j].tx_kb,
                    )
            },
        (exists|k: int, j: int|
            0 <= k < stats.len() && stats[k].network is Some && 0 <= j
                < stats[k].network->0.net_dev@.len() && (#[trigger] stats[k].network->0.net_dev@[j]).iface@
                == name) ==> network_series_of(stats, name).len() > 0,
{
    let f = |s: Sample| sample_traffic_of(s, name);
    let ser = network_series_of(stats, name);
    assert(ser == series_of(stats, f));
    lemma_series_points(stats, f);
    assert forall|k: int, j: int|
        0 <= k < stats.len() && stats[k].network is Some && #[trigger] first_iface_at(
            stats[k].network->0.net_dev@,
            name,
            j,
        ) implies ser.contains(
        (k as usize, (stats[k].network->0.net_dev@[j].rx_kb, stats[k].network->0.net_dev@[j].tx_kb)),
    ) by {
        lemma_iface_reading(stats[k].network->0.net_dev@, name);
        assert(f(stats[k]) is Some);
        let a = choose|a: int| 0 <= a < ser.len() && ser[a].0 == k;
        assert(f(stats[ser[a].0 as int]) == Some(ser[a].1));
        assert(ser[a] == (
            k as usize,
            (stats[k].network->0.net_dev@[j].rx_kb, stats[k].network->0.net_dev@[j].tx_kb),
        ));
    }
    assert forall|a: int| 0 <= a < ser.len() implies {
        let p = #[trigger] ser[a];
        &&& p.0 < stats.len()
        &&& stats[p.0 as int].network is Some
        &&& exists|j: int|
            first_iface_at(stats[p.0 as int].network->0.net_dev@, name, j) && p.1 == (
                stats[p.0 as int].network->0.net_dev@[j].rx_kb,
                stats[p.0 as int].network->0.net_dev@[j].tx_kb,
            )
    } by {
        let k = ser[a].0 as int;
        assert(f(stats[k]) == Some(ser[a].1));
        lemma_iface_reading(stats[k].network->0.net_dev@, name);
    }
    if exists|k: int, j: int|
        0 <= k < stats.len() && stats[k].network is Some && 0 <= j < stats[k].network->0.net_dev@.len()
            && (#[trigger] stats[k].network->0.net_dev@[j]).iface@ == name {
        let (k, j) = choose|k: int, j: int|
            0 <= k < stats.len() && stats[k].network is Some && 0 <= j
                < stats[k].network->0.net_dev@.len() && (#[trigger] stats[k].network->0.net_dev@[j]).iface@
                == name;
        lemma_iface_reading(stats[k].network->0.net_dev@, name);
        assert(f(stats[k]) is Some);
    }
}

/// Reading of the first `all` CPU line.
#[verifier::loop_isolation(false)]
fn find_cpu_idle(loads: &Vec<CpuLoad>, all: &String) -> (r: Option<u64>)
    requires
        all@ == "all"@,
    ensures
        r == cpu_idle_of(loads@),
{
    let ghost p = |c: CpuLoad| c.cpu@ == "all"@;
    proof {
        lemma_first_where(loads@, p);
    }
    let mut j: usize = 0;
    while j < loads.len()
        invariant
            j <= loads@.len(),
            forall|k: int| 0 <= k < j ==> !p(#[trigger] loads@[k]),
        decreases loads@.len() - j,
    {
        if loads[j].cpu == *all {
            assert(p(loads@[j as int]));
            return Some(loads[j].idle);
        }
        j = j + 1;
    }
    None
}

/// Reading of the first device named `name`.
#[verifier::loop_isolation(false)]
fn find_disk_util(disks: &Vec<Disk>, name: &String) -> (r: Option<u64>)
    ensures
        r == disk_util_of(disks@, name@),
{
    let ghost p = names_disk(name@);
    proof {
        lemma_first_where(disks@, p);
    }
    let mut j: usize = 0;
    while j < disks.len()
        invariant
            j <= disks@.len(),
            forall|k: int| 0 <= k < j ==> !p(#[trigger] disks@[k]),
        decreases disks@.len() - j,
    {
        if disks[j].disk_device == *name {
            assert(p(disks@[j as int]));
            return Some(disks[j].util_percent);
        }
        j = j + 1;
    }
    None
}

/// Readings of the first interface named `name`.
#[verifier::loop_isolation(false)]
fn find_iface_traffic(devs: &Vec<NetDev>, name: &String) -> (r: Option<(u64, u64)>)
    ensures
        r == iface_traffic_of(devs@, name@),
{
    let ghost p = names_iface(name@);
    proof {
        lemma_first_where(devs@, p);
    }
    let mut j: usize = 0;
    while j < devs.len()
        invariant
            j <= devs@.len(),
            forall|k: int| 0 <= k < j ==> !p(#[trigger] devs@[k]),
        decreases devs@.len() - j,
    {
        if devs[j].iface == *name {
            assert(p(devs@[j as int]));
            return Some((devs[j].rx_kb, devs[j].tx_kb));
        }
        j = j + 1;
    }
    None
}

/// The CPU series of `stats`.
#[verifier::loop_isolation(false)]
pub fn cpu_points(stats: &Vec<Sample>) -> (r: Vec<(usize, u64)>)
    ensures
        r@ == cpu_series_of(stats@),
{
    let all = String::from_str("all");
    let ghost f = |s: Sample| cpu_idle_of(s.cpu_load@);
    let mut out: Vec<(usize, u64)> = Vec::new();
    let mut i: usize = 0;
    while i < stats.len()
        invariant
            i <= stats@.len(),
            all@ == "all"@,
            out@ == series_of(stats@.take(i as int), f),
        decreases stats@.len() - i,
    {
        assert(stats@.take(i + 1).drop_last() =~= stats@.take(i as int));
        assert(stats@.take(i + 1).last() == stats@[i as int]);
        if let Some(idle) = find_cpu_idle(&stats[i].cpu_load, &all) {
            out.push((i, idle));
        }
        i = i + 1;
    }
    assert(stats@.take(stats@.len() as int) =~= stats@);
    out
}

/// The memory series of `stats`.
#[verifier::loop_isolation(false)]
pub fn memory_points(stats: &Vec<Sample>) -> (r: Vec<(usize, u64)>)
    ensures
        r@ == memory_series_of(stats@),
{
    let ghost f = |s: Sample|
        match s.memory {
            Some(m) => Some(m.memused_percent),
            None => None,
        };
    let mut out: Vec<(usize, u64)> = Vec::new();
    let mut i: usize = 0;
    while i < stats.len()
        invariant
            i <= stats@.len(),
            out@ == series_of(stats@.take(i as int), f),
        decreases stats@.len() - i,
    {
        assert(stats@.take(i + 1).drop_last() =~= stats@.take(i as int));
        assert(stats@.take(i + 1).last() == stats@[i as int]);
        if let Some(m) = &stats[i].memory {
            out.push((i, m.memused_percent));
        }
        i = i + 1;
    }
    assert(stats@.take(stats@.len() as int) =~= stats@);
    out
}

/// The series of device `name` in `stats`.
#[verifier::loop_isolation(false)]
pub fn disk_points(stats: &Vec<Sample>, name: &String) -> (r: Vec<(usize, u64)>)
    ensures
        r@ == disk_series_of(stats@, name@),
{
    let ghost f = |s: Sample| disk_util_of(s.disk@, name@);
    let mut out: Vec<(usize, u64)> = Vec::new();
    let mut i: usize = 0;
    while i < stats.len()
        invariant
            i <= stats@.len(),
            out@ == series_of(stats@.take(i as int), f),
        decreases stats@.len() - i,
    {
        assert(stats@.take(i + 1).drop_last() =~= stats@.take(i as int));
        assert(stats@.take(i + 1).last() == stats@[i as int]);
        if let Some(u) = find_disk_util(&stats[i].disk, name) {
            out.push((i, u));
        }
        i = i + 1;
    }
    assert(stats@.take(stats@.len() as int) =~= stats@);
    out
}

/// The series of interface `name` in `stats`.
#[verifier::loop_isolation(false)]
pub fn network_points(stats: &Vec<Sample>, name: &String) -> (r: Vec<(usize, (u64, u64))>)
    ensures
        r@ == network_series_of(stats@, name@),
{
    let ghost f = |s: Sample| sample_traffic_of(s, name@);
    let mut out: Vec<(usize, (u64, u64))> = Vec::new();
    let mut i: usize = 0;
    while i < stats.len()
        invariant
            i <= stats@.len(),
            out@ == series_of(stats@.take(i as int), f),
        decreases stats@.len() - i,
    {
        assert(stats@.take(i + 1).drop_last() =~= stats@.take(i as int));
        assert(stats@.take(i + 1).last() == stats@[i as int]);
        if let Some(n) = &stats[i].network {
            if let Some(t) = find_iface_traffic(&n.net_dev, name) {
                out.push((i, t));
            }
        }
        i = i + 1;
    }
    assert(stats@.take(stats@.len() as int) =~= stats@);
    out
}

} // verus!
