use vstd::prelude::*;

verus! {

// Readings that sadf reports as floating-point numbers are held here as the
// IEEE-754 bit pattern of the `f64` value (`f64::to_bits`): the library picks
// readings out and hands them back unchanged; arithmetic on them is left to
// the caller.

/// The statistics sadf reported for one host.
#[derive(Debug)]
pub struct HostReport {
    pub nodename: String,
    pub statistics: Vec<Sample>,
}

/// One collection interval.
#[derive(Debug)]
pub struct Sample {
    pub timestamp: Timestamp,
    pub cpu_load: Vec<CpuLoad>,
    pub memory: Option<Memory>,
    pub disk: Vec<Disk>,
    pub network: Option<Network>,
}

/// When a sample was taken, as sadf prints it (`YYYY-MM-DD`, `HH:MM:SS`).
#[derive(Debug)]
pub struct Timestamp {
    pub date: String,
    pub time: String,
}

/// CPU load of one CPU (or of `all`); `idle` is the bit pattern of the idle percentage.
#[derive(Debug)]
pub struct CpuLoad {
    pub cpu: String,
    pub idle: u64,
}

/// Memory use; `memused_percent` is the bit pattern of the used percentage.
#[derive(Debug)]
pub struct Memory {
    pub memused_percent: u64,
}

/// Utilisation of one block device; `util_percent` is the bit pattern of the percentage.
#[derive(Debug)]
pub struct Disk {
    pub disk_device: String,
    pub util_percent: u64,
}

/// Network activity of a sample.
#[derive(Debug)]
pub struct Network {
    pub net_dev: Vec<NetDev>,
}

/// Traffic of one interface; `rx_kb` and `tx_kb` are bit patterns of kB/s figures.
#[derive(Debug)]
pub struct NetDev {
    pub iface: String,
    pub rx_kb: u64,
    pub tx_kb: u64,
}

/// The message given when sadf's report names no host.
pub open spec fn no_hosts_message() -> Seq<char> {
    "sadf reported no hosts in this file"@
}

/// The first host of a parsed sadf report, or an error when it names none.
pub fn first_host(hosts: Vec<HostReport>) -> (r: Result<HostReport, String>)
    ensures
        hosts@.len() > 0 <==> r is Ok,
        r matches Ok(h) ==> h == hosts@[0],
        r matches Err(e) ==> e@ == no_hosts_message(),
{
    let mut hosts = hosts;
    if hosts.len() == 0 {
        Err(String::from_str("sadf reported no hosts in this file"))
    } else {
        Ok(hosts.swap_remove(0))
    }
}

} // verus!
