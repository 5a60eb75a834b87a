use vstd::prelude::*;
use vstd::view::View as _;
use crate::report::{Disk, HostReport, NetDev, Sample};
use crate::sorted::{insert_sorted, strictly_sorted, views_of};
use crate::labels::{date_label_of, tab_bar, tab_bar_of, time_label, time_label_of};
use crate::series::{
    lemma_disk_series_law, lemma_network_series_law, cpu_points, cpu_series_of, disk_points, disk_series_of, memory_points, memory_series_of,
    network_points, network_series_of,
};
use crate::view::{next_of, prev_of, View};

verus! {

/// One of `disks` is a block device named `n`.
pub open spec fn disks_name(disks: Seq<Disk>, n: Seq<char>) -> bool {
    exists|j: int| 0 <= j < disks.len() && #[trigger] disks[j].disk_device@ == n
}

/// Sample `s` reports a block device named `n`.
pub open spec fn sample_has_disk(s: Sample, n: Seq<char>) -> bool {
    disks_name(s.disk@, n)
}

/// Some sample of `stats` reports a block device named `n`.
pub open spec fn is_disk_device(stats: Seq<Sample>, n: Seq<char>) -> bool {
    exists|i: int| 0 <= i < stats.len() && sample_has_disk(#[trigger] stats[i], n)
}

/// One of `devs` is an interface named `n`.
pub open spec fn ifaces_name(devs: Seq<NetDev>, n: Seq<char>) -> bool {
    exists|j: int| 0 <= j < devs.len() && #[trigger] devs[j].iface@ == n
}

/// Sample `s` has network figures for an interface named `n`.
pub open spec fn sample_has_iface(s: Sample, n: Seq<char>) -> bool {
    match s.network {
        Some(net) => ifaces_name(net.net_dev@, n),
        None => false,
    }
}

/// Some sample of `stats` has network figures for an interface named `n`.
pub open spec fn is_net_iface(stats: Seq<Sample>, n: Seq<char>) -> bool {
    exists|i: int| 0 <= i < stats.len() && sample_has_iface(#[trigger] stats[i], n)
}

/// The block devices named anywhere in `stats`, sorted, each once.
pub fn collect_disk_devices(stats: &Vec<Sample>) -> (r: Vec<String>)
    ensures
        strictly_sorted(views_of(r@)),
        forall|n: Seq<char>| views_of(r@).contains(n) <==> is_disk_device(stats@, n),
{
    let mut list: Vec<String> = Vec::new();
    let mut i: usize = 0;
    while i < stats.len()
        invariant
            i <= stats@.len(),
            strictly_sorted(views_of(list@)),
            forall|n: Seq<char>|
                views_of(list@).contains(n) <==> is_disk_device(stats@.take(i as int), n),
        decreases stats@.len() - i,
    {
        let disks = &stats[i].disk;
        let mut j: usize = 0;
        while j < disks.len()
            invariant
                i < stats@.len(),
                disks@ == stats@[i as int].disk@,
                j <= disks@.len(),
                strictly_sorted(views_of(list@)),
                forall|n: Seq<char>|
                    views_of(list@).contains(n) <==> (is_disk_device(stats@.take(i as int), n)
                        || disks_name(disks@.take(j as int), n)),
            decreases disks@.len() - j,
        {
            insert_sorted(&mut list, &disks[j].disk_device);
            assert forall|n: Seq<char>|
                #[trigger] disks_name(disks@.take(j + 1), n) <==> (disks_name(disks@.take(j as int), n)
                    || n == disks@[j as int].disk_device@) by {
                let t = disks@.take(j + 1);
                let u = disks@.take(j as int);
                if disks_name(t, n) {
                    let k = choose|k: int| 0 <= k < t.len() && #[trigger] t[k].disk_device@ == n;
                    if k < j {
                        assert(u[k] == t[k]);
                    }
                }
                if disks_name(u, n) {
                    let k = choose|k: int| 0 <= k < u.len() && #[trigger] u[k].disk_device@ == n;
                    assert(u[k] == t[k]);
                }
                if n == disks@[j as int].disk_device@ {
                    assert(t[j as int] == disks@[j as int]);
                }
            }
            j = j + 1;
        }
        assert(disks@.take(disks@.len() as int) =~= disks@);
        assert forall|n: Seq<char>|
            #[trigger] is_disk_device(stats@.take(i + 1), n) <==> (is_disk_device(stats@.take(i as int), n)
                || sample_has_disk(stats@[i as int], n)) by {
            let t = stats@.take(i + 1);
            if is_disk_device(t, n) {
                let k = choose|k: int| 0 <= k < t.len() && sample_has_disk(#[trigger] t[k], n);
                if k < i {
                    assert(stats@.take(i as int)[k] == t[k]);
                }
            }
            if is_disk_device(stats@.take(i as int), n) {
                let k = choose|k: int|
                    0 <= k < i && sample_has_disk(#[trigger] stats@.take(i as int)[k], n);
                assert(t[k] == stats@.take(i as int)[k]);
            }
            if sample_has_disk(stats@[i as int], n) {
                assert(t[i as int] == stats@[i as int]);
            }
        }
        i = i + 1;
    }
    assert(stats@.take(stats@.len() as int) =~= stats@);
    list
}

/// The network interfaces named anywhere in `stats`, sorted, each once.
pub fn collect_net_ifaces(stats: &Vec<Sample>) -> (r: Vec<String>)
    ensures
        strictly_sorted(views_of(r@)),
        forall|n: Seq<char>| views_of(r@).contains(n) <==> is_net_iface(stats@, n),
{
    let mut list: Vec<String> = Vec::new();
    let mut i: usize = 0;
    while i < stats.len()
        invariant
            i <= stats@.len(),
            strictly_sorted(views_of(list@)),
            forall|n: Seq<char>|
                views_of(list@).contains(n) <==> is_net_iface(stats@.take(i as int), n),
        decreases stats@.len() - i,
    {
        if let Some(net) = &stats[i].network {
            let devs = &net.net_dev;
            let mut j: usize = 0;
            while j < devs.len()
                invariant
                    i < stats@.len(),
                    stats@[i as int].network == Some(*net),
                    devs@ == net.net_dev@,
                    j <= devs@.len(),
                    strictly_sorted(views_of(list@)),
                    forall|n: Seq<char>|
                        views_of(list@).contains(n) <==> (is_net_iface(stats@.take(i as int), n)
                            || ifaces_name(devs@.take(j as int), n)),
                decreases devs@.len() - j,
            {
                insert_sorted(&mut list, &devs[j].iface);
                assert forall|n: Seq<char>|
                    #[trigger] ifaces_name(devs@.take(j + 1), n) <==> (ifaces_name(
                        devs@.take(j as int),
                        n,
                    ) || n == devs@[j as int].iface@) by {
                    let t = devs@.take(j + 1);
                    let u = devs@.take(j as int);
                    if ifaces_name(t, n) {
                        let k = choose|k: int| 0 <= k < t.len() && #[trigger] t[k].iface@ == n;
                        if k < j {
                            assert(u[k] == t[k]);
                        }
                    }
                    if ifaces_name(u, n) {
                        let k = choose|k: int| 0 <= k < u.len() && #[trigger] u[k].iface@ == n;
                        assert(u[k] == t[k]);
                    }
                    if n == devs@[j as int].iface@ {
                        assert(t[j as int] == devs@[j as int]);
                    }
                }
                j = j + 1;
            }
            assert(devs@.take(devs@.len() as int) =~= devs@);
        }
        assert forall|n: Seq<char>|
            #[trigger] is_net_iface(stats@.take(i + 1), n) <==> (is_net_iface(
                stats@.take(i as int),
                n,
            ) || sample_has_iface(stats@[i as int], n)) by {
            let t = stats@.take(i + 1);
            if is_net_iface(t, n) {
                let k = choose|k: int| 0 <= k < t.len() && sample_has_iface(#[trigger] t[k], n);
                if k < i {
                    assert(stats@.take(i as int)[k] == t[k]);
                }
            }
            if is_net_iface(stats@.take(i as int), n) {
                let k = choose|k: int|
                    0 <= k < i && sample_has_iface(#[trigger] stats@.take(i as int)[k], n);
                assert(t[k] == stats@.take(i as int)[k]);
            }
            if sample_has_iface(stats@[i as int], n) {
                assert(t[i as int] == stats@[i as int]);
            }
        }
        i = i + 1;
    }
    assert(stats@.take(stats@.len() as int) =~= stats@);
    list
}

/// Disk series shown for a state: that of the selected device.
pub open spec fn disk_series_for(s: AppState) -> Seq<(usize, u64)> {
    if s.disk_idx < s.disk_devices.len() {
        disk_series_of(s.host.statistics@, s.disk_devices[s.disk_idx as int])
    } else {
        Seq::empty()
    }
}

/// Network series shown for a state: that of the selected interface.
pub open spec fn network_series_for(s: AppState) -> Seq<(usize, (u64, u64))> {
    if s.net_idx < s.net_ifaces.len() {
        network_series_of(s.host.statistics@, s.net_ifaces[s.net_idx as int])
    } else {
        Seq::empty()
    }
}

/// The header line of a state.
pub open spec fn header_of(s: AppState) -> Seq<char> {
    s.host.nodename@ + " — "@ + date_label_of(s.host.statistics@) + " ("@ + tab_bar_of(s.view)
        + ")   "@ + selection_label_of(s) + "   q: quit, ←/→: switch, ↑/↓: select"@
}

/// First, middle and last sample of `len` samples, counting an empty list as one.
pub open spec fn axis_label_samples_of(len: nat) -> (usize, usize, usize) {
    let n: int = if len > 1 {
        len as int
    } else {
        1
    };
    (0, ((n - 1) / 2) as usize, (n - 1) as usize)
}

/// The keys the viewer reacts to.
#[derive(Clone, Copy, PartialEq, Eq, Structural, Debug)]
pub enum Key {
    Char(char),
    Esc,
    Tab,
    BackTab,
    Left,
    Right,
    Up,
    Down,
    Other,
}

/// Whether the viewer goes on after a key.
#[derive(Clone, Copy, PartialEq, Eq, Structural, Debug)]
pub enum Flow {
    Continue,
    Quit,
}

/// The state after a key press, and whether the viewer goes on.
pub open spec fn key_step(s: AppState, key: Key) -> (AppState, Flow) {
    match key {
        Key::Char(c) => (s, if c == 'q' {
            Flow::Quit
        } else {
            Flow::Continue
        }),
        Key::Esc => (s, Flow::Quit),
        Key::Tab | Key::Right => (s.with_view(next_of(s.view)), Flow::Continue),
        Key::BackTab | Key::Left => (s.with_view(prev_of(s.view)), Flow::Continue),
        Key::Down => (cycle_state(s, true), Flow::Continue),
        Key::Up => (cycle_state(s, false), Flow::Continue),
        Key::Other => (s, Flow::Continue),
    }
}

/// An index into a selection list of `len` entries: inside the list, or 0
/// when the list is empty.
pub open spec fn selection_ok(idx: nat, len: nat) -> bool {
    if len == 0 {
        idx == 0
    } else {
        idx < len
    }
}

/// The index after one step through a selection list of `len` entries,
/// wrapping at both ends; an empty list keeps its index.
pub open spec fn cycled(idx: nat, len: nat, forward: bool) -> nat {
    if len == 0 {
        idx
    } else if forward {
        (idx + 1) % len
    } else {
        ((idx + len - 1) as nat) % len
    }
}

/// The state of the viewer, as its operations see it.
pub struct AppState {
    pub host: HostReport,
    pub view: View,
    pub disk_devices: Seq<Seq<char>>,
    pub disk_idx: nat,
    pub net_ifaces: Seq<Seq<char>>,
    pub net_idx: nat,
}

impl AppState {
    /// The selection lists are the sorted, distinct device and interface
    /// names of the host's samples, and each selection lies inside its list.
    pub open spec fn wf(self) -> bool {
        &&& strictly_sorted(self.disk_devices)
        &&& strictly_sorted(self.net_ifaces)
        &&& forall|n: Seq<char>|
            #[trigger] self.disk_devices.contains(n) <==> is_disk_device(self.host.statistics@, n)
        &&& forall|n: Seq<char>|
            #[trigger] self.net_ifaces.contains(n) <==> is_net_iface(self.host.statistics@, n)
        &&& selection_ok(self.disk_idx, self.disk_devices.len())
        &&& selection_ok(self.net_idx, self.net_ifaces.len())
    }

    /// The same state showing another screen.
    pub open spec fn with_view(self, v: View) -> AppState {
        AppState { view: v, ..self }
    }
}

/// The state after stepping the selection of the current screen: the disk
/// device on the Disk screen, the interface on the Network screen; on the
/// other screens, or with nothing to select, nothing changes.
pub open spec fn cycle_state(s: AppState, forward: bool) -> AppState {
    match s.view {
        View::Disk => AppState { disk_idx: cycled(s.disk_idx, s.disk_devices.len(), forward), ..s },
        View::Network => AppState { net_idx: cycled(s.net_idx, s.net_ifaces.len(), forward), ..s },
        _ => s,
    }
}

/// The label shown beside the screen title: the selected device or
/// interface, a placeholder when there is none, and nothing on the other screens.
pub open spec fn selection_label_of(s: AppState) -> Seq<char> {
    match s.view {
        View::Disk => if s.disk_idx < s.disk_devices.len() {
            s.disk_devices[s.disk_idx as int]
        } else {
            "(no disks)"@
        },
        View::Network => if s.net_idx < s.net_ifaces.len() {
            s.net_ifaces[s.net_idx as int]
        } else {
            "(no interfaces)"@
        },
        View::Cpu | View::Memory => Seq::empty(),
    }
}

/// The viewer: one host's samples, the screen shown, and the selected disk
/// device and network interface.
pub struct App {
    host: HostReport,
    view: View,
    disk_devices: Vec<String>,
    disk_idx: usize,
    net_ifaces: Vec<String>,
    net_idx: usize,
}

impl App {
    /// The state this viewer is in.
    pub closed spec fn model(&self) -> AppState {
        AppState {
            host: self.host,
            view: self.view,
            disk_devices: views_of(self.disk_devices@),
            disk_idx: self.disk_idx as nat,
            net_ifaces: views_of(self.net_ifaces@),
            net_idx: self.net_idx as nat,
        }
    }

    #[verifier::type_invariant]
    spec fn inv(self) -> bool {
        self.model().wf()
    }

    /// A viewer on `host`, on the CPU screen, with the first device and
    /// interface selected.
    pub fn new(host: HostReport) -> (app: App)
        ensures
            app.model().host == host,
            app.model().view == View::Cpu,
            app.model().disk_idx == 0,
            app.model().net_idx == 0,
            strictly_sorted(app.model().disk_devices),
            strictly_sorted(app.model().net_ifaces),
            forall|n: Seq<char>|
                #[trigger] app.model().disk_devices.contains(n) <==> is_disk_device(
                    host.statistics@,
                    n,
                ),
            forall|n: Seq<char>|
                #[trigger] app.model().net_ifaces.contains(n) <==> is_net_iface(
                    host.statistics@,
                    n,
                ),
            app.model().wf(),
    {
        let disk_devices = collect_disk_devices(&host.statistics);
        let net_ifaces = collect_net_ifaces(&host.statistics);
        App { host, view: View::Cpu, disk_devices, disk_idx: 0, net_ifaces, net_idx: 0 }
    }

    /// The host whose samples are shown.
    pub fn host(&self) -> (h: &HostReport)
        ensures
            *h == self.model().host,
    {
        &self.host
    }

    /// The screen shown.
    pub fn current_view(&self) -> (v: View)
        ensures
            v == self.model().view,
    {
        self.view
    }

    /// Shows screen `v`; the selections stay as they are.
    pub fn set_view(&mut self, v: View)
        ensures
            final(self).model() == old(self).model().with_view(v),
            final(self).model().wf(),
    {
        proof {
            use_type_invariant(&*self);
        }
        self.view = v;
        proof {
            use_type_invariant(&*self);
        }
    }

    /// Index of the selected disk device.
    pub fn disk_idx(&self) -> (i: usize)
        ensures
            i == self.model().disk_idx,
    {
        self.disk_idx
    }

    /// Index of the selected network interface.
    pub fn net_idx(&self) -> (i: usize)
        ensures
            i == self.model().net_idx,
    {
        self.net_idx
    }

    /// The sorted, distinct disk device names.
    pub fn disk_devices(&self) -> (d: &Vec<String>)
        ensures
            views_of(d@) == self.model().disk_devices,
    {
        &self.disk_devices
    }

    /// The sorted, distinct network interface names.
    pub fn net_ifaces(&self) -> (d: &Vec<String>)
        ensures
            views_of(d@) == self.model().net_ifaces,
    {
        &self.net_ifaces
    }

    /// Steps the selection of the current screen forward or back, wrapping
    /// at both ends; a no-op on the CPU and Memory screens and on empty lists.
    pub fn cycle_selection(&mut self, forward: bool)
        ensures
            final(self).model() == cycle_state(old(self).model(), forward),
            final(self).model().wf(),
    {
        proof {
            use_type_invariant(&*self);
        }
        match self.view {
            View::Disk => {
                let len = self.disk_devices.len();
                if len > 0 {
                    let i = self.disk_idx;
                    let next = if forward {
                        (i + 1) % len
                    } else if i == 0 {
                        len - 1
                    } else {
                        i - 1
                    };
                    assert(next == cycled(i as nat, len as nat, forward)) by {
                        lemma_cycled_step(i as nat, len as nat, forward);
                    }
                    self.disk_idx = next;
                }
            },
            View::Network => {
                let len = self.net_ifaces.len();
                if len > 0 {
                    let i = self.net_idx;
                    let next = if forward {
                        (i + 1) % len
                    } else if i == 0 {
                        len - 1
                    } else {
                        i - 1
                    };
                    assert(next == cycled(i as nat, len as nat, forward)) by {
                        lemma_cycled_step(i as nat, len as nat, forward);
                    }
                    self.net_idx = next;
                }
            },
            _ => {},
        }
        proof {
            use_type_invariant(&*self);
        }
    }

    /// The label shown beside the screen title.
    pub fn selection_label(&self) -> (l: String)
        ensures
            l@ == selection_label_of(self.model()),
    {
        proof {
            use_type_invariant(self);
        }
        match self.view {
            View::Disk => if self.disk_idx < self.disk_devices.len() {
                self.disk_devices[self.disk_idx].clone()
            } else {
                String::from_str("(no disks)")
            },
            View::Network => if self.net_idx < self.net_ifaces.len() {
                self.net_ifaces[self.net_idx].clone()
            } else {
                String::from_str("(no interfaces)")
            },
            View::Cpu | View::Memory => String::new(),
        }
    }

    /// CPU use over time: for each sample with an `all` CPU line, its index
    /// and that line's idle reading.
    pub fn cpu_series(&self) -> (r: Vec<(usize, u64)>)
        ensures
            r@ == cpu_series_of(self.model().host.statistics@),
    {
        cpu_points(&self.host.statistics)
    }

    /// Memory use over time: for each sample with memory figures, its index
    /// and the used-memory reading.
    pub fn memory_series(&self) -> (r: Vec<(usize, u64)>)
        ensures
            r@ == memory_series_of(self.model().host.statistics@),
    {
        memory_points(&self.host.statistics)
    }

    /// Utilisation of the selected disk device over time; empty when there
    /// are no devices.
    pub fn disk_series(&self) -> (r: Vec<(usize, u64)>)
        ensures
            r@ == disk_series_for(self.model()),
    {
        if self.disk_idx < self.disk_devices.len() {
            disk_points(&self.host.statistics, &self.disk_devices[self.disk_idx])
        } else {
            Vec::new()
        }
    }

    /// Traffic (received, transmitted) of the selected interface over time;
    /// empty when there are no interfaces.
    pub fn network_series(&self) -> (r: Vec<(usize, (u64, u64))>)
        ensures
            r@ == network_series_for(self.model()),
    {
        if self.net_idx < self.net_ifaces.len() {
            network_points(&self.host.statistics, &self.net_ifaces[self.net_idx])
        } else {
            Vec::new()
        }
    }

    /// The date of the first sample, or `unknown date`.
    pub fn date_label(&self) -> (d: &str)
        ensures
            d@ == date_label_of(self.model().host.statistics@),
    {
        if self.host.statistics.len() > 0 {
            self.host.statistics[0].timestamp.date.as_str()
        } else {
            "unknown date"
        }
    }

    /// `HH:MM` of sample `sample_idx`, or `MM-DD HH:MM` once the sample's
    /// date has moved past the first sample's date; empty for a missing sample.
    pub fn time_label(&self, sample_idx: usize) -> (l: String)
        ensures
            l@ == time_label_of(self.model().host.statistics@, sample_idx as int),
    {
        time_label(&self.host.statistics, sample_idx)
    }

    /// The header line: host, date, tabs, selection and key help.
    pub fn header(&self) -> (h: String)
        ensures
            h@ == header_of(self.model()),
    {
        let mut out = self.host.nodename.clone();
        out.append(" — ");
        out.append(self.date_label());
        out.append(" (");
        out.append(tab_bar(self.view).as_str());
        out.append(")   ");
        out.append(self.selection_label().as_str());
        out.append("   q: quit, ←/→: switch, ↑/↓: select");
        out
    }

    /// The samples whose times label the x axis: the first, the middle and
    /// the last (all 0 when there are no samples).
    pub fn axis_label_samples(&self) -> (r: (usize, usize, usize))
        ensures
            r == axis_label_samples_of(self.model().host.statistics@.len()),
    {
        let len = self.host.statistics.len();
        let n = if len > 1 {
            len
        } else {
            1
        };
        (0, (n - 1) / 2, n - 1)
    }

    /// Reacts to one key event: quits on `q` or Esc, switches screens on
    /// Tab/Right and BackTab/Left, steps the selection on Down and Up;
    /// ignores releases and other keys.
    pub fn handle_key(&mut self, key: Key, pressed: bool) -> (f: Flow)
        ensures
            pressed ==> (final(self).model(), f) == key_step(old(self).model(), key),
            !pressed ==> final(self).model() == old(self).model() && f == Flow::Continue,
            final(self).model().wf(),
    {
        proof {
            use_type_invariant(&*self);
        }
        if !pressed {
            return Flow::Continue;
        }
        match key {
            Key::Char(c) => {
                if c == 'q' {
                    Flow::Quit
                } else {
                    Flow::Continue
                }
            },
            Key::Esc => Flow::Quit,
            Key::Tab | Key::Right => {
                let v = self.view.next();
                self.set_view(v);
                Flow::Continue
            },
            Key::BackTab | Key::Left => {
                let v = self.view.prev();
                self.set_view(v);
                Flow::Continue
            },
            Key::Down => {
                self.cycle_selection(true);
                Flow::Continue
            },
            Key::Up => {
                self.cycle_selection(false);
                Flow::Continue
            },
            Key::Other => Flow::Continue,
        }
    }
}

/// The state after `k` selection steps in one direction.
pub open spec fn cycle_steps(s: AppState, forward: bool, k: nat) -> AppState
    decreases k,
{
    if k == 0 {
        s
    } else {
        cycle_state(cycle_steps(s, forward, (k - 1) as nat), forward)
    }
}

/// A selection step keeps the state well formed.
pub proof fn lemma_cycle_keeps_wf(s: AppState, forward: bool)
    requires
        s.wf(),
    ensures
        cycle_state(s, forward).wf(),
{
    if s.disk_devices.len() > 0 {
        lemma_cycled_step(s.disk_idx, s.disk_devices.len(), forward);
    }
    if s.net_ifaces.len() > 0 {
        lemma_cycled_step(s.net_idx, s.net_ifaces.len(), forward);
    }
}

/// A step back undoes a step forward, and a step forward undoes a step back.
pub proof fn lemma_cycle_back_undoes_forward(s: AppState)
    requires
        s.wf(),
    ensures
        cycle_state(cycle_state(s, true), false) == s,
        cycle_state(cycle_state(s, false), true) == s,
{
    if s.disk_devices.len() > 0 {
        lemma_cycled_inverse(s.disk_idx, s.disk_devices.len());
    }
    if s.net_ifaces.len() > 0 {
        lemma_cycled_inverse(s.net_idx, s.net_ifaces.len());
    }
}

/// On the CPU and Memory screens a selection step changes nothing.
pub proof fn lemma_cycle_other_screens(s: AppState, forward: bool)
    requires
        s.view == View::Cpu || s.view == View::Memory,
    ensures
        cycle_state(s, forward) == s,
{
}

/// On the Disk screen, `k` steps forward move the selection `k` places on,
/// wrapping past the last device, and change nothing else; after as many
/// steps as there are devices the selection is back where it started.
pub proof fn lemma_disk_steps_wrap(s: AppState, k: nat)
    requires
        s.wf(),
        s.view == View::Disk,
        s.disk_devices.len() > 0,
    ensures
        cycle_steps(s, true, k).disk_idx == ((s.disk_idx + k) as int) % (s.disk_devices.len() as int),
        cycle_steps(s, true, k) == (AppState { disk_idx: cycle_steps(s, true, k).disk_idx, ..s }),
        cycle_steps(s, true, s.disk_devices.len()) == s,
{
    let len = s.disk_devices.len();
    lemma_disk_steps(s, k);
    lemma_disk_steps(s, len);
    lemma_steps_mod(s.disk_idx, len, k);
    lemma_steps_mod(s.disk_idx, len, len);
    assert(((s.disk_idx + len) as int) % (len as int) == s.disk_idx) by (nonlinear_arith)
        requires
            s.disk_idx < len,
    ;
}

proof fn lemma_disk_steps(s: AppState, k: nat)
    requires
        s.view == View::Disk,
        s.disk_devices.len() > 0,
    ensures
        cycle_steps(s, true, k) == (AppState {
            disk_idx: cycled_times(s.disk_idx, s.disk_devices.len(), k),
            ..s
        }),
    decreases k,
{
    if k > 0 {
        lemma_disk_steps(s, (k - 1) as nat);
    }
}

/// On the Network screen, `k` steps forward move the selection `k` places
/// on, wrapping past the last interface, and change nothing else; after as
/// many steps as there are interfaces the selection is back where it started.
pub proof fn lemma_net_steps_wrap(s: AppState, k: nat)
    requires
        s.wf(),
        s.view == View::Network,
        s.net_ifaces.len() > 0,
    ensures
        cycle_steps(s, true, k).net_idx == ((s.net_idx + k) as int) % (s.net_ifaces.len() as int),
        cycle_steps(s, true, k) == (AppState { net_idx: cycle_steps(s, true, k).net_idx, ..s }),
        cycle_steps(s, true, s.net_ifaces.len()) == s,
{
    let len = s.net_ifaces.len();
    lemma_net_steps(s, k);
    lemma_net_steps(s, len);
    lemma_steps_mod(s.net_idx, len, k);
    lemma_steps_mod(s.net_idx, len, len);
    assert(((s.net_idx + len) as int) % (len as int) == s.net_idx) by (nonlinear_arith)
        requires
            s.net_idx < len,
    ;
}

proof fn lemma_net_steps(s: AppState, k: nat)
    requires
        s.view == View::Network,
        s.net_ifaces.len() > 0,
    ensures
        cycle_steps(s, true, k) == (AppState {
            net_idx: cycled_times(s.net_idx, s.net_ifaces.len(), k),
            ..s
        }),
    decreases k,
{
    if k > 0 {
        lemma_net_steps(s, (k - 1) as nat);
    }
}

/// Switching a screen right and then left, or left and then right, returns
/// the viewer to the state it was in.
pub proof fn lemma_switch_back(s: AppState)
    ensures
        key_step(key_step(s, Key::Right).0, Key::Left).0 == s,
        key_step(key_step(s, Key::Left).0, Key::Right).0 == s,
        key_step(key_step(s, Key::Tab).0, Key::BackTab).0 == s,
{
    crate::view::lemma_prev_undoes_next(s.view);
}

/// Selecting down and then up, or up and then down, returns the viewer to
/// the state it was in.
pub proof fn lemma_select_back(s: AppState)
    requires
        s.wf(),
    ensures
        key_step(key_step(s, Key::Down).0, Key::Up).0 == s,
        key_step(key_step(s, Key::Up).0, Key::Down).0 == s,
{
    lemma_cycle_back_undoes_forward(s);
}

/// Whenever a disk device exists, one is selected, the disk series is that
/// device's series, and it is not empty (every listed device is reported by
/// some sample).
pub proof fn lemma_disk_series_selected(s: AppState)
    requires
        s.wf(),
        s.disk_devices.len() > 0,
        s.host.statistics@.len() <= usize::MAX,
    ensures
        s.disk_idx < s.disk_devices.len(),
        disk_series_for(s) == disk_series_of(s.host.statistics@, s.disk_devices[s.disk_idx as int]),
        disk_series_for(s).len() > 0,
{
    let stats = s.host.statistics@;
    let name = s.disk_devices[s.disk_idx as int];
    assert(s.disk_devices.contains(name));
    assert(is_disk_device(stats, name));
    let i = choose|i: int| 0 <= i < stats.len() && sample_has_disk(#[trigger] stats[i], name);
    let j = choose|j: int|
        0 <= j < stats[i].disk@.len() && #[trigger] stats[i].disk@[j].disk_device@ == name;
    lemma_disk_series_law(stats, name);
}

/// Whenever a network interface exists, one is selected, the network series
/// is that interface's series, and it is not empty (every listed interface
/// has figures in some sample).
pub proof fn lemma_network_series_selected(s: AppState)
    requires
        s.wf(),
        s.net_ifaces.len() > 0,
        s.host.statistics@.len() <= usize::MAX,
    ensures
        s.net_idx < s.net_ifaces.len(),
        network_series_for(s) == network_series_of(s.host.statistics@, s.net_ifaces[s.net_idx as int]),
        network_series_for(s).len() > 0,
{
    let stats = s.host.statistics@;
    let name = s.net_ifaces[s.net_idx as int];
    assert(s.net_ifaces.contains(name));
    assert(is_net_iface(stats, name));
    let i = choose|i: int| 0 <= i < stats.len() && sample_has_iface(#[trigger] stats[i], name);
    let devs = stats[i].network->0.net_dev@;
    let j = choose|j: int| 0 <= j < devs.len() && #[trigger] devs[j].iface@ == name;
    assert(stats[i].network->0.net_dev@[j].iface@ == name);
    lemma_network_series_law(stats, name);
}

/// Down takes one selection step forward and Up one step back, on every
/// screen: on the Disk screen they move the selected device to the next or
/// previous one, wrapping; on the Network screen likewise for interfaces;
/// elsewhere, or with nothing to select, nothing changes. The viewer goes on.
pub proof fn lemma_select_keys(s: AppState)
    ensures
        key_step(s, Key::Down) == (cycle_state(s, true), Flow::Continue),
        key_step(s, Key::Up) == (cycle_state(s, false), Flow::Continue),
        s.view == View::Disk && s.disk_devices.len() > 0 ==> key_step(s, Key::Down).0 == (AppState {
            disk_idx: ((s.disk_idx + 1) as int % (s.disk_devices.len() as int)) as nat,
            ..s
        }) && key_step(s, Key::Up).0 == (AppState {
            disk_idx: ((s.disk_idx + s.disk_devices.len() - 1) as int % (s.disk_devices.len() as int)) as nat,
            ..s
        }),
        s.view == View::Network && s.net_ifaces.len() > 0 ==> key_step(s, Key::Down).0 == (AppState {
            net_idx: ((s.net_idx + 1) as int % (s.net_ifaces.len() as int)) as nat,
            ..s
        }) && key_step(s, Key::Up).0 == (AppState {
            net_idx: ((s.net_idx + s.net_ifaces.len() - 1) as int % (s.net_ifaces.len() as int)) as nat,
            ..s
        }),
        (s.view == View::Cpu || s.view == View::Memory || (s.view == View::Disk
            && s.disk_devices.len() == 0) || (s.view == View::Network && s.net_ifaces.len() == 0))
            ==> key_step(s, Key::Down).0 == s && key_step(s, Key::Up).0 == s,
{
}

/// The selection label names the selected device on the Disk screen and the
/// selected interface on the Network screen, shows a placeholder when there
/// is nothing to select, and is empty on the CPU and Memory screens.
pub proof fn lemma_selection_label_law(s: AppState)
    requires
        s.wf(),
    ensures
        s.view == View::Disk && s.disk_devices.len() > 0 ==> selection_label_of(s)
            == s.disk_devices[s.disk_idx as int],
        s.view == View::Disk && s.disk_devices.len() == 0 ==> selection_label_of(s) == "(no disks)"@,
        s.view == View::Network && s.net_ifaces.len() > 0 ==> selection_label_of(s)
            == s.net_ifaces[s.net_idx as int],
        s.view == View::Network && s.net_ifaces.len() == 0 ==> selection_label_of(s)
            == "(no interfaces)"@,
        s.view == View::Cpu || s.view == View::Memory ==> selection_label_of(s).len() == 0,
{
}

/// The x axis is labelled at the first sample, the last sample, and the
/// sample halfway between them (rounding down); with no samples all three are 0.
pub proof fn lemma_axis_label_law(len: nat)
    requires
        len <= usize::MAX,
    ensures
        axis_label_samples_of(len).0 == 0,
        len > 0 ==> axis_label_samples_of(len).2 == len - 1,
        len == 0 ==> axis_label_samples_of(len).2 == 0,
        axis_label_samples_of(len).1 * 2 <= axis_label_samples_of(len).2,
        axis_label_samples_of(len).2 <= axis_label_samples_of(len).1 * 2 + 1,
{
}

/// `q` and Esc end the viewer and change nothing.
pub proof fn lemma_quit_keys(s: AppState)
    ensures
        key_step(s, Key::Char('q')) == (s, Flow::Quit),
        key_step(s, Key::Esc) == (s, Flow::Quit),
{
}

/// One step forward and one back are inverse on indices inside the list.
proof fn lemma_cycled_inverse(i: nat, len: nat)
    requires
        i < len,
    ensures
        cycled(cycled(i, len, true), len, false) == i,
        cycled(cycled(i, len, false), len, true) == i,
{
    lemma_cycled_step(i, len, true);
    lemma_cycled_step(i, len, false);
    let f = cycled(i, len, true);
    let b = cycled(i, len, false);
    lemma_cycled_step(f, len, false);
    lemma_cycled_step(b, len, true);
    if i + 1 < len {
        assert((i + 1) % len == i + 1) by (nonlinear_arith)
            requires
                i + 1 < len,
        ;
    } else {
        assert((i + 1) % len == 0) by (nonlinear_arith)
            requires
                i + 1 == len,
        ;
    }
    if i > 0 {
        assert(i % len == i) by (nonlinear_arith)
            requires
                i < len,
        ;
    } else {
        assert((len - 1 + 1) % (len as int) == 0) by (nonlinear_arith)
            requires
                len > 0,
        ;
    }
}

/// `k` forward steps from `i` reach `(i + k) mod len`.
proof fn lemma_steps_mod(i: nat, len: nat, k: nat)
    requires
        i < len,
    ensures
        cycled_times(i, len, k) == ((i + k) as int) % (len as int),
    decreases k,
{
    if k > 0 {
        lemma_steps_mod(i, len, (k - 1) as nat);
        let a = (i + k - 1) % (len as int);
        assert(0 <= a < len) by (nonlinear_arith)
            requires
                len > 0,
                a == (i + k - 1) % (len as int),
        ;
        assert((a + 1) % (len as int) == ((i + k) as int) % (len as int)) by (nonlinear_arith)
            requires
                len > 0,
                a == (i + k - 1) % (len as int),
        ;
    } else {
        assert((i as int) % (len as int) == i) by (nonlinear_arith)
            requires
                i < len,
        ;
    }
}

/// The index after `k` forward steps through a list of `len` entries.
pub open spec fn cycled_times(i: nat, len: nat, k: nat) -> nat
    decreases k,
{
    if k == 0 {
        i
    } else {
        cycled(cycled_times(i, len, (k - 1) as nat), len, true)
    }
}

/// One step back from a position is the previous position, or the last one
/// from the first; one step forward stays below the list length.
proof fn lemma_cycled_step(i: nat, len: nat, forward: bool)
    requires
        i < len,
    ensures
        cycled(i, len, forward) < len,
        forward ==> cycled(i, len, forward) == (i + 1) % len,
        !forward && i == 0 ==> cycled(i, len, forward) == len - 1,
        !forward && i > 0 ==> cycled(i, len, forward) == i - 1,
{
    assert((i + len - 1) % (len as int) < len) by (nonlinear_arith)
        requires
            len > 0,
    ;
    assert((i + 1) % len < len) by (nonlinear_arith)
        requires
            len > 0,
    ;
    if i == 0 {
        assert((len - 1) % (len as int) == len - 1) by (nonlinear_arith)
            requires
                len > 0,
        ;
    } else {
        assert((i + len - 1) % (len as int) == i - 1) by (nonlinear_arith)
            requires
                0 < i < len,
        ;
    }
}

} // verus!
