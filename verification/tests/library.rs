use sysplot::app::{App, Flow, Key};
use sysplot::labels::{hour_minute, month_day, tab_bar, tab_label};
use sysplot::report::{
    first_host, CpuLoad, Disk, HostReport, Memory, NetDev, Network, Sample, Timestamp,
};
use sysplot::sorted::insert_sorted;
use sysplot::text::{find_first, find_last, str_lt};
use sysplot::view::View;

fn bits(x: f64) -> u64 {
    x.to_bits()
}

fn stamp(date: &str, time: &str) -> Timestamp {
    Timestamp {
        date: date.to_string(),
        time: time.to_string(),
    }
}

fn bare(date: &str, time: &str) -> Sample {
    Sample {
        timestamp: stamp(date, time),
        cpu_load: vec![],
        memory: None,
        disk: vec![],
        network: None,
    }
}

fn cpu(name: &str, idle: f64) -> CpuLoad {
    CpuLoad {
        cpu: name.to_string(),
        idle: bits(idle),
    }
}

fn disk(name: &str, util: f64) -> Disk {
    Disk {
        disk_device: name.to_string(),
        util_percent: bits(util),
    }
}

fn dev(name: &str, rx: f64, tx: f64) -> NetDev {
    NetDev {
        iface: name.to_string(),
        rx_kb: bits(rx),
        tx_kb: bits(tx),
    }
}

fn host(samples: Vec<Sample>) -> HostReport {
    HostReport {
        nodename: "box".to_string(),
        statistics: samples,
    }
}

fn rich_host() -> HostReport {
    let mut s0 = bare("2026-08-14", "23:50:00");
    s0.cpu_load = vec![cpu("0", 90.0), cpu("all", 75.0), cpu("all", 10.0)];
    s0.memory = Some(Memory {
        memused_percent: bits(40.0),
    });
    s0.disk = vec![disk("vdb", 5.0), disk("vda", 7.0)];
    s0.network = Some(Network {
        net_dev: vec![dev("lo", 1.0, 1.0), dev("eth0", 2.0, 3.0)],
    });
    let mut s1 = bare("2026-08-14", "23:55:00");
    s1.cpu_load = vec![cpu("1", 50.0)];
    s1.disk = vec![disk("vda", 9.0), disk("sda", 1.0), disk("vda", 99.0)];
    let mut s2 = bare("2026-08-15", "00:00:00");
    s2.cpu_load = vec![cpu("all", 20.0)];
    s2.memory = Some(Memory {
        memused_percent: bits(45.5),
    });
    s2.network = Some(Network {
        net_dev: vec![dev("wlan0", 4.0, 0.5), dev("eth0", 6.0, 7.0)],
    });
    host(vec![s0, s1, s2])
}

#[test]
fn titles_are_the_screen_names() {
    assert_eq!(View::Cpu.title(), "CPU");
    assert_eq!(View::Memory.title(), "Memory");
    assert_eq!(View::Disk.title(), "Disk");
    assert_eq!(View::Network.title(), "Network");
}

#[test]
fn prev_undoes_next_on_every_screen() {
    for v in [View::Cpu, View::Memory, View::Disk, View::Network] {
        assert_eq!(v.next().prev(), v);
        assert_eq!(v.prev().next(), v);
        assert_ne!(v.next(), v);
        assert_eq!(v.next().next().next().next(), v);
    }
}

#[test]
fn device_lists_are_sorted_and_distinct() {
    let app = App::new(rich_host());
    assert_eq!(app.disk_devices(), &vec!["sda".to_string(), "vda".to_string(), "vdb".to_string()]);
    assert_eq!(app.net_ifaces(), &vec!["eth0".to_string(), "lo".to_string(), "wlan0".to_string()]);
    assert_eq!(app.current_view(), View::Cpu);
    assert_eq!(app.disk_idx(), 0);
    assert_eq!(app.net_idx(), 0);
    assert_eq!(app.host().nodename, "box");
}

#[test]
fn cpu_series_takes_first_all_line_and_skips_samples_without_one() {
    let app = App::new(rich_host());
    assert_eq!(app.cpu_series(), vec![(0, bits(75.0)), (2, bits(20.0))]);
}

#[test]
fn memory_series_skips_samples_without_memory() {
    let app = App::new(rich_host());
    assert_eq!(app.memory_series(), vec![(0, bits(40.0)), (2, bits(45.5))]);
}

#[test]
fn disk_series_follows_the_selected_device() {
    let mut app = App::new(rich_host());
    // "sda" is selected first: only sample 1 reports it.
    assert_eq!(app.disk_series(), vec![(1, bits(1.0))]);
    app.set_view(View::Disk);
    app.cycle_selection(true);
    assert_eq!(app.selection_label(), "vda");
    // The first "vda" line of sample 1 counts.
    assert_eq!(app.disk_series(), vec![(0, bits(7.0)), (1, bits(9.0))]);
}

#[test]
fn network_series_follows_the_selected_interface() {
    let mut app = App::new(rich_host());
    assert_eq!(
        app.network_series(),
        vec![(0, (bits(2.0), bits(3.0))), (2, (bits(6.0), bits(7.0)))]
    );
    app.set_view(View::Network);
    app.cycle_selection(false);
    assert_eq!(app.selection_label(), "wlan0");
    assert_eq!(app.network_series(), vec![(2, (bits(4.0), bits(0.5)))]);
}

#[test]
fn empty_host_has_no_series_and_placeholders() {
    let mut app = App::new(host(vec![]));
    assert!(app.cpu_series().is_empty());
    assert!(app.disk_series().is_empty());
    assert!(app.network_series().is_empty());
    assert_eq!(app.date_label(), "unknown date");
    assert_eq!(app.time_label(0), "");
    app.set_view(View::Network);
    assert_eq!(app.selection_label(), "(no interfaces)");
    app.set_view(View::Memory);
    assert_eq!(app.selection_label(), "");
}

#[test]
fn time_label_edge_cases() {
    let app = App::new(host(vec![
        bare("2026-08-14", "23:50:00"),
        bare("2026-08-14", "2350"),
        bare("20260815", "00:10:00"),
        bare("2026-0815", "01:00"),
        bare("2026-08-15-x", "a:b:c"),
    ]));
    assert_eq!(app.date_label(), "2026-08-14");
    assert_eq!(app.time_label(1), "2350");
    assert_eq!(app.time_label(2), "20260815 00:10");
    assert_eq!(app.time_label(3), "2026-0815 01");
    assert_eq!(app.time_label(4), "08-15-x a:b");
    assert_eq!(app.time_label(5), "");
}

#[test]
fn header_lists_host_date_tabs_and_selection() {
    let mut app = App::new(rich_host());
    app.set_view(View::Disk);
    assert_eq!(
        app.header(),
        "box — 2026-08-14 ( CPU   Memory  [Disk]  Network )   sda   q: quit, ←/→: switch, ↑/↓: select"
    );
}

#[test]
fn tabs_bracket_the_current_screen() {
    assert_eq!(tab_label(View::Cpu, View::Cpu), "[CPU]");
    assert_eq!(tab_label(View::Cpu, View::Disk), " CPU ");
    assert_eq!(tab_bar(View::Network), " CPU   Memory   Disk  [Network]");
}

#[test]
fn axis_labels_first_middle_last() {
    assert_eq!(App::new(host(vec![])).axis_label_samples(), (0, 0, 0));
    let four = host((0..4).map(|_| bare("d", "t")).collect());
    assert_eq!(App::new(four).axis_label_samples(), (0, 1, 3));
    let five = host((0..5).map(|_| bare("d", "t")).collect());
    assert_eq!(App::new(five).axis_label_samples(), (0, 2, 4));
}

#[test]
fn keys_switch_screens_select_and_quit() {
    let mut app = App::new(rich_host());
    assert_eq!(app.handle_key(Key::Right, true), Flow::Continue);
    assert_eq!(app.current_view(), View::Memory);
    assert_eq!(app.handle_key(Key::Left, true), Flow::Continue);
    assert_eq!(app.current_view(), View::Cpu);
    assert_eq!(app.handle_key(Key::BackTab, true), Flow::Continue);
    assert_eq!(app.current_view(), View::Network);
    assert_eq!(app.handle_key(Key::Tab, false), Flow::Continue);
    assert_eq!(app.current_view(), View::Network);
    assert_eq!(app.handle_key(Key::Down, true), Flow::Continue);
    assert_eq!(app.net_idx(), 1);
    assert_eq!(app.handle_key(Key::Up, true), Flow::Continue);
    assert_eq!(app.net_idx(), 0);
    assert_eq!(app.handle_key(Key::Char('x'), true), Flow::Continue);
    assert_eq!(app.handle_key(Key::Other, true), Flow::Continue);
    assert_eq!(app.handle_key(Key::Char('q'), false), Flow::Continue);
    assert_eq!(app.handle_key(Key::Char('q'), true), Flow::Quit);
    assert_eq!(app.handle_key(Key::Esc, true), Flow::Quit);
    assert_eq!(app.current_view(), View::Network);
}

#[test]
fn stepping_as_many_times_as_devices_returns_to_start() {
    let mut app = App::new(rich_host());
    app.set_view(View::Disk);
    app.cycle_selection(true);
    let start = app.disk_idx();
    for _ in 0..3 {
        app.cycle_selection(true);
    }
    assert_eq!(app.disk_idx(), start);
    app.cycle_selection(true);
    app.cycle_selection(false);
    assert_eq!(app.disk_idx(), start);
}

#[test]
fn first_host_picks_the_first_or_reports_none() {
    let err = first_host(vec![]).unwrap_err();
    assert_eq!(err, "sadf reported no hosts in this file");
    let mut second = host(vec![]);
    second.nodename = "other".to_string();
    let h = first_host(vec![rich_host(), second]).unwrap();
    assert_eq!(h.nodename, "box");
    assert_eq!(h.statistics.len(), 3);
}

#[test]
fn text_helpers() {
    assert!(str_lt("abc", "abd"));
    assert!(str_lt("ab", "abc"));
    assert!(!str_lt("abc", "abc"));
    assert!(!str_lt("b", "abc"));
    assert!(str_lt("", "a"));
    assert_eq!(find_first("a-b-c", '-'), Some(1));
    assert_eq!(find_last("a-b-c", '-'), Some(3));
    assert_eq!(find_first("abc", '-'), None);
    assert_eq!(find_last("", ':'), None);
    assert_eq!(hour_minute("10:20:30"), "10:20");
    assert_eq!(hour_minute("1020"), "1020");
    assert_eq!(month_day("2026-08-15"), "08-15");
    assert_eq!(month_day("2026-0815"), "2026-0815");
    assert_eq!(month_day("20260815"), "20260815");
}

#[test]
fn insert_sorted_keeps_order_and_skips_duplicates() {
    let mut list: Vec<String> = vec![];
    for n in ["vdb", "vda", "vdb", "sda", "vdc"] {
        insert_sorted(&mut list, &n.to_string());
    }
    assert_eq!(list, vec!["sda", "vda", "vdb", "vdc"]);
}
