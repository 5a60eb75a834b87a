use sysplot::app::App;
use sysplot::report::{Disk, HostReport, Sample, Timestamp};
use sysplot::view::View;

fn sample(date: &str, time: &str, disks: Vec<&str>) -> Sample {
    Sample {
        timestamp: Timestamp {
            date: date.to_string(),
            time: time.to_string(),
        },
        cpu_load: vec![],
        memory: None,
        disk: disks
            .into_iter()
            .map(|d| Disk {
                disk_device: d.to_string(),
                util_percent: 0.0f64.to_bits(),
            })
            .collect(),
        network: None,
    }
}

fn app_with_disks(disks: Vec<&str>) -> App {
    App::new(HostReport {
        nodename: "test-host".to_string(),
        statistics: vec![sample("2026-08-15", "10:00:00", disks)],
    })
}

#[test]
fn view_cycles_forward_and_wraps() {
    assert_eq!(View::Cpu.next(), View::Memory);
    assert_eq!(View::Memory.next(), View::Disk);
    assert_eq!(View::Disk.next(), View::Network);
    assert_eq!(View::Network.next(), View::Cpu);
}

#[test]
fn view_cycles_backward_and_wraps() {
    assert_eq!(View::Cpu.prev(), View::Network);
    assert_eq!(View::Network.prev(), View::Disk);
}

#[test]
fn disk_selection_wraps_forward_and_backward() {
    let mut app = app_with_disks(vec!["vda", "vdb", "vdc"]);
    app.set_view(View::Disk);
    assert_eq!(app.selection_label(), "vda");

    app.cycle_selection(true);
    assert_eq!(app.selection_label(), "vdb");
    app.cycle_selection(true);
    assert_eq!(app.selection_label(), "vdc");
    app.cycle_selection(true);
    assert_eq!(
        app.selection_label(),
        "vda",
        "should wrap past the last device"
    );

    app.cycle_selection(false);
    assert_eq!(
        app.selection_label(),
        "vdc",
        "should wrap backward past the first device"
    );
}

#[test]
fn selection_on_empty_disks_is_labeled_and_does_not_panic() {
    let mut app = app_with_disks(vec![]);
    app.set_view(View::Disk);
    assert_eq!(app.selection_label(), "(no disks)");
    app.cycle_selection(true);
    app.cycle_selection(false);
}

#[test]
fn cycle_selection_on_cpu_view_is_a_no_op() {
    let mut app = app_with_disks(vec!["vda", "vdb"]);
    app.set_view(View::Cpu);
    app.cycle_selection(true);
    assert_eq!(app.disk_idx(), 0);
}

#[test]
fn time_label_shows_date_only_after_crossing_midnight() {
    let app = App::new(HostReport {
        nodename: "test-host".to_string(),
        statistics: vec![
            sample("2026-08-14", "23:50:00", vec![]),
            sample("2026-08-15", "00:10:00", vec![]),
        ],
    });
    assert_eq!(app.time_label(0), "23:50");
    assert_eq!(app.time_label(1), "08-15 00:10");
}
