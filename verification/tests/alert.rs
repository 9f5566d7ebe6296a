use farmview::alert::{
    alert_due, alert_message, critical_usage, evaluate, send_alert, Alert, AlertLog,
    ALERT_WINDOW,
};
use farmview::data::{Data, DiskData, HostData};

const SECOND: u128 = 1_000_000_000;
const MINUTE: u128 = 60 * SECOND;

fn disk(name: &str, mount: &str, used: Option<usize>, size: Option<usize>) -> DiskData {
    DiskData {
        size,
        used,
        mountpoint: mount.to_string(),
        name: name.to_string(),
        ..DiskData::default()
    }
}

fn host(name: Option<&str>, disks: Vec<DiskData>) -> HostData {
    HostData { hostname: name.map(|n| n.to_string()), disks, ..HostData::default() }
}

fn snapshot(hosts: Vec<HostData>) -> Data {
    Data { hosts, update_time: 0 }
}

#[test]
fn threshold_is_strictly_above_98_percent() {
    assert_eq!(critical_usage(98, 100), None);
    assert_eq!(critical_usage(99, 100), Some(99));
    assert_eq!(critical_usage(97, 100), None);
    assert_eq!(critical_usage(100, 100), Some(100));
    assert_eq!(critical_usage(980, 1000), None);
    assert_eq!(critical_usage(981, 1000), Some(98));
    assert_eq!(critical_usage(995, 1000), Some(99));
    assert_eq!(critical_usage(49, 50), None);
    assert_eq!(critical_usage(50, 50), Some(100));
    assert_eq!(critical_usage(0, 100), None);
}

#[test]
fn a_disk_without_size_is_not_critical() {
    assert_eq!(critical_usage(0, 0), None);
    assert_eq!(critical_usage(5, 0), None);
}

#[test]
fn usage_is_exact_on_large_disks() {
    assert_eq!(critical_usage(usize::MAX, usize::MAX), Some(100));
    assert_eq!(critical_usage(usize::MAX - 1, usize::MAX), Some(99));
    assert_eq!(critical_usage(usize::MAX, 1), Some(100 * (usize::MAX as u128)));
    assert_eq!(critical_usage(200, 100), Some(200));
}

#[test]
fn alert_is_due_after_half_an_hour() {
    assert_eq!(ALERT_WINDOW, 30 * MINUTE);
    assert_eq!(ALERT_WINDOW, 1_800_000_000_000);
    assert!(alert_due(None, 0));
    assert!(alert_due(None, 12345));
    assert!(!alert_due(Some(0), 0));
    assert!(!alert_due(Some(0), 10 * MINUTE));
    assert!(!alert_due(Some(0), 1799 * SECOND));
    assert!(!alert_due(Some(0), 30 * MINUTE - 1));
    assert!(alert_due(Some(0), 30 * MINUTE));
    assert!(alert_due(Some(0), 31 * MINUTE));
    assert!(!alert_due(Some(1000), 1000 + 30 * MINUTE - 1));
    assert!(alert_due(Some(1000), 1000 + 30 * MINUTE));
    assert!(alert_due(Some(0), u128::MAX));
}

#[test]
fn a_clock_that_ran_backwards_makes_no_alert_due() {
    assert!(!alert_due(Some(5000), 10));
    assert!(!alert_due(Some(u128::MAX), 0));
}

#[test]
fn message_follows_the_template() {
    assert_eq!(
        alert_message("web1", "sda1", "/", 99),
        "`/` (`sda1`) on `web1` is getting critical at 99% usage."
    );
    assert_eq!(
        alert_message("", "/dev/nvme0n1p2", "/var/lib", 100),
        "`/var/lib` (`/dev/nvme0n1p2`) on `` is getting critical at 100% usage."
    );
    assert_eq!(alert_message("h", "d", "m", 0), "`m` (`d`) on `h` is getting critical at 0% usage.");
    assert_eq!(alert_message("h", "d", "m", 7), "`m` (`d`) on `h` is getting critical at 7% usage.");
    assert_eq!(alert_message("h", "d", "m", 10), "`m` (`d`) on `h` is getting critical at 10% usage.");
    assert_eq!(
        alert_message("h", "d", "m", 1234567890),
        "`m` (`d`) on `h` is getting critical at 1234567890% usage."
    );
    assert_eq!(
        alert_message("h", "d", "m", u128::MAX),
        format!("`m` (`d`) on `h` is getting critical at {}% usage.", u128::MAX)
    );
}

#[test]
fn alert_says_what_its_message_says() {
    let alert = Alert {
        host: "db2".to_string(),
        disk: "sdb".to_string(),
        mount: "/data".to_string(),
        usage: 99,
    };
    assert_eq!(alert.message(), "`/data` (`sdb`) on `db2` is getting critical at 99% usage.");
    assert_eq!(alert.message(), alert_message("db2", "sdb", "/data", 99));
}

#[test]
fn notification_goes_out_as_farmview() {
    let n = send_alert("https://hooks.example/T0/B0", "#ops", "db2", "sdb", "/data", 99);
    assert_eq!(n.endpoint, "https://hooks.example/T0/B0");
    assert_eq!(n.channel, "#ops");
    assert_eq!(n.username, "FarmView");
    assert_eq!(n.text, "`/data` (`sdb`) on `db2` is getting critical at 99% usage.");
    let n = send_alert("", "", "", "", "", 0);
    assert_eq!(n.endpoint, "");
    assert_eq!(n.channel, "");
    assert_eq!(n.username, "FarmView");
    assert_eq!(n.text, "`` (``) on `` is getting critical at 0% usage.");
}

#[test]
fn log_keeps_the_last_alert_of_each_disk() {
    let mut log = AlertLog::new();
    assert_eq!(log.last_sent("web1", "sda"), None);
    log.record("web1", "sda", 10);
    assert_eq!(log.last_sent("web1", "sda"), Some(10));
    assert_eq!(log.last_sent("web1", "sdb"), None);
    assert_eq!(log.last_sent("web2", "sda"), None);
    assert_eq!(log.last_sent("", "sda"), None);
    log.record("web1", "sdb", 20);
    log.record("", "sda", 30);
    assert_eq!(log.last_sent("web1", "sda"), Some(10));
    assert_eq!(log.last_sent("web1", "sdb"), Some(20));
    assert_eq!(log.last_sent("", "sda"), Some(30));
    log.record("web1", "sda", 40);
    assert_eq!(log.last_sent("web1", "sda"), Some(40));
    assert_eq!(log.last_sent("web1", "sdb"), Some(20));
    log.record("web1", "sda", 5);
    assert_eq!(log.last_sent("web1", "sda"), Some(5));
}

#[test]
fn log_tells_host_and_disk_apart() {
    let mut log = AlertLog::new();
    log.record("ab", "c", 1);
    assert_eq!(log.last_sent("a", "bc"), None);
    assert_eq!(log.last_sent("ab", "c"), Some(1));
}

#[test]
fn same_disk_alerts_once_per_half_hour() {
    let data = snapshot(vec![host(Some("web1"), vec![disk("sda1", "/", Some(99), Some(100))])]);
    let mut log = AlertLog::new();
    let start = 1000 * SECOND;

    let first = evaluate(&data, &mut log, start);
    assert_eq!(first.len(), 1);
    assert_eq!(first[0].host, "web1");
    assert_eq!(first[0].disk, "sda1");
    assert_eq!(first[0].mount, "/");
    assert_eq!(first[0].usage, 99);
    assert_eq!(log.last_sent("web1", "sda1"), Some(start));

    let second = evaluate(&data, &mut log, start + 10 * MINUTE);
    assert_eq!(second.len(), 0);
    assert_eq!(log.last_sent("web1", "sda1"), Some(start));

    let third = evaluate(&data, &mut log, start + 31 * MINUTE);
    assert_eq!(third.len(), 1);
    assert_eq!(third[0].disk, "sda1");
    assert_eq!(log.last_sent("web1", "sda1"), Some(start + 31 * MINUTE));
}

#[test]
fn alert_is_due_again_exactly_at_the_end_of_the_window() {
    let data = snapshot(vec![host(Some("web1"), vec![disk("sda1", "/", Some(99), Some(100))])]);
    let mut log = AlertLog::new();
    assert_eq!(evaluate(&data, &mut log, 0).len(), 1);
    assert_eq!(evaluate(&data, &mut log, 30 * MINUTE - 1).len(), 0);
    assert_eq!(evaluate(&data, &mut log, 30 * MINUTE).len(), 1);
    assert_eq!(evaluate(&data, &mut log, 60 * MINUTE - 1).len(), 0);
    assert_eq!(evaluate(&data, &mut log, 60 * MINUTE).len(), 1);
}

#[test]
fn disk_at_the_threshold_does_not_alert() {
    let data = snapshot(vec![host(Some("web1"), vec![disk("sda1", "/", Some(98), Some(100))])]);
    let mut log = AlertLog::new();
    assert_eq!(evaluate(&data, &mut log, 0).len(), 0);
    assert_eq!(log.last_sent("web1", "sda1"), None);
    let data = snapshot(vec![host(Some("web1"), vec![disk("sda1", "/", Some(99), Some(100))])]);
    assert_eq!(evaluate(&data, &mut log, 0).len(), 1);
}

#[test]
fn disk_of_unknown_use_or_size_does_not_alert() {
    let data = snapshot(vec![host(
        Some("web1"),
        vec![
            disk("a", "/a", None, Some(100)),
            disk("b", "/b", Some(100), None),
            disk("c", "/c", None, None),
            disk("d", "/d", Some(100), Some(0)),
        ],
    )]);
    let mut log = AlertLog::new();
    assert_eq!(evaluate(&data, &mut log, 0).len(), 0);
    for name in ["a", "b", "c", "d"] {
        assert_eq!(log.last_sent("web1", name), None);
    }
}

#[test]
fn alerts_come_in_the_order_of_hosts_and_disks() {
    let data = snapshot(vec![
        host(
            Some("b"),
            vec![
                disk("sda", "/", Some(995), Some(1000)),
                disk("sdb", "/home", Some(1), Some(1000)),
                disk("sdc", "/var", Some(1000), Some(1000)),
            ],
        ),
        host(None, vec![disk("sda", "/", Some(99), Some(100))]),
        host(Some("a"), vec![]),
        host(Some("a"), vec![disk("sda", "/", Some(99), Some(100))]),
    ]);
    let mut log = AlertLog::new();
    let alerts = evaluate(&data, &mut log, 77);
    let got: Vec<(String, String, String, u128)> =
        alerts.iter().map(|a| (a.host.clone(), a.disk.clone(), a.mount.clone(), a.usage)).collect();
    assert_eq!(
        got,
        vec![
            ("b".to_string(), "sda".to_string(), "/".to_string(), 99),
            ("b".to_string(), "sdc".to_string(), "/var".to_string(), 100),
            ("".to_string(), "sda".to_string(), "/".to_string(), 99),
            ("a".to_string(), "sda".to_string(), "/".to_string(), 99),
        ]
    );
    assert_eq!(log.last_sent("b", "sda"), Some(77));
    assert_eq!(log.last_sent("b", "sdb"), None);
    assert_eq!(log.last_sent("b", "sdc"), Some(77));
    assert_eq!(log.last_sent("", "sda"), Some(77));
    assert_eq!(log.last_sent("a", "sda"), Some(77));
}

#[test]
fn same_disk_twice_in_one_snapshot_alerts_once() {
    let data = snapshot(vec![
        host(Some("web1"), vec![disk("sda", "/", Some(99), Some(100)), disk("sda", "/mnt", Some(99), Some(100))]),
        host(Some("web1"), vec![disk("sda", "/", Some(100), Some(100))]),
    ]);
    let mut log = AlertLog::new();
    let alerts = evaluate(&data, &mut log, 0);
    assert_eq!(alerts.len(), 1);
    assert_eq!(alerts[0].mount, "/");
    assert_eq!(alerts[0].usage, 99);
}

#[test]
fn hosts_without_name_share_the_empty_name() {
    let data = snapshot(vec![
        host(None, vec![disk("sda", "/", Some(99), Some(100))]),
        host(Some(""), vec![disk("sda", "/", Some(99), Some(100))]),
    ]);
    let mut log = AlertLog::new();
    let alerts = evaluate(&data, &mut log, 9);
    assert_eq!(alerts.len(), 1);
    assert_eq!(alerts[0].host, "");
    assert_eq!(log.last_sent("", "sda"), Some(9));
}

#[test]
fn evaluation_keeps_the_entries_of_disks_that_are_gone() {
    let mut log = AlertLog::new();
    log.record("old", "sda", 3);
    let data = snapshot(vec![host(Some("new"), vec![disk("sda", "/", Some(99), Some(100))])]);
    assert_eq!(evaluate(&data, &mut log, 5000).len(), 1);
    assert_eq!(log.last_sent("old", "sda"), Some(3));
    assert_eq!(log.last_sent("new", "sda"), Some(5000));
    assert_eq!(evaluate(&snapshot(vec![]), &mut log, 90 * MINUTE).len(), 0);
    assert_eq!(log.last_sent("old", "sda"), Some(3));
    assert_eq!(log.last_sent("new", "sda"), Some(5000));
}
