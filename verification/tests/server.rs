use farmview::config::{add_host, edit_host, Config, ConfigError, HostConfig, LocationConfig, SlackConfig};
use farmview::data::{DiskData, HostData, NetworkData};
use farmview::server::{Action, Phase, Scheduler, Server};

const SECOND: u128 = 1_000_000_000;
const MINUTE: u128 = 60 * SECOND;

fn host(name: &str, ignored: Option<Vec<&str>>) -> HostConfig {
    HostConfig {
        name: name.to_string(),
        address: name.to_string(),
        iface: "eth0".to_string(),
        ignored_disks: ignored.map(|l| l.into_iter().map(|s| s.to_string()).collect()),
        auth: None,
        location: None,
    }
}

fn fleet(with_slack: bool) -> Config {
    Config {
        locations: vec![LocationConfig { name: "lab".to_string(), ips: "10.0.0.0/24".to_string() }],
        hosts: vec![host("web1", Some(vec!["/boot"])), host("db1", None)],
        slack: if with_slack {
            Some(SlackConfig { hook: "https://hooks.example/x".to_string(), channel: "#ops".to_string() })
        } else {
            None
        },
        ..Config::default()
    }
}

fn disk(name: &str, mount: &str, used: usize, size: usize) -> DiskData {
    DiskData {
        size: Some(size),
        used: Some(used),
        mountpoint: mount.to_string(),
        name: name.to_string(),
        ..DiskData::default()
    }
}

fn report(hostname: &str, ip: &str, disks: Vec<DiskData>) -> HostData {
    HostData {
        hostname: Some(hostname.to_string()),
        disks,
        network: Some(NetworkData { rx: None, tx: None, ip: Some(ip.to_string()) }),
        ..HostData::default()
    }
}

#[test]
fn new_server_runs_and_has_seen_nothing() {
    let server = Server::new(fleet(true));
    assert!(server.is_running());
    assert!(server.latest_data().hosts.is_empty());
    assert_eq!(server.latest_data().update_time, 0);
    assert_eq!(server.current_conf().hosts.len(), 2);
    assert_eq!(server.refresh_delay(), 30);
    let server = Server::new(Config { refresh_delay: Some(7), ..Config::default() });
    assert_eq!(server.refresh_delay(), 7);
}

#[test]
fn one_host_answers_and_one_is_refused() {
    let mut server = Server::new(fleet(true));
    let conf = server.current_conf();
    let outcomes = vec![
        Some(report(
            "web1",
            "10.0.0.7",
            vec![disk("sda1", "/", 995, 1000), disk("sda2", "/boot", 1000, 1000)],
        )),
        None,
    ];
    let alerts = server.refresh_at(&conf, outcomes, 1_700_000_000, 12);
    let data = server.latest_data();
    assert_eq!(data.hosts.len(), 1);
    assert_eq!(data.update_time, 1_700_000_000);
    assert_eq!(data.hosts[0].hostname.as_deref(), Some("web1"));
    assert_eq!(data.hosts[0].location.as_deref(), Some("lab"));
    assert_eq!(data.hosts[0].disks.len(), 1);
    assert_eq!(alerts.len(), 1);
    assert_eq!(alerts[0].host, "web1");
    assert_eq!(alerts[0].disk, "sda1");
    assert_eq!(alerts[0].mount, "/");
    assert_eq!(alerts[0].usage, 99);
    assert_eq!(alerts[0].message(), "`/` (`sda1`) on `web1` is getting critical at 99% usage.");
}

#[test]
fn refresh_counts_the_hosts_that_answered() {
    for answering in 0..=3usize {
        let conf = Config { hosts: vec![host("a", None), host("b", None), host("c", None)], ..Config::default() };
        let mut server = Server::new(conf);
        let conf = server.current_conf();
        let outcomes: Vec<Option<HostData>> = (0..3)
            .map(|i| if i < answering { Some(report(&format!("h{}", i), "1.1.1.1", vec![])) } else { None })
            .collect();
        server.refresh_at(&conf, outcomes, 5, 5);
        assert_eq!(server.latest_data().hosts.len(), answering);
        assert_eq!(server.latest_data().update_time, 5);
    }
}

#[test]
fn host_that_failed_comes_back_when_it_answers() {
    let mut server = Server::new(fleet(false));
    let conf = server.current_conf();
    server.refresh_at(&conf, vec![Some(report("web1", "10.0.0.7", vec![])), None], 10, 0);
    assert_eq!(server.latest_data().hosts.len(), 1);
    server.refresh_at(&conf, vec![None, None], 20, 30);
    assert_eq!(server.latest_data().hosts.len(), 0);
    assert_eq!(server.latest_data().update_time, 20);
    server.refresh_at(
        &conf,
        vec![Some(report("web1", "10.0.0.7", vec![])), Some(report("db1", "9.9.9.9", vec![]))],
        30,
        60,
    );
    let names: Vec<Option<&str>> = server.latest_data().hosts.iter().map(|h| h.hostname.as_deref()).collect();
    assert_eq!(names, vec![Some("db1"), Some("web1")]);
}

#[test]
fn update_time_never_goes_back() {
    let mut server = Server::new(fleet(false));
    let conf = server.current_conf();
    server.refresh_at(&conf, vec![None, None], 100, 0);
    assert_eq!(server.latest_data().update_time, 100);
    server.refresh_at(&conf, vec![Some(report("web1", "10.0.0.7", vec![])), None], 90, 1);
    assert_eq!(server.latest_data().update_time, 100);
    assert_eq!(server.latest_data().hosts.len(), 1);
    server.refresh_at(&conf, vec![None, None], 100, 2);
    assert_eq!(server.latest_data().update_time, 100);
    server.refresh_at(&conf, vec![None, None], 101, 3);
    assert_eq!(server.latest_data().update_time, 101);
    server.refresh_at(&conf, vec![None, None], -7, 4);
    assert_eq!(server.latest_data().update_time, 101);
}

#[test]
fn refresh_spaces_the_alerts_of_a_disk() {
    let mut server = Server::new(fleet(true));
    let conf = server.current_conf();
    let outcomes = || vec![Some(report("web1", "10.0.0.7", vec![disk("sda1", "/", 99, 100)])), None];
    assert_eq!(server.refresh_at(&conf, outcomes(), 1000, 0).len(), 1);
    assert_eq!(server.refresh_at(&conf, outcomes(), 1600, 10 * MINUTE).len(), 0);
    assert_eq!(server.refresh_at(&conf, outcomes(), 2799, 30 * MINUTE - 1).len(), 0);
    assert_eq!(server.refresh_at(&conf, outcomes(), 2860, 31 * MINUTE).len(), 1);
    assert_eq!(server.refresh_at(&conf, outcomes(), 2861, 31 * MINUTE + SECOND).len(), 0);
}

#[test]
fn without_a_receiver_no_alert_goes_out_and_none_is_recorded() {
    let mut server = Server::new(fleet(false));
    let without = server.current_conf();
    let outcomes = || vec![Some(report("web1", "10.0.0.7", vec![disk("sda1", "/", 99, 100)])), None];
    assert_eq!(server.refresh_at(&without, outcomes(), 1000, 0).len(), 0);
    let with = fleet(true);
    assert_eq!(server.refresh_at(&with, outcomes(), 1001, 1).len(), 1);
}

#[test]
fn refresh_is_made_under_the_configuration_it_is_given() {
    let mut server = Server::new(fleet(false));
    let probed_under = server.current_conf();
    assert!(server.with_conf(|mut c| add_host(&mut c, "late").map(|_| c)).is_ok());
    let outcomes = vec![
        Some(report("web1", "10.0.0.7", vec![disk("sda2", "/boot", 1, 2)])),
        Some(report("db1", "10.0.0.8", vec![disk("sda2", "/boot", 1, 2)])),
    ];
    server.refresh_at(&probed_under, outcomes, 1, 1);
    assert_eq!(server.latest_data().hosts.len(), 2);
    assert_eq!(server.latest_data().hosts[0].disks.len(), 0);
    assert_eq!(server.latest_data().hosts[1].disks.len(), 1);
    assert_eq!(server.current_conf().hosts.len(), 3);
}

#[test]
fn refresh_reads_the_clocks() {
    let mut server = Server::new(fleet(true));
    let conf = server.current_conf();
    let outcomes = || vec![Some(report("web1", "10.0.0.7", vec![disk("sda1", "/", 99, 100)])), None];
    let alerts = server.refresh(&conf, outcomes());
    assert_eq!(alerts.len(), 1);
    assert_eq!(server.latest_data().hosts.len(), 1);
    // Later than 2020-01-01.
    let first = server.latest_data().update_time;
    assert!(first > 1_577_836_800);
    let alerts = server.refresh(&conf, outcomes());
    assert_eq!(alerts.len(), 0);
    assert!(server.latest_data().update_time >= first);
}

#[test]
fn failed_change_leaves_the_configuration_as_it_was() {
    let mut server = Server::new(fleet(true));
    let res = server.with_conf(|mut c| add_host(&mut c, "web1").map(|_| c));
    match res {
        Err(ConfigError::HostExists(name)) => assert_eq!(name, "web1"),
        other => panic!("unexpected {:?}", other),
    }
    let after = server.current_conf();
    assert_eq!(after.hosts.len(), 2);
    assert_eq!(after.hosts[0].name, "web1");
    assert_eq!(after.hosts[1].name, "db1");
    assert_eq!(after.locations.len(), 1);
    assert!(after.slack.is_some());
}

#[test]
fn change_that_fails_half_way_leaves_no_trace() {
    let mut server = Server::new(fleet(true));
    let res: Result<(), String> = server.with_conf(|mut c| {
        c.hosts.clear();
        c.refresh_delay = Some(1);
        c.slack = None;
        if c.hosts.is_empty() {
            Err("changed my mind".to_string())
        } else {
            Ok(c)
        }
    });
    assert_eq!(res, Err("changed my mind".to_string()));
    let after = server.current_conf();
    assert_eq!(after.hosts.len(), 2);
    assert_eq!(after.refresh_delay, None);
    assert!(after.slack.is_some());
    assert_eq!(server.refresh_delay(), 30);
}

#[test]
fn change_takes_effect() {
    let mut server = Server::new(fleet(true));
    assert!(server.with_conf(|mut c| add_host(&mut c, "cache1").map(|_| c)).is_ok());
    assert_eq!(server.current_conf().hosts.len(), 3);
    assert_eq!(server.current_conf().hosts[2].name, "cache1");
    assert_eq!(server.current_conf().hosts[2].iface, "em1");
    let replacement = HostConfig { location: Some("attic".to_string()), ..host("db9", None) };
    assert!(server.with_conf(|mut c| edit_host(&mut c, "db1", replacement).map(|_| c)).is_ok());
    let after = server.current_conf();
    assert_eq!(after.hosts[1].name, "db9");
    assert_eq!(after.hosts[1].location.as_deref(), Some("attic"));
    let res = server.with_conf(|mut c| edit_host(&mut c, "db1", host("x", None)).map(|_| c));
    assert!(matches!(res, Err(ConfigError::HostNotFound)));
    assert_eq!(server.current_conf().hosts[1].name, "db9");
}

#[test]
fn change_touches_neither_snapshot_nor_alerts() {
    let mut server = Server::new(fleet(true));
    let conf = server.current_conf();
    let outcomes = || vec![Some(report("web1", "10.0.0.7", vec![disk("sda1", "/", 99, 100)])), None];
    assert_eq!(server.refresh_at(&conf, outcomes(), 50, 0).len(), 1);
    assert!(server.with_conf(|mut c| add_host(&mut c, "cache1").map(|_| c)).is_ok());
    assert_eq!(server.latest_data().hosts.len(), 1);
    assert_eq!(server.latest_data().update_time, 50);
    assert!(server.is_running());
    assert_eq!(server.refresh_at(&conf, outcomes(), 60, 10).len(), 0);
}

#[test]
fn copy_of_the_configuration_is_detached() {
    let server = Server::new(fleet(true));
    let mut copy = server.current_conf();
    copy.hosts.clear();
    assert_eq!(server.current_conf().hosts.len(), 2);
}

#[test]
fn stop_is_final_and_can_be_repeated() {
    let mut server = Server::new(fleet(true));
    server.stop();
    assert!(!server.is_running());
    server.stop();
    assert!(!server.is_running());
    assert_eq!(server.current_conf().hosts.len(), 2);
    let conf = server.current_conf();
    server.refresh_at(&conf, vec![None, None], 9, 9);
    assert!(!server.is_running());
    assert_eq!(server.latest_data().update_time, 9);
}

#[test]
fn scheduler_pushes_refreshes_and_waits() {
    let mut s = Scheduler::new();
    assert!(!s.is_stopped());
    assert_eq!(s.next(true, 30), Action::PushProbes);
    assert_eq!(s.next(true, 30), Action::Refresh);
    assert_eq!(s.next(true, 30), Action::Sleep(30));
    assert_eq!(s.next(true, 30), Action::Refresh);
    assert_eq!(s.next(true, 45), Action::Sleep(45));
    assert_eq!(s.next(true, 45), Action::Refresh);
    assert!(!s.is_stopped());
    assert_eq!(s.next(false, 45), Action::Exit);
    assert!(s.is_stopped());
    assert_eq!(s.next(true, 45), Action::Exit);
    assert_eq!(s.next(false, 45), Action::Exit);
    assert!(s.is_stopped());
}

#[test]
fn scheduler_refreshes_once_even_when_stopped_at_once() {
    let mut s = Scheduler::new();
    assert_eq!(s.next(false, 30), Action::PushProbes);
    assert_eq!(s.next(false, 30), Action::Refresh);
    assert_eq!(s.next(false, 30), Action::Exit);
    assert_eq!(s.next(false, 30), Action::Exit);
}

#[test]
fn stop_during_a_wait_is_seen_after_the_next_refresh() {
    let mut s = Scheduler::new();
    assert_eq!(s.next(true, 30), Action::PushProbes);
    assert_eq!(s.next(true, 30), Action::Refresh);
    assert_eq!(s.next(true, 30), Action::Sleep(30));
    assert_eq!(s.next(false, 30), Action::Refresh);
    assert_eq!(s.next(false, 30), Action::Exit);
}

#[test]
fn phases_are_told_apart() {
    assert_ne!(Phase::Created, Phase::Stopped);
    assert_eq!(Phase::Refreshed, Phase::Refreshed);
    assert_ne!(Action::Sleep(1), Action::Sleep(2));
}

#[test]
fn server_adds_a_host_or_stays_as_it_was() {
    let mut server = Server::new(fleet(true));
    assert!(server.add_host("cache1").is_ok());
    let after = server.current_conf();
    assert_eq!(after.hosts.len(), 3);
    assert_eq!(after.hosts[2].name, "cache1");
    assert_eq!(after.hosts[2].address, "cache1");
    assert_eq!(after.hosts[2].iface, "em1");
    match server.add_host("cache1") {
        Err(ConfigError::HostExists(name)) => assert_eq!(name, "cache1"),
        other => panic!("unexpected {:?}", other),
    }
    match server.add_host("db1") {
        Err(e) => assert_eq!(e.message(), "Host db1 already exists"),
        other => panic!("unexpected {:?}", other),
    }
    let after = server.current_conf();
    assert_eq!(after.hosts.len(), 3);
    assert_eq!(after.locations.len(), 1);
    assert!(after.slack.is_some());
    assert!(server.is_running());
}

#[test]
fn server_edits_a_host_or_stays_as_it_was() {
    let mut server = Server::new(fleet(true));
    let replacement = HostConfig { location: Some("attic".to_string()), ..host("db9", None) };
    assert!(server.edit_host("db1", replacement).is_ok());
    let after = server.current_conf();
    assert_eq!(after.hosts.len(), 2);
    assert_eq!(after.hosts[0].name, "web1");
    assert_eq!(after.hosts[1].name, "db9");
    assert_eq!(after.hosts[1].address, "db9");
    assert_eq!(after.hosts[1].location.as_deref(), Some("attic"));
    match server.edit_host("db1", host("x", None)) {
        Err(ConfigError::HostNotFound) => {},
        other => panic!("unexpected {:?}", other),
    }
    let after = server.current_conf();
    assert_eq!(after.hosts[0].name, "web1");
    assert_eq!(after.hosts[1].name, "db9");
}
