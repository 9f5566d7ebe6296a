//! Alerts on disks that are about to run full: which disks are critical,
//! which alerts are due, what an alert says, and the log that keeps the
//! same alert from going out again within half an hour.

use crate::data::{Data, DiskData, HostData};
use vstd::prelude::*;
use vstd::string::*;

verus! {

/// The time that passes, at least, between two alerts on the same disk of
/// the same host: half an hour, in nanoseconds.
pub const ALERT_WINDOW: u128 = 1_800_000_000_000;

/// A disk is critical when it has a size and more than 98% of it is used.
/// The comparison is made on whole numbers, so that exactly 98% is not
/// critical.
pub open spec fn is_critical(used: usize, size: usize) -> bool {
    size > 0 && 100 * used > 98 * size
}

/// The used share of a disk in percent, rounded down.
pub open spec fn usage_percent(used: usize, size: usize) -> nat {
    ((100 * used) / (size as int)) as nat
}

/// An alert is due when none went out before, or `ALERT_WINDOW` nanoseconds
/// or more have passed since the last one. A clock that ran backwards counts
/// as no time passed.
pub open spec fn is_due(last: Option<u128>, now: u128) -> bool {
    match last {
        Some(t) => now - t >= ALERT_WINDOW,
        None => true,
    }
}

/// The usage to report for a disk, if the disk is critical.
pub fn critical_usage(used: usize, size: usize) -> (usage: Option<u128>)
    ensures
        usage == if is_critical(used, size) {
            Some(usage_percent(used, size) as u128)
        } else {
            None::<u128>
        },
{
    let scaled: u128 = 100 * (used as u128);
    if size > 0 && scaled > 98 * (size as u128) {
        Some(scaled / (size as u128))
    } else {
        None
    }
}

/// Whether an alert is due at `now`, the last one having gone out at `last`.
pub fn alert_due(last: Option<u128>, now: u128) -> (due: bool)
    ensures
        due == is_due(last, now),
{
    match last {
        Some(t) => now >= t && now - t >= ALERT_WINDOW,
        None => true,
    }
}

/// The character of a decimal digit.
pub open spec fn digit_char(d: nat) -> char {
    if d == 0 {
        '0'
    } else if d == 1 {
        '1'
    } else if d == 2 {
        '2'
    } else if d == 3 {
        '3'
    } else if d == 4 {
        '4'
    } else if d == 5 {
        '5'
    } else if d == 6 {
        '6'
    } else if d == 7 {
        '7'
    } else if d == 8 {
        '8'
    } else {
        '9'
    }
}

/// A number in decimal notation, without leading zeros.
pub open spec fn decimal(n: nat) -> Seq<char>
    decreases n,
{
    if n < 10 {
        seq![digit_char(n)]
    } else {
        decimal(n / 10).push(digit_char(n % 10))
    }
}

/// What an alert says.
pub open spec fn alert_text(host: Seq<char>, disk: Seq<char>, mount: Seq<char>, usage: nat) -> Seq<
    char,
> {
    "`"@ + mount + "` (`"@ + disk + "`) on `"@ + host + "` is getting critical at "@ + decimal(
        usage,
    ) + "% usage."@
}

fn digit_str(d: u8) -> (s: &'static str)
    requires
        d < 10,
    ensures
        s@ == seq![digit_char(d as nat)],
{
    proof {
        reveal_strlit("0");
        reveal_strlit("1");
        reveal_strlit("2");
        reveal_strlit("3");
        reveal_strlit("4");
        reveal_strlit("5");
        reveal_strlit("6");
        reveal_strlit("7");
        reveal_strlit("8");
        reveal_strlit("9");
    }
    let s: &'static str = if d == 0 {
        "0"
    } else if d == 1 {
        "1"
    } else if d == 2 {
        "2"
    } else if d == 3 {
        "3"
    } else if d == 4 {
        "4"
    } else if d == 5 {
        "5"
    } else if d == 6 {
        "6"
    } else if d == 7 {
        "7"
    } else if d == 8 {
        "8"
    } else {
        "9"
    };
    assert(s@ =~= seq![digit_char(d as nat)]);
    s
}

fn append_decimal(out: &mut String, n: u128)
    ensures
        final(out)@ == old(out)@ + decimal(n as nat),
    decreases n,
{
    if n >= 10 {
        append_decimal(out, n / 10);
    }
    let d: u8 = (n % 10) as u8;
    out.append(digit_str(d));
    assert(out@ =~= old(out)@ + decimal(n as nat));
}

/// The message of an alert.
pub fn alert_message(host: &str, disk: &str, mount: &str, usage: u128) -> (m: String)
    ensures
        m@ == alert_text(host@, disk@, mount@, usage as nat),
{
    let mut m: String = "`".to_owned();
    m.append(mount);
    m.append("` (`");
    m.append(disk);
    m.append("`) on `");
    m.append(host);
    m.append("` is getting critical at ");
    append_decimal(&mut m, usage);
    m.append("% usage.");
    m
}

/// An alert that is to go out: the disk `disk` of `host`, mounted at
/// `mount`, is used to `usage` percent.
#[derive(Debug, Clone)]
pub struct Alert {
    pub host: String,
    pub disk: String,
    pub mount: String,
    pub usage: u128,
}

/// An alert, in characters and numbers.
pub struct AlertModel {
    pub host: Seq<char>,
    pub disk: Seq<char>,
    pub mount: Seq<char>,
    pub usage: nat,
}

impl View for Alert {
    type V = AlertModel;

    open spec fn view(&self) -> AlertModel {
        AlertModel { host: self.host@, disk: self.disk@, mount: self.mount@, usage: self.usage as nat }
    }
}

impl Alert {
    /// What the alert says.
    pub fn message(&self) -> (m: String)
        ensures
            m@ == alert_text(self@.host, self@.disk, self@.mount, self@.usage),
    {
        alert_message(self.host.as_str(), self.disk.as_str(), self.mount.as_str(), self.usage)
    }
}

/// The alerts of a list, each in characters and numbers.
pub open spec fn alert_models(alerts: Seq<Alert>) -> Seq<AlertModel> {
    alerts.map_values(|a: Alert| a@)
}

/// The name under which alerts are sent.
pub open spec fn sender() -> Seq<char> {
    "FarmView"@
}

/// An alert as it is handed to the one who delivers it: where to, in which
/// channel, under which name, and the text.
#[derive(Debug, Clone)]
pub struct Notification {
    pub endpoint: String,
    pub channel: String,
    pub username: String,
    pub text: String,
}

/// Makes the notification that tells the channel `channel` behind the
/// endpoint `token` that the disk `disk` of `host`, mounted at `mount`, is
/// used to `usage` percent. Delivering it is left to the caller.
pub fn send_alert(token: &str, channel: &str, host: &str, disk: &str, mount: &str, usage: u128) -> (n:
    Notification)
    ensures
        n.endpoint@ == token@,
        n.channel@ == channel@,
        n.username@ == sender(),
        n.text@ == alert_text(host@, disk@, mount@, usage as nat),
{
    Notification {
        endpoint: token.to_owned(),
        channel: channel.to_owned(),
        username: "FarmView".to_owned(),
        text: alert_message(host, disk, mount, usage),
    }
}

/// A host and the name of one of its disks.
pub type AlertKey = (Seq<char>, Seq<char>);

struct LogEntry {
    host: String,
    disk: String,
    time: u128,
}

/// When the last alert went out, for each disk that ever had one. An entry
/// is overwritten by the next alert on the same disk, and never removed.
/// The entries are kept in a list that holds no disk twice, and are looked
/// up by comparing the names: nothing is taken on trust of how strings are
/// hashed or ordered.
pub struct AlertLog {
    entries: Vec<LogEntry>,
}

spec fn entry_key(e: LogEntry) -> AlertKey {
    (e.host@, e.disk@)
}

spec fn has_key(entries: Seq<LogEntry>, key: AlertKey) -> bool {
    exists|i: int| 0 <= i < entries.len() && entry_key(#[trigger] entries[i]) == key
}

spec fn index_of(entries: Seq<LogEntry>, key: AlertKey) -> int {
    choose|i: int| 0 <= i < entries.len() && entry_key(#[trigger] entries[i]) == key
}

spec fn keys_distinct(entries: Seq<LogEntry>) -> bool {
    forall|i: int, j: int|
        0 <= i < j < entries.len() ==> entry_key(#[trigger] entries[i]) != entry_key(
            #[trigger] entries[j],
        )
}

spec fn log_of(entries: Seq<LogEntry>) -> Map<AlertKey, u128> {
    Map::new(|key: AlertKey| has_key(entries, key), |key: AlertKey| entries[index_of(entries, key)].time)
}

proof fn lemma_entry_found(entries: Seq<LogEntry>, i: int)
    requires
        keys_distinct(entries),
        0 <= i < entries.len(),
    ensures
        log_of(entries).dom().contains(entry_key(entries[i])),
        log_of(entries)[entry_key(entries[i])] == entries[i].time,
{
    let key = entry_key(entries[i]);
    assert(has_key(entries, key));
    let j = index_of(entries, key);
    if j < i {
        assert(entry_key(entries[j]) != entry_key(entries[i]));
    } else if i < j {
        assert(entry_key(entries[i]) != entry_key(entries[j]));
    }
}

impl View for AlertLog {
    type V = Map<AlertKey, u128>;

    closed spec fn view(&self) -> Map<AlertKey, u128> {
        log_of(self.entries@)
    }
}

impl AlertLog {
    #[verifier::type_invariant]
    spec fn well_formed(self) -> bool {
        keys_distinct(self.entries@)
    }

    /// The log in which no alert is recorded.
    pub fn new() -> (log: Self)
        ensures
            log@ == Map::<AlertKey, u128>::empty(),
    {
        let log = AlertLog { entries: Vec::new() };
        assert(log@ =~= Map::<AlertKey, u128>::empty());
        log
    }

    fn position(&self, host: &String, disk: &String) -> (at: Option<usize>)
        ensures
            match at {
                Some(i) => i < self.entries@.len() && entry_key(self.entries@[i as int]) == (
                    host@,
                    disk@,
                ),
                None => !has_key(self.entries@, (host@, disk@)),
            },
    {
        let mut i: usize = 0;
        while i < self.entries.len()
            invariant
                i <= self.entries.len(),
                forall|j: int|
                    0 <= j < i ==> entry_key(#[trigger] self.entries@[j]) != (host@, disk@),
            decreases self.entries.len() - i,
        {
            if self.entries[i].host == *host && self.entries[i].disk == *disk {
                return Some(i);
            }
            i = i + 1;
        }
        None
    }

    /// When the last alert on the disk `disk` of `host` went out, if one
    /// ever did.
    pub fn last_sent(&self, host: &str, disk: &str) -> (last: Option<u128>)
        ensures
            last == if self@.dom().contains((host@, disk@)) {
                Some(self@[(host@, disk@)])
            } else {
                None::<u128>
            },
    {
        proof {
            use_type_invariant(self);
        }
        let host: String = host.to_owned();
        let disk: String = disk.to_owned();
        match self.position(&host, &disk) {
            Some(i) => {
                proof {
                    lemma_entry_found(self.entries@, i as int);
                }
                Some(self.entries[i].time)
            },
            None => None,
        }
    }

    /// Records that an alert on the disk `disk` of `host` went out at `now`.
    pub fn record(&mut self, host: &str, disk: &str, now: u128)
        ensures
            final(self)@ == old(self)@.insert((host@, disk@), now),
    {
        proof {
            use_type_invariant(&*self);
        }
        let host: String = host.to_owned();
        let disk: String = disk.to_owned();
        let ghost before = self.entries@;
        let ghost key: AlertKey = (host@, disk@);
        let at: Option<usize> = self.position(&host, &disk);
        let entry = LogEntry { host, disk, time: now };
        let mut entries: Vec<LogEntry> = Vec::new();
        std::mem::swap(&mut entries, &mut self.entries);
        match at {
            Some(i) => {
                entries.set(i, entry);
            },
            None => {
                entries.push(entry);
            },
        }
        proof {
            let after = entries@;
            assert(keys_distinct(after)) by {
                assert forall|a: int, b: int| 0 <= a < b < after.len() implies entry_key(
                    #[trigger] after[a],
                ) != entry_key(#[trigger] after[b]) by {
                    match at {
                        Some(i) => {
                            assert(entry_key(after[a]) == entry_key(before[a]));
                            assert(entry_key(after[b]) == entry_key(before[b]));
                        },
                        None => {
                            if b < before.len() {
                                assert(after[a] == before[a] && after[b] == before[b]);
                            } else {
                                assert(after[a] == before[a]);
                                assert(entry_key(before[a]) != key);
                            }
                        },
                    }
                }
            }
            assert forall|k: AlertKey| #[trigger]
                log_of(after).dom().contains(k) == log_of(before).insert(key, now).dom().contains(
                    k,
                ) by {
                if has_key(after, k) {
                    let j = index_of(after, k);
                    if k != key {
                        assert(entry_key(before[j]) == k);
                    }
                }
                if has_key(before, k) {
                    let j = index_of(before, k);
                    assert(entry_key(after[j]) == entry_key(before[j]) || k == key);
                }
                if k == key {
                    match at {
                        Some(i) => {
                            assert(entry_key(after[i as int]) == key);
                        },
                        None => {
                            assert(entry_key(after[before.len() as int]) == key);
                        },
                    }
                }
            }
            assert forall|k: AlertKey| #[trigger]
                log_of(after).dom().contains(k) implies log_of(after)[k] == log_of(before).insert(
                key,
                now,
            )[k] by {
                let j = index_of(after, k);
                lemma_entry_found(after, j);
                if k != key {
                    assert(entry_key(before[j]) == k);
                    assert(before[j] == after[j]);
                    lemma_entry_found(before, j);
                } else {
                    match at {
                        Some(i) => {
                            lemma_entry_found(after, i as int);
                        },
                        None => {
                            lemma_entry_found(after, before.len() as int);
                        },
                    }
                }
            }
            assert(log_of(after) =~= log_of(before).insert(key, now));
        }
        self.entries = entries;
    }
}

/// The log of alerts and the alerts that went out, in their order, at some
/// point of an evaluation.
pub struct AlertState {
    pub log: Map<AlertKey, u128>,
    pub sent: Seq<AlertModel>,
}

/// When the last alert on a disk went out, if the log holds one.
pub open spec fn last_alert(log: Map<AlertKey, u128>, key: AlertKey) -> Option<u128> {
    if log.dom().contains(key) {
        Some(log[key])
    } else {
        None
    }
}

/// Whether the disk gives rise to an alert at `now`: its use and its size
/// are known, it is critical, and an alert on it is due.
pub open spec fn fires(log: Map<AlertKey, u128>, host: Seq<char>, disk: DiskData, now: u128) -> bool {
    &&& disk.used matches Some(used)
    &&& disk.size matches Some(size)
    &&& is_critical(used, size)
    &&& is_due(last_alert(log, (host, disk.name@)), now)
}

/// The state after one disk of the host named `host` was looked at. An
/// alert that goes out is recorded at once.
pub open spec fn after_disk(state: AlertState, host: Seq<char>, disk: DiskData, now: u128)
    -> AlertState {
    if fires(state.log, host, disk, now) {
        AlertState {
            log: state.log.insert((host, disk.name@), now),
            sent: state.sent.push(
                AlertModel {
                    host: host,
                    disk: disk.name@,
                    mount: disk.mountpoint@,
                    usage: usage_percent(disk.used->0, disk.size->0),
                },
            ),
        }
    } else {
        state
    }
}

/// The state after the disks of one host were looked at, one after the
/// other.
pub open spec fn after_disks(state: AlertState, host: Seq<char>, disks: Seq<DiskData>, now: u128)
    -> AlertState
    decreases disks.len(),
{
    if disks.len() == 0 {
        state
    } else {
        after_disk(after_disks(state, host, disks.drop_last(), now), host, disks.last(), now)
    }
}

/// The name under which a host's alerts go: its host name, or the empty
/// name when it reports none.
pub open spec fn alert_host(host: HostData) -> Seq<char> {
    match host.hostname {
        Some(name) => name@,
        None => Seq::empty(),
    }
}

/// The state after every disk of every host was looked at, in their order.
pub open spec fn after_hosts(state: AlertState, hosts: Seq<HostData>, now: u128) -> AlertState
    decreases hosts.len(),
{
    if hosts.len() == 0 {
        state
    } else {
        after_disks(
            after_hosts(state, hosts.drop_last(), now),
            alert_host(hosts.last()),
            hosts.last().disks@,
            now,
        )
    }
}

/// Looks at every disk of a snapshot, at the time `now` of a clock that
/// counts nanoseconds, and returns the alerts that are to go out, in the order
/// of the hosts and their disks. Each of them is recorded in `log` whether
/// or not it can be delivered later.
pub fn evaluate(data: &Data, log: &mut AlertLog, now: u128) -> (alerts: Vec<Alert>)
    ensures
        (AlertState { log: final(log)@, sent: alert_models(alerts@) }) == after_hosts(
            AlertState { log: old(log)@, sent: Seq::empty() },
            data.hosts@,
            now,
        ),
{
    let mut alerts: Vec<Alert> = Vec::new();
    let ghost start = AlertState { log: log@, sent: Seq::<AlertModel>::empty() };
    assert(alert_models(alerts@) =~= Seq::<AlertModel>::empty());
    let mut h: usize = 0;
    while h < data.hosts.len()
        invariant
            h <= data.hosts.len(),
            (AlertState { log: log@, sent: alert_models(alerts@) }) == after_hosts(
                start,
                data.hosts@.take(h as int),
                now,
            ),
        decreases data.hosts.len() - h,
    {
        let host: &HostData = &data.hosts[h];
        let name: String = match &host.hostname {
            Some(n) => n.clone(),
            None => String::new(),
        };
        let ghost before = AlertState { log: log@, sent: alert_models(alerts@) };
        let mut d: usize = 0;
        while d < host.disks.len()
            invariant
                d <= host.disks.len(),
                name@ == alert_host(*host),
                (AlertState { log: log@, sent: alert_models(alerts@) }) == after_disks(
                    before,
                    name@,
                    host.disks@.take(d as int),
                    now,
                ),
            decreases host.disks.len() - d,
        {
            let disk: &DiskData = &host.disks[d];
            let ghost previous = AlertState { log: log@, sent: alert_models(alerts@) };
            proof {
                assert(host.disks@.take(d + 1).drop_last() =~= host.disks@.take(d as int));
                assert(host.disks@.take(d + 1).last() == *disk);
            }
            let usage: Option<u128> = match (disk.used, disk.size) {
                (Some(used), Some(size)) => critical_usage(used, size),
                _ => None,
            };
            if let Some(usage) = usage {
                let last: Option<u128> = log.last_sent(name.as_str(), disk.name.as_str());
                if alert_due(last, now) {
                    log.record(name.as_str(), disk.name.as_str(), now);
                    let alert = Alert {
                        host: name.clone(),
                        disk: disk.name.clone(),
                        mount: disk.mountpoint.clone(),
                        usage,
                    };
                    alerts.push(alert);
                    assert(alert_models(alerts@) =~= previous.sent.push(alert@));
                }
            }
            d = d + 1;
        }
        proof {
            assert(host.disks@.take(host.disks.len() as int) =~= host.disks@);
            assert(data.hosts@.take(h + 1).drop_last() =~= data.hosts@.take(h as int));
            assert(data.hosts@.take(h + 1).last() == *host);
        }
        h = h + 1;
    }
    assert(data.hosts@.take(data.hosts.len() as int) =~= data.hosts@);
    alerts
}

/// At the threshold: a disk of which exactly 98% is used is not critical,
/// and any larger share of a disk that has a size is.
pub proof fn lemma_threshold_is_strict(used: usize, size: usize)
    requires
        size > 0,
    ensures
        100 * used == 98 * size ==> !is_critical(used, size),
        100 * used > 98 * size ==> is_critical(used, size),
        is_critical(used, size) ==> usage_percent(used, size) >= 98,
{
    if is_critical(used, size) {
        assert(usage_percent(used, size) >= 98) by (nonlinear_arith)
            requires
                size > 0,
                100 * used > 98 * size,
                usage_percent(used, size) == (100 * used) / (size as int),
        ;
    }
}

/// Once an alert on a disk went out at `sent`, the disk gives rise to none
/// for the next `ALERT_WINDOW` nanoseconds, however full it is, and the state
/// stays as it is.
pub proof fn lemma_suppressed_within_window(
    state: AlertState,
    host: Seq<char>,
    disk: DiskData,
    sent: u128,
    now: u128,
)
    requires
        last_alert(state.log, (host, disk.name@)) == Some(sent),
        now < sent + ALERT_WINDOW,
    ensures
        after_disk(state, host, disk, now) == state,
{
}

/// A critical disk on which no alert went out in the last `ALERT_WINDOW`
/// nanoseconds gives rise to exactly one, which is recorded at `now`.
pub proof fn lemma_alert_when_due(state: AlertState, host: Seq<char>, disk: DiskData, now: u128)
    requires
        disk.used is Some,
        disk.size is Some,
        is_critical(disk.used->0, disk.size->0),
        is_due(last_alert(state.log, (host, disk.name@)), now),
    ensures
        after_disk(state, host, disk, now).sent.len() == state.sent.len() + 1,
        after_disk(state, host, disk, now).sent.last().host == host,
        after_disk(state, host, disk, now).sent.last().disk == disk.name@,
        last_alert(after_disk(state, host, disk, now).log, (host, disk.name@)) == Some(now),
{
}

/// The alert that just went out silences the same disk: looked at again at
/// the same time, or at any time within the window, it gives rise to none.
pub proof fn lemma_alert_silences_repeat(
    state: AlertState,
    host: Seq<char>,
    disk: DiskData,
    now: u128,
    later: u128,
)
    requires
        fires(state.log, host, disk, now),
        later < now + ALERT_WINDOW,
    ensures
        !fires(after_disk(state, host, disk, now).log, host, disk, later),
{
}

/// An evaluation removes no entry from the log, and takes back no alert.
pub proof fn lemma_log_only_grows(state: AlertState, hosts: Seq<HostData>, now: u128)
    ensures
        state.log.dom().subset_of(after_hosts(state, hosts, now).log.dom()),
        state.sent.len() <= after_hosts(state, hosts, now).sent.len(),
    decreases hosts.len(),
{
    if hosts.len() > 0 {
        lemma_log_only_grows(state, hosts.drop_last(), now);
        lemma_disks_only_grow(
            after_hosts(state, hosts.drop_last(), now),
            alert_host(hosts.last()),
            hosts.last().disks@,
            now,
        );
    }
}

proof fn lemma_disks_only_grow(state: AlertState, host: Seq<char>, disks: Seq<DiskData>, now: u128)
    ensures
        state.log.dom().subset_of(after_disks(state, host, disks, now).log.dom()),
        state.sent.len() <= after_disks(state, host, disks, now).sent.len(),
    decreases disks.len(),
{
    if disks.len() > 0 {
        lemma_disks_only_grow(state, host, disks.drop_last(), now);
    }
}

/// One disk of one host, as an evaluation meets it.
pub struct Reading {
    pub host: Seq<char>,
    pub disk: DiskData,
}

/// The disks of one host, each with the name of the host.
pub open spec fn disk_readings(host: Seq<char>, disks: Seq<DiskData>) -> Seq<Reading> {
    disks.map_values(|disk: DiskData| Reading { host, disk })
}

/// Every disk of every host, in the order in which an evaluation meets
/// them.
pub open spec fn readings(hosts: Seq<HostData>) -> Seq<Reading>
    decreases hosts.len(),
{
    if hosts.len() == 0 {
        Seq::empty()
    } else {
        readings(hosts.drop_last()) + disk_readings(alert_host(hosts.last()), hosts.last().disks@)
    }
}

/// The state after a run of readings was looked at, one after the other.
pub open spec fn after_readings(state: AlertState, rs: Seq<Reading>, now: u128) -> AlertState
    decreases rs.len(),
{
    if rs.len() == 0 {
        state
    } else {
        after_disk(after_readings(state, rs.drop_last(), now), rs.last().host, rs.last().disk, now)
    }
}

/// The disk that a reading is of.
pub open spec fn reading_key(r: Reading) -> AlertKey {
    (r.host, r.disk.name@)
}

/// Whether the use and the size of the disk are known and the disk is
/// critical.
pub open spec fn reading_critical(r: Reading) -> bool {
    r.disk.used is Some && r.disk.size is Some && is_critical(r.disk.used->0, r.disk.size->0)
}

/// Whether the reading `j` is the one that an alert goes out on: it is
/// critical, an alert on its disk was due when the evaluation began, and
/// no critical reading of the same disk stands before it.
pub open spec fn alerts_at(log: Map<AlertKey, u128>, rs: Seq<Reading>, now: u128, j: int) -> bool {
    &&& 0 <= j < rs.len()
    &&& reading_critical(rs[j])
    &&& is_due(last_alert(log, reading_key(rs[j])), now)
    &&& forall|i: int|
        0 <= i < j ==> !(reading_critical(#[trigger] rs[i]) && reading_key(rs[i]) == reading_key(
            rs[j],
        ))
}

/// Whether an alert goes out on the disk `key` among the first `k`
/// readings.
pub open spec fn alerted(
    log: Map<AlertKey, u128>,
    rs: Seq<Reading>,
    now: u128,
    k: int,
    key: AlertKey,
) -> bool {
    exists|i: int| 0 <= i < k && #[trigger] alerts_at(log, rs, now, i) && reading_key(rs[i]) == key
}

/// The alerts that go out on the first `k` readings, in their order.
pub open spec fn fired(log: Map<AlertKey, u128>, rs: Seq<Reading>, now: u128, k: nat) -> Seq<
    AlertModel,
>
    decreases k,
{
    if k == 0 {
        Seq::empty()
    } else if alerts_at(log, rs, now, k - 1) {
        fired(log, rs, now, (k - 1) as nat).push(
            AlertModel {
                host: rs[k - 1].host,
                disk: rs[k - 1].disk.name@,
                mount: rs[k - 1].disk.mountpoint@,
                usage: usage_percent(rs[k - 1].disk.used->0, rs[k - 1].disk.size->0),
            },
        )
    } else {
        fired(log, rs, now, (k - 1) as nat)
    }
}

proof fn lemma_after_readings_append(state: AlertState, a: Seq<Reading>, b: Seq<Reading>, now: u128)
    ensures
        after_readings(state, a + b, now) == after_readings(after_readings(state, a, now), b, now),
    decreases b.len(),
{
    if b.len() == 0 {
        assert(a + b =~= a);
    } else {
        assert((a + b).drop_last() =~= a + b.drop_last());
        assert((a + b).last() == b.last());
        lemma_after_readings_append(state, a, b.drop_last(), now);
    }
}

proof fn lemma_disks_are_readings(state: AlertState, host: Seq<char>, disks: Seq<DiskData>, now: u128)
    ensures
        after_disks(state, host, disks, now) == after_readings(
            state,
            disk_readings(host, disks),
            now,
        ),
    decreases disks.len(),
{
    if disks.len() > 0 {
        lemma_disks_are_readings(state, host, disks.drop_last(), now);
        assert(disk_readings(host, disks).drop_last() =~= disk_readings(host, disks.drop_last()));
    }
}

/// An evaluation looks at the disks of the hosts as at one run of
/// readings.
pub proof fn lemma_hosts_are_readings(state: AlertState, hosts: Seq<HostData>, now: u128)
    ensures
        after_hosts(state, hosts, now) == after_readings(state, readings(hosts), now),
    decreases hosts.len(),
{
    if hosts.len() > 0 {
        lemma_hosts_are_readings(state, hosts.drop_last(), now);
        lemma_disks_are_readings(
            after_hosts(state, hosts.drop_last(), now),
            alert_host(hosts.last()),
            hosts.last().disks@,
            now,
        );
        lemma_after_readings_append(
            state,
            readings(hosts.drop_last()),
            disk_readings(alert_host(hosts.last()), hosts.last().disks@),
            now,
        );
    }
}

proof fn lemma_first_critical(rs: Seq<Reading>, i: int)
    requires
        0 <= i < rs.len(),
        reading_critical(rs[i]),
    ensures
        exists|f: int|
            {
                &&& 0 <= f <= i
                &&& reading_critical(#[trigger] rs[f])
                &&& reading_key(rs[f]) == reading_key(rs[i])
                &&& forall|m: int|
                    0 <= m < f ==> !(reading_critical(#[trigger] rs[m]) && reading_key(rs[m])
                        == reading_key(rs[i]))
            },
    decreases i,
{
    if exists|m: int| 0 <= m < i && reading_critical(#[trigger] rs[m]) && reading_key(rs[m]) == reading_key(rs[i]) {
        let m = choose|m: int|
            0 <= m < i && reading_critical(#[trigger] rs[m]) && reading_key(rs[m]) == reading_key(
                rs[i],
            );
        lemma_first_critical(rs, m);
        let f = choose|f: int|
            {
                &&& 0 <= f <= m
                &&& reading_critical(#[trigger] rs[f])
                &&& reading_key(rs[f]) == reading_key(rs[m])
                &&& forall|n: int|
                    0 <= n < f ==> !(reading_critical(#[trigger] rs[n]) && reading_key(rs[n])
                        == reading_key(rs[m]))
            };
        assert(reading_critical(rs[f]) && reading_key(rs[f]) == reading_key(rs[i]));
    } else {
        assert(reading_critical(rs[i]) && reading_key(rs[i]) == reading_key(rs[i]));
    }
}

/// Within one evaluation a disk gives rise to at most one alert, and it is
/// its first critical reading that does, provided an alert on the disk
/// was due when the evaluation began. After the first `k` readings the log
/// holds `now` for the disks that an alert went out on and is unchanged
/// for the others, and the alerts that went out are those readings' in
/// their order.
pub proof fn lemma_first_critical_reading_alerts(
    state: AlertState,
    rs: Seq<Reading>,
    now: u128,
    k: int,
)
    requires
        0 <= k <= rs.len(),
    ensures
        after_readings(state, rs.take(k), now).sent == state.sent + fired(
            state.log,
            rs,
            now,
            k as nat,
        ),
        forall|key: AlertKey|
            #[trigger] last_alert(after_readings(state, rs.take(k), now).log, key) == if alerted(
                state.log,
                rs,
                now,
                k,
                key,
            ) {
                Some(now)
            } else {
                last_alert(state.log, key)
            },
        k < rs.len() ==> (fires(
            after_readings(state, rs.take(k), now).log,
            rs[k].host,
            rs[k].disk,
            now,
        ) <==> alerts_at(state.log, rs, now, k)),
    decreases k,
{
    let here = after_readings(state, rs.take(k), now);
    if k == 0 {
        assert(rs.take(0) =~= Seq::<Reading>::empty());
        assert(state.sent + fired(state.log, rs, now, 0) =~= state.sent);
    } else {
        lemma_first_critical_reading_alerts(state, rs, now, k - 1);
        let before = after_readings(state, rs.take(k - 1), now);
        assert(rs.take(k).drop_last() =~= rs.take(k - 1));
        assert(rs.take(k).last() == rs[k - 1]);
        assert(here == after_disk(before, rs[k - 1].host, rs[k - 1].disk, now));
        let went = alerts_at(state.log, rs, now, k - 1);
        assert(went == fires(before.log, rs[k - 1].host, rs[k - 1].disk, now));
        if went {
            assert(here.sent =~= state.sent + fired(state.log, rs, now, k as nat));
        }
        assert forall|key: AlertKey|
            #[trigger] last_alert(here.log, key) == if alerted(state.log, rs, now, k, key) {
                Some(now)
            } else {
                last_alert(state.log, key)
            } by {
            let earlier = alerted(state.log, rs, now, k - 1, key);
            assert(last_alert(before.log, key) == if earlier {
                Some(now)
            } else {
                last_alert(state.log, key)
            });
            if went && reading_key(rs[k - 1]) == key {
                assert(alerted(state.log, rs, now, k, key));
            } else if earlier {
                let i = choose|i: int|
                    0 <= i < k - 1 && #[trigger] alerts_at(state.log, rs, now, i) && reading_key(
                        rs[i],
                    ) == key;
                assert(0 <= i < k && alerts_at(state.log, rs, now, i));
                assert(alerted(state.log, rs, now, k, key));
            } else {
                if alerted(state.log, rs, now, k, key) {
                    let i = choose|i: int|
                        0 <= i < k && #[trigger] alerts_at(state.log, rs, now, i) && reading_key(
                            rs[i],
                        ) == key;
                    if i < k - 1 {
                        assert(alerted(state.log, rs, now, k - 1, key));
                    }
                    assert(false);
                }
            }
        }
    }
    if k < rs.len() {
        let key = reading_key(rs[k]);
        let r = rs[k];
        assert(last_alert(here.log, key) == if alerted(state.log, rs, now, k, key) {
            Some(now)
        } else {
            last_alert(state.log, key)
        });
        if alerted(state.log, rs, now, k, key) {
            let i = choose|i: int|
                0 <= i < k && #[trigger] alerts_at(state.log, rs, now, i) && reading_key(rs[i])
                    == key;
            assert(reading_critical(rs[i]) && reading_key(rs[i]) == reading_key(rs[k]));
            assert(!alerts_at(state.log, rs, now, k));
            assert(!fires(here.log, r.host, r.disk, now));
        } else if reading_critical(r) && is_due(last_alert(state.log, key), now) {
            assert(fires(here.log, r.host, r.disk, now));
            if exists|i: int|
                0 <= i < k && reading_critical(#[trigger] rs[i]) && reading_key(rs[i]) == key {
                let i = choose|i: int|
                    0 <= i < k && reading_critical(#[trigger] rs[i]) && reading_key(rs[i]) == key;
                lemma_first_critical(rs, i);
                let f = choose|f: int|
                    {
                        &&& 0 <= f <= i
                        &&& reading_critical(#[trigger] rs[f])
                        &&& reading_key(rs[f]) == reading_key(rs[i])
                        &&& forall|m: int|
                            0 <= m < f ==> !(reading_critical(#[trigger] rs[m]) && reading_key(
                                rs[m],
                            ) == reading_key(rs[i]))
                    };
                assert(alerts_at(state.log, rs, now, f));
                assert(alerted(state.log, rs, now, k, key));
                assert(false);
            }
            assert(alerts_at(state.log, rs, now, k));
        } else {
            assert(!fires(here.log, r.host, r.disk, now));
            assert(!alerts_at(state.log, rs, now, k));
        }
    }
}

/// What an evaluation comes to, said at once: the alerts that go out are
/// those on the first critical reading of each disk on which an alert was
/// due when the evaluation began; the log holds `now` for those disks, and
/// for every other disk what it held before.
pub proof fn lemma_evaluation_at_once(log: Map<AlertKey, u128>, hosts: Seq<HostData>, now: u128)
    ensures
        after_hosts(AlertState { log, sent: Seq::empty() }, hosts, now).sent == fired(
            log,
            readings(hosts),
            now,
            readings(hosts).len(),
        ),
        forall|key: AlertKey|
            #[trigger] last_alert(
                after_hosts(AlertState { log, sent: Seq::empty() }, hosts, now).log,
                key,
            ) == if alerted(log, readings(hosts), now, readings(hosts).len() as int, key) {
                Some(now)
            } else {
                last_alert(log, key)
            },
{
    let state = AlertState { log, sent: Seq::<AlertModel>::empty() };
    let rs = readings(hosts);
    lemma_hosts_are_readings(state, hosts, now);
    lemma_first_critical_reading_alerts(state, rs, now, rs.len() as int);
    assert(rs.take(rs.len() as int) =~= rs);
    assert(state.sent + fired(log, rs, now, rs.len()) =~= fired(log, rs, now, rs.len()));
}

} // verus!
