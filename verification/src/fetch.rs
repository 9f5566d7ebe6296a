//! From what the probes of a refresh brought back to the snapshot of the
//! fleet: each report is given its location and loses the disks that its
//! host ignores, and the reports are put in the order of their locations.
//! Reaching the hosts is not done here; what is decided here is how to
//! log in, and what to run there.

use crate::config::{
    optional_auth, AuthConfig, AuthModel, Config, HostConfig, HostModel, LocationConfig,
    LocationModel, location_models, texts,
};
use crate::clock::wall_clock_seconds;
use crate::data::{Data, DiskData, HostData, NetworkData};
use crate::ips::{block_matches, IpBlock};
use vstd::prelude::*;
use vstd::string::*;
use vstd::utf8::encode_utf8;

verus! {

/// Whether the address written in `ip` lies in the block written in
/// `mask`.
pub fn match_ip(ip: &str, mask: &str) -> (m: bool)
    ensures
        m == block_matches(mask.spec_bytes(), ip.spec_bytes()),
{
    let block = IpBlock::new(mask);
    block.matches(ip)
}

/// The name of the first of `locations` whose block holds the address `ip`.
pub open spec fn location_of(ip: Seq<u8>, locations: Seq<LocationModel>) -> Option<Seq<char>>
    decreases locations.len(),
{
    if locations.len() == 0 {
        None
    } else if block_matches(encode_utf8(locations[0].ips), ip) {
        Some(locations[0].name)
    } else {
        location_of(ip, locations.skip(1))
    }
}

/// The name of the first of `locations` whose block holds the address `ip`.
pub fn find_location(ip: &str, locations: &Vec<LocationConfig>) -> (name: Option<String>)
    ensures
        crate::config::text(name) == location_of(ip.spec_bytes(), location_models(locations@)),
{
    let ghost all = location_models(locations@);
    let mut i: usize = 0;
    assert(all.skip(0) =~= all);
    while i < locations.len()
        invariant
            i <= locations.len(),
            all == location_models(locations@),
            location_of(ip.spec_bytes(), all) == location_of(ip.spec_bytes(), all.skip(i as int)),
        decreases locations.len() - i,
    {
        proof {
            assert(all.skip(i as int)[0] == locations@[i as int]@);
            assert(all.skip(i as int).skip(1) =~= all.skip(i + 1));
        }
        if match_ip(ip, locations[i].ips.as_str()) {
            return Some(locations[i].name.clone());
        }
        i = i + 1;
    }
    None
}

/// Where a host is: at the first location whose block holds the address it
/// reports; else where its configuration says, if it says so.
pub open spec fn resolved_location(
    host: HostModel,
    locations: Seq<LocationModel>,
    network: Option<NetworkData>,
) -> Option<Seq<char>> {
    let found = match network {
        Some(n) => match n.ip {
            Some(ip) => location_of(encode_utf8(ip@), locations),
            None => None,
        },
        None => None,
    };
    match found {
        Some(name) => Some(name),
        None => host.location,
    }
}

fn locate(host: &HostConfig, locations: &Vec<LocationConfig>, network: &Option<NetworkData>) -> (name:
    Option<String>)
    ensures
        crate::config::text(name) == resolved_location(
            host@,
            location_models(locations@),
            *network,
        ),
{
    let found: Option<String> = match network {
        Some(n) => match &n.ip {
            Some(ip) => find_location(ip.as_str(), locations),
            None => None,
        },
        None => None,
    };
    match found {
        Some(name) => Some(name),
        None => match &host.location {
            Some(l) => Some(l.clone()),
            None => None,
        },
    }
}

/// Whether a host leaves the disk out of its report: its list of ignored
/// disks holds the name of the device or the mount point.
pub open spec fn is_ignored(disk: DiskData, ignored: Option<Seq<Seq<char>>>) -> bool {
    match ignored {
        Some(list) => list.contains(disk.name@) || list.contains(disk.mountpoint@),
        None => false,
    }
}

/// The disks that a host with the list `ignored` reports.
pub open spec fn reported(ignored: Option<Seq<Seq<char>>>) -> spec_fn(DiskData) -> bool {
    |disk: DiskData| !is_ignored(disk, ignored)
}

fn holds_text(list: &Vec<String>, s: &String) -> (found: bool)
    ensures
        found == texts(list@).contains(s@),
{
    let mut i: usize = 0;
    while i < list.len()
        invariant
            i <= list.len(),
            forall|j: int| 0 <= j < i ==> (#[trigger] list@[j])@ != s@,
        decreases list.len() - i,
    {
        if list[i] == *s {
            assert(texts(list@)[i as int] == s@);
            return true;
        }
        i = i + 1;
    }
    assert forall|j: int| 0 <= j < texts(list@).len() implies texts(list@)[j] != s@ by {
        assert(texts(list@)[j] == list@[j]@);
    }
    false
}

fn disk_ignored(disk: &DiskData, ignored: &Option<Vec<String>>) -> (yes: bool)
    ensures
        yes == is_ignored(*disk, crate::config::optional_texts(*ignored)),
{
    match ignored {
        Some(list) => holds_text(list, &disk.name) || holds_text(list, &disk.mountpoint),
        None => false,
    }
}

/// Drops the disks that the host ignores, and keeps the others as they are
/// and in their order.
pub fn retain_reported(disks: &mut Vec<DiskData>, ignored: &Option<Vec<String>>)
    ensures
        final(disks)@ == old(disks)@.filter(reported(crate::config::optional_texts(*ignored))),
{
    let ghost all = disks@;
    let ghost keep = reported(crate::config::optional_texts(*ignored));
    let mut i: usize = 0;
    let ghost mut seen: int = 0;
    proof {
        reveal(Seq::filter);
        assert(all.take(0).filter(keep) =~= Seq::<DiskData>::empty());
        assert(disks@ =~= all.take(0).filter(keep) + all.skip(0));
    }
    while i < disks.len()
        invariant
            0 <= seen <= all.len(),
            keep == reported(crate::config::optional_texts(*ignored)),
            i == all.take(seen).filter(keep).len(),
            disks@ == all.take(seen).filter(keep) + all.skip(seen),
        decreases all.len() - seen,
    {
        proof {
            assert(seen < all.len());
            assert(disks@[i as int] == all[seen]);
            assert(all.take(seen + 1) =~= all.take(seen).push(all[seen]));
            all.take(seen).lemma_filter_push(all[seen], keep);
        }
        if disk_ignored(&disks[i], ignored) {
            disks.remove(i);
            proof {
                assert(disks@ =~= all.take(seen + 1).filter(keep) + all.skip(seen + 1));
            }
        } else {
            proof {
                assert(disks@ =~= all.take(seen + 1).filter(keep) + all.skip(seen + 1));
            }
            i = i + 1;
        }
        proof {
            seen = seen + 1;
        }
    }
    proof {
        assert(seen == all.len());
        assert(all.take(seen) =~= all);
        assert(disks@ =~= all.filter(keep));
    }
}

/// Whether `report` is what the server makes of what the probe of `host`
/// brought back: the location is filled in, the ignored disks are gone, and
/// the rest is as the probe reported it.
pub open spec fn is_report_of(
    report: HostData,
    host: HostModel,
    locations: Seq<LocationModel>,
    probed: HostData,
) -> bool {
    &&& crate::config::text(report.location) == resolved_location(host, locations, probed.network)
    &&& report.disks@ == probed.disks@.filter(reported(host.ignored_disks))
    &&& report == (HostData { location: report.location, disks: report.disks, ..probed })
}

/// Makes the report of a host out of what its probe brought back.
pub fn process_host(host: &HostConfig, locations: &Vec<LocationConfig>, probed: HostData) -> (report:
    HostData)
    ensures
        is_report_of(report, host@, location_models(locations@), probed),
{
    let mut report = probed;
    report.location = locate(host, locations, &report.network);
    let mut disks: Vec<DiskData> = Vec::new();
    std::mem::swap(&mut disks, &mut report.disks);
    retain_reported(&mut disks, &host.ignored_disks);
    report.disks = disks;
    report
}

/// How to log in to a host.
#[derive(Debug)]
pub enum AuthMethod {
    Password { login: String, password: String },
    /// By the key pair in the file `keypair`.
    KeyFile { login: String, keypair: String },
    /// Nothing is configured: whatever the transport does by default.
    Unspecified,
}

/// How to log in to a host, in characters.
pub enum AuthMethodModel {
    Password { login: Seq<char>, password: Seq<char> },
    KeyFile { login: Seq<char>, keypair: Seq<char> },
    Unspecified,
}

impl View for AuthMethod {
    type V = AuthMethodModel;

    open spec fn view(&self) -> AuthMethodModel {
        match self {
            AuthMethod::Password { login, password } => AuthMethodModel::Password {
                login: login@,
                password: password@,
            },
            AuthMethod::KeyFile { login, keypair } => AuthMethodModel::KeyFile {
                login: login@,
                keypair: keypair@,
            },
            AuthMethod::Unspecified => AuthMethodModel::Unspecified,
        }
    }
}

/// The credential of a host: its own if it has one, else that of the
/// fleet. A password goes before a key pair.
pub open spec fn chosen_auth(host: Option<AuthModel>, fleet: Option<AuthModel>) -> AuthMethodModel {
    let auth = match host {
        Some(a) => Some(a),
        None => fleet,
    };
    match auth {
        Some(a) => match a.password {
            Some(password) => AuthMethodModel::Password { login: a.login, password },
            None => match a.keypair {
                Some(keypair) => AuthMethodModel::KeyFile { login: a.login, keypair },
                None => AuthMethodModel::Unspecified,
            },
        },
        None => AuthMethodModel::Unspecified,
    }
}

fn method_of(auth: &AuthConfig) -> (method: AuthMethod)
    ensures
        method@ == chosen_auth(Some(auth@), None),
{
    match &auth.password {
        Some(password) => AuthMethod::Password {
            login: auth.login.clone(),
            password: password.clone(),
        },
        None => match &auth.keypair {
            Some(keypair) => AuthMethod::KeyFile {
                login: auth.login.clone(),
                keypair: keypair.clone(),
            },
            None => AuthMethod::Unspecified,
        },
    }
}

/// How to log in to `host`, `fleet` being the credential of the hosts that
/// have none of their own.
pub fn select_auth(host: &HostConfig, fleet: &Option<AuthConfig>) -> (method: AuthMethod)
    ensures
        method@ == chosen_auth(optional_auth(host.auth), optional_auth(*fleet)),
{
    match &host.auth {
        Some(auth) => method_of(auth),
        None => match fleet {
            Some(auth) => method_of(auth),
            None => AuthMethod::Unspecified,
        },
    }
}

/// The file mode of the probe on a host: its owner may write it, and
/// everyone may read and run it.
pub const PROBE_MODE: i32 = 0o755;

/// The name of the probe on a host, in the directory that a login lands in.
pub fn probe_file() -> (name: &'static str)
    ensures
        name@ == "fetch.py"@,
{
    "fetch.py"
}

/// The command that runs the probe on a host: the probe, then the network
/// interface to report on.
pub fn probe_command(iface: &str) -> (command: String)
    ensures
        command@ == "./fetch.py "@ + iface@,
{
    let mut command: String = "./fetch.py ".to_owned();
    command.append(iface);
    command
}

/// The order of strings, byte by byte: a string comes before those that it
/// begins, and otherwise the first byte that differs decides.
pub open spec fn lex_le(a: Seq<u8>, b: Seq<u8>) -> bool
    decreases a.len(),
{
    if a.len() == 0 {
        true
    } else if b.len() == 0 {
        false
    } else if a[0] != b[0] {
        a[0] < b[0]
    } else {
        lex_le(a.skip(1), b.skip(1))
    }
}

/// Every string comes no later than itself.
pub proof fn lemma_lex_reflexive(a: Seq<u8>)
    ensures
        lex_le(a, a),
    decreases a.len(),
{
    if a.len() > 0 {
        lemma_lex_reflexive(a.skip(1));
    }
}

/// Of two strings, one comes no later than the other.
pub proof fn lemma_lex_total(a: Seq<u8>, b: Seq<u8>)
    ensures
        lex_le(a, b) || lex_le(b, a),
    decreases a.len(),
{
    if a.len() > 0 && b.len() > 0 && a[0] == b[0] {
        lemma_lex_total(a.skip(1), b.skip(1));
    }
}

/// The order of strings goes on: what comes no later than a second string
/// comes no later than what the second comes no later than.
pub proof fn lemma_lex_transitive(a: Seq<u8>, b: Seq<u8>, c: Seq<u8>)
    requires
        lex_le(a, b),
        lex_le(b, c),
    ensures
        lex_le(a, c),
    decreases a.len(),
{
    if a.len() > 0 && b.len() > 0 && c.len() > 0 && a[0] == b[0] && b[0] == c[0] {
        lemma_lex_transitive(a.skip(1), b.skip(1), c.skip(1));
    }
}

/// Two strings of which each comes no later than the other are one string.
pub proof fn lemma_lex_antisymmetric(a: Seq<u8>, b: Seq<u8>)
    requires
        lex_le(a, b),
        lex_le(b, a),
    ensures
        a == b,
    decreases a.len(),
{
    if a.len() > 0 && b.len() > 0 {
        lemma_lex_antisymmetric(a.skip(1), b.skip(1));
        assert(a =~= seq![a[0]] + a.skip(1));
        assert(b =~= seq![b[0]] + b.skip(1));
    } else {
        assert(a =~= b);
    }
}

fn bytes_le(a: &[u8], b: &[u8]) -> (le: bool)
    ensures
        le == lex_le(a@, b@),
{
    let mut i: usize = 0;
    assert(a@.skip(0) =~= a@ && b@.skip(0) =~= b@);
    loop
        invariant
            i <= a@.len(),
            i <= b@.len(),
            lex_le(a@, b@) == lex_le(a@.skip(i as int), b@.skip(i as int)),
        decreases a@.len() - i,
    {
        if i == a.len() {
            return true;
        }
        if i == b.len() {
            return false;
        }
        if a[i] != b[i] {
            return a[i] < b[i];
        }
        proof {
            assert(a@.skip(i as int).skip(1) =~= a@.skip(i + 1));
            assert(b@.skip(i as int).skip(1) =~= b@.skip(i + 1));
        }
        i = i + 1;
    }
}

/// What a report is ordered by: the bytes of its location, none for a
/// report without location.
pub open spec fn location_key(report: HostData) -> Seq<u8> {
    match report.location {
        Some(l) => encode_utf8(l@),
        None => Seq::empty(),
    }
}

fn location_le(x: &HostData, y: &HostData) -> (le: bool)
    ensures
        le == lex_le(location_key(*x), location_key(*y)),
{
    match &x.location {
        Some(a) => match &y.location {
            Some(b) => bytes_le(a.as_str().as_bytes(), b.as_str().as_bytes()),
            None => a.as_str().as_bytes().len() == 0,
        },
        None => true,
    }
}

/// Whether `reports` are in the order of their locations, those of one
/// location in the order of the numbers `origin` that they carry, and no
/// two carry the same number.
pub open spec fn ordered(reports: Seq<HostData>, origin: Seq<int>) -> bool {
    &&& reports.len() == origin.len()
    &&& forall|i: int, j: int|
        0 <= i < j < origin.len() ==> #[trigger] origin[i] != #[trigger] origin[j]
    &&& forall|i: int, j: int|
        0 <= i < j < reports.len() ==> lex_le(
            location_key(#[trigger] reports[i]),
            location_key(#[trigger] reports[j]),
        )
    &&& forall|i: int, j: int|
        0 <= i < j < reports.len() && location_key(#[trigger] reports[i]) == location_key(
            #[trigger] reports[j],
        ) ==> origin[i] < origin[j]
}

proof fn lemma_insert_ordered(reports: Seq<HostData>, origin: Seq<int>, p: int, x: HostData, o: int)
    requires
        ordered(reports, origin),
        0 <= p <= reports.len(),
        forall|i: int| 0 <= i < origin.len() ==> o < #[trigger] origin[i],
        forall|i: int|
            0 <= i < p ==> !lex_le(location_key(x), location_key(#[trigger] reports[i])),
        p < reports.len() ==> lex_le(location_key(x), location_key(reports[p])),
    ensures
        ordered(reports.insert(p, x), origin.insert(p, o)),
{
    let r2 = reports.insert(p, x);
    let o2 = origin.insert(p, o);
    reports.insert_ensures(p, x);
    origin.insert_ensures(p, o);
    assert forall|i: int| 0 <= i < r2.len() implies (if i < p {
        r2[i] == reports[i] && o2[i] == origin[i]
    } else if i == p {
        r2[i] == x && o2[i] == o
    } else {
        r2[i] == reports[i - 1] && o2[i] == origin[i - 1]
    }) by {
        if i > p {
            assert(r2[(i - 1) + 1] == reports[i - 1]);
            assert(o2[(i - 1) + 1] == origin[i - 1]);
        }
    }
    assert forall|i: int, j: int| 0 <= i < j < o2.len() implies #[trigger] o2[i] != #[trigger] o2[j] by {
        let a = if i < p { i } else { i - 1 };
        let b = if j < p { j } else { j - 1 };
        if i != p && j != p {
            assert(origin[a] != origin[b]);
        } else if i == p {
            assert(o < origin[b]);
        } else {
            assert(o < origin[a]);
        }
    }
    assert forall|i: int, j: int| 0 <= i < j < r2.len() implies lex_le(
        location_key(#[trigger] r2[i]),
        location_key(#[trigger] r2[j]),
    ) by {
        let a = if i < p { i } else { i - 1 };
        let b = if j < p { j } else { j - 1 };
        if i != p && j != p {
            assert(lex_le(location_key(reports[a]), location_key(reports[b])));
        } else if i == p {
            if b > p {
                assert(lex_le(location_key(reports[p]), location_key(reports[b])));
                lemma_lex_transitive(
                    location_key(x),
                    location_key(reports[p]),
                    location_key(reports[b]),
                );
            }
        } else {
            assert(!lex_le(location_key(x), location_key(reports[a])));
            lemma_lex_total(location_key(x), location_key(reports[a]));
        }
    }
    assert forall|i: int, j: int|
        0 <= i < j < r2.len() && location_key(#[trigger] r2[i]) == location_key(
            #[trigger] r2[j],
        ) implies o2[i] < o2[j] by {
        let a = if i < p { i } else { i - 1 };
        let b = if j < p { j } else { j - 1 };
        if i != p && j != p {
            assert(location_key(reports[a]) == location_key(reports[b]));
            assert(origin[a] < origin[b]);
        } else if i == p {
            assert(o < origin[b]);
        } else {
            assert(!lex_le(location_key(x), location_key(reports[a])));
            lemma_lex_reflexive(location_key(x));
        }
    }
}

/// Puts a report in front of the first one whose location does not come
/// before its own.
fn insert_by_location(reports: &mut Vec<HostData>, x: HostData) -> (p: usize)
    ensures
        p <= old(reports)@.len(),
        final(reports)@ == old(reports)@.insert(p as int, x),
        forall|i: int|
            0 <= i < p ==> !lex_le(location_key(x), location_key(#[trigger] old(reports)@[i])),
        p < old(reports)@.len() ==> lex_le(location_key(x), location_key(old(reports)@[p as int])),
{
    let mut p: usize = 0;
    while p < reports.len() && !location_le(&x, &reports[p])
        invariant
            p <= reports.len(),
            *reports == *old(reports),
            forall|i: int|
                0 <= i < p ==> !lex_le(location_key(x), location_key(#[trigger] reports@[i])),
        decreases reports.len() - p,
    {
        p = p + 1;
    }
    reports.insert(p, x);
    p
}

/// The number of hosts that answered.
pub open spec fn answered(outcomes: Seq<Option<HostData>>) -> nat
    decreases outcomes.len(),
{
    if outcomes.len() == 0 {
        0
    } else {
        answered(outcomes.drop_last()) + if outcomes.last() is Some {
            1nat
        } else {
            0nat
        }
    }
}

/// The outcomes that count: one for each host, in the order of the
/// configuration. Those beyond the last host belong to no host.
pub open spec fn paired(hosts: Seq<HostModel>, outcomes: Seq<Option<HostData>>) -> Seq<
    Option<HostData>,
> {
    if outcomes.len() <= hosts.len() {
        outcomes
    } else {
        outcomes.take(hosts.len() as int)
    }
}

/// Whether `reports` is the snapshot that a refresh makes of `outcomes`,
/// the number `origin[i]` saying which host the report `i` is of:
/// there is one report for each host that answered and none for the others,
/// each made of what the probe of its host brought back; the reports are in
/// the order of their locations, and those of one location in the order of
/// the configuration.
pub open spec fn is_snapshot_of(
    reports: Seq<HostData>,
    origin: Seq<int>,
    hosts: Seq<HostModel>,
    locations: Seq<LocationModel>,
    outcomes: Seq<Option<HostData>>,
) -> bool {
    &&& reports.len() == answered(paired(hosts, outcomes))
    &&& ordered(reports, origin)
    &&& forall|i: int|
        0 <= i < reports.len() ==> {
            &&& 0 <= #[trigger] origin[i] < paired(hosts, outcomes).len()
            &&& outcomes[origin[i]] is Some
            &&& is_report_of(reports[i], hosts[origin[i]], locations, outcomes[origin[i]]->0)
        }
    &&& forall|h: int|
        0 <= h < paired(hosts, outcomes).len() && (#[trigger] outcomes[h]) is Some ==> has_origin(
            origin,
            h,
        )
}

/// Whether one of the reports is of the host `h`.
pub open spec fn has_origin(origin: Seq<int>, h: int) -> bool {
    exists|i: int| 0 <= i < origin.len() && #[trigger] origin[i] == h
}

/// Whether `reports` is the snapshot that a refresh makes of `outcomes`.
pub open spec fn snapshot_of(
    reports: Seq<HostData>,
    hosts: Seq<HostModel>,
    locations: Seq<LocationModel>,
    outcomes: Seq<Option<HostData>>,
) -> bool {
    exists|origin: Seq<int>| is_snapshot_of(reports, origin, hosts, locations, outcomes)
}

/// Makes the snapshot of a refresh that ended at `now`. `outcomes` holds,
/// for each host and in the order of the configuration, what its probe
/// brought back, or nothing where the host could not be reached or did not
/// answer properly.
pub fn assemble(config: &Config, outcomes: Vec<Option<HostData>>, now: i64) -> (data: Data)
    ensures
        data.update_time == now,
        snapshot_of(data.hosts@, config@.hosts, config@.locations, outcomes@),
{
    let ghost all = outcomes@;
    let ghost counted = paired(config@.hosts, all);
    let mut rest = outcomes;
    while rest.len() > config.hosts.len()
        invariant
            rest@ == all.take(rest@.len() as int),
            rest@.len() <= all.len(),
            rest@.len() >= config.hosts@.len() || rest@.len() == all.len(),
        decreases rest.len(),
    {
        rest.pop();
        assert(all.take(rest@.len() as int + 1).drop_last() =~= all.take(rest@.len() as int));
    }
    assert(rest@ =~= counted) by {
        assert(config@.hosts.len() == config.hosts@.len());
        assert(all.take(all.len() as int) =~= all);
    }
    let mut reports: Vec<HostData> = Vec::new();
    let ghost mut origin: Seq<int> = Seq::empty();
    while rest.len() > 0
        invariant
            counted == paired(config@.hosts, all),
            rest@.len() <= counted.len(),
            rest@ == counted.take(rest@.len() as int),
            reports@.len() + answered(rest@) == answered(counted),
            ordered(reports@, origin),
            forall|i: int|
                0 <= i < reports@.len() ==> {
                    &&& rest@.len() <= #[trigger] origin[i] < counted.len()
                    &&& all[origin[i]] is Some
                    &&& is_report_of(
                        reports@[i],
                        config@.hosts[origin[i]],
                        config@.locations,
                        all[origin[i]]->0,
                    )
                },
            forall|h: int|
                rest@.len() <= h < counted.len() && (#[trigger] all[h]) is Some ==> has_origin(
                    origin,
                    h,
                ),
        decreases rest.len(),
    {
        let ghost before = rest@;
        let outcome: Option<HostData> = rest.pop().unwrap();
        let at: usize = rest.len();
        proof {
            assert(before.drop_last() =~= rest@);
            assert(counted.take(at as int) =~= rest@);
            assert(outcome == counted[at as int]);
            assert(counted[at as int] == all[at as int]);
        }
        match outcome {
            Some(probed) => {
                let report: HostData = process_host(&config.hosts[at], &config.locations, probed);
                let ghost earlier = reports@;
                let p: usize = insert_by_location(&mut reports, report);
                proof {
                    lemma_insert_ordered(earlier, origin, p as int, report, at as int);
                    earlier.insert_ensures(p as int, report);
                    origin.insert_ensures(p as int, at as int);
                    let later = origin.insert(p as int, at as int);
                    assert forall|i: int| 0 <= i < reports@.len() implies {
                        &&& at <= #[trigger] later[i] < counted.len()
                        &&& all[later[i]] is Some
                        &&& is_report_of(
                            reports@[i],
                            config@.hosts[later[i]],
                            config@.locations,
                            all[later[i]]->0,
                        )
                    } by {
                        if i < p {
                            assert(later[i] == origin[i]);
                            assert(reports@[i] == earlier[i]);
                        } else if i > p {
                            assert(later[(i - 1) + 1] == origin[i - 1]);
                            assert(reports@[(i - 1) + 1] == earlier[i - 1]);
                        } else {
                            assert(config@.hosts[at as int] == config.hosts@[at as int]@);
                        }
                    }
                    assert forall|h: int|
                        at <= h < counted.len() && (#[trigger] all[h]) is Some implies has_origin(
                        later,
                        h,
                    ) by {
                        if h == at {
                            assert(later[p as int] == h);
                        } else {
                            assert(has_origin(origin, h));
                            let i = choose|i: int| 0 <= i < origin.len() && #[trigger] origin[i] == h;
                            if i < p {
                                assert(later[i] == h);
                            } else {
                                assert(later[i + 1] == h);
                            }
                        }
                    }
                    origin = later;
                }
            },
            None => {},
        }
    }
    proof {
        assert(is_snapshot_of(reports@, origin, config@.hosts, config@.locations, all));
    }
    Data { hosts: reports, update_time: now }
}

/// Makes the snapshot of a refresh that ends now, by the time of day.
pub fn fetch_data(config: &Config, outcomes: Vec<Option<HostData>>) -> (data: Data)
    ensures
        snapshot_of(data.hosts@, config@.hosts, config@.locations, outcomes@),
{
    let now: i64 = wall_clock_seconds();
    assemble(config, outcomes, now)
}

/// Looking a host up twice gives the same location twice: where a host
/// is depends on the address it reports, the blocks and its configuration,
/// and on nothing else. So it is with a report that has its location
/// already: looking it up again changes nothing.
pub proof fn lemma_location_is_repeatable(
    host: HostModel,
    locations: Seq<LocationModel>,
    probed: HostData,
    first: HostData,
    second: HostData,
    again: HostData,
)
    requires
        is_report_of(first, host, locations, probed),
        is_report_of(second, host, locations, probed),
        is_report_of(again, host, locations, first),
    ensures
        crate::config::text(first.location) == crate::config::text(second.location),
        crate::config::text(again.location) == crate::config::text(first.location),
{
}

/// The location of an address is the name of the first block that holds
/// it, and there is none exactly when no block holds it.
pub proof fn lemma_location_is_first_match(ip: Seq<u8>, locations: Seq<LocationModel>)
    ensures
        match location_of(ip, locations) {
            Some(name) => exists|i: int|
                {
                    &&& 0 <= i < locations.len()
                    &&& block_matches(encode_utf8(#[trigger] locations[i].ips), ip)
                    &&& name == locations[i].name
                    &&& forall|j: int|
                        0 <= j < i ==> !block_matches(encode_utf8(#[trigger] locations[j].ips), ip)
                },
            None => forall|i: int|
                0 <= i < locations.len() ==> !block_matches(
                    encode_utf8(#[trigger] locations[i].ips),
                    ip,
                ),
        },
    decreases locations.len(),
{
    if locations.len() > 0 && !block_matches(encode_utf8(locations[0].ips), ip) {
        let rest = locations.skip(1);
        lemma_location_is_first_match(ip, rest);
        match location_of(ip, rest) {
            Some(name) => {
                let i = choose|i: int|
                    {
                        &&& 0 <= i < rest.len()
                        &&& block_matches(encode_utf8(#[trigger] rest[i].ips), ip)
                        &&& name == rest[i].name
                        &&& forall|j: int|
                            0 <= j < i ==> !block_matches(encode_utf8(#[trigger] rest[j].ips), ip)
                    };
                assert(locations[i + 1] == rest[i]);
                assert forall|j: int| 0 <= j < i + 1 implies !block_matches(
                    encode_utf8(#[trigger] locations[j].ips),
                    ip,
                ) by {
                    if j > 0 {
                        assert(locations[j] == rest[j - 1]);
                    }
                }
            },
            None => {
                assert forall|i: int| 0 <= i < locations.len() implies !block_matches(
                    encode_utf8(#[trigger] locations[i].ips),
                    ip,
                ) by {
                    if i > 0 {
                        assert(locations[i] == rest[i - 1]);
                    }
                }
            },
        }
    } else if locations.len() > 0 {
        assert(block_matches(encode_utf8(locations[0].ips), ip));
    }
}

/// A refresh makes a snapshot of as many reports as hosts answered, and
/// the report of a host holds exactly the disks that its probe found and
/// the host does not ignore.
pub proof fn lemma_snapshot_holds_who_answered(
    reports: Seq<HostData>,
    origin: Seq<int>,
    hosts: Seq<HostModel>,
    locations: Seq<LocationModel>,
    outcomes: Seq<Option<HostData>>,
)
    requires
        is_snapshot_of(reports, origin, hosts, locations, outcomes),
    ensures
        reports.len() == answered(paired(hosts, outcomes)),
        reports.len() <= outcomes.len(),
        forall|i: int, d: int|
            0 <= i < reports.len() && 0 <= d < reports[i].disks@.len() ==> !is_ignored(
                #[trigger] reports[i].disks@[d],
                hosts[origin[i]].ignored_disks,
            ),
        forall|i: int, d: int|
            0 <= i < reports.len() && 0 <= d < (outcomes[origin[i]]->0).disks@.len() && !is_ignored(
                (outcomes[origin[i]]->0).disks@[d],
                hosts[origin[i]].ignored_disks,
            ) ==> reports[i].disks@.contains(#[trigger] (outcomes[origin[i]]->0).disks@[d]),
{
    lemma_answered_bound(paired(hosts, outcomes));
    assert forall|i: int, d: int|
        0 <= i < reports.len() && 0 <= d < reports[i].disks@.len() implies !is_ignored(
        #[trigger] reports[i].disks@[d],
        hosts[origin[i]].ignored_disks,
    ) by {
        let probed = outcomes[origin[i]]->0;
        let keep = reported(hosts[origin[i]].ignored_disks);
        assert(is_report_of(reports[i], hosts[origin[i]], locations, probed));
        probed.disks@.lemma_filter_pred(keep, d);
        assert(keep(reports[i].disks@[d]));
    }
    assert forall|i: int, d: int|
        0 <= i < reports.len() && 0 <= d < (outcomes[origin[i]]->0).disks@.len() && !is_ignored(
            (outcomes[origin[i]]->0).disks@[d],
            hosts[origin[i]].ignored_disks,
        ) implies reports[i].disks@.contains(#[trigger] (outcomes[origin[i]]->0).disks@[d]) by {
        let probed = outcomes[origin[i]]->0;
        let keep = reported(hosts[origin[i]].ignored_disks);
        assert(is_report_of(reports[i], hosts[origin[i]], locations, probed));
        assert(keep(probed.disks@[d]));
        probed.disks@.lemma_filter_contains(keep, d);
    }
}

/// The bytes by which the report of the host `h` is ordered: those of the
/// location that the host resolves to, none where it resolves to nothing.
pub open spec fn host_key(
    hosts: Seq<HostModel>,
    locations: Seq<LocationModel>,
    outcomes: Seq<Option<HostData>>,
    h: int,
) -> Seq<u8> {
    match resolved_location(hosts[h], locations, (outcomes[h]->0).network) {
        Some(name) => encode_utf8(name),
        None => Seq::empty(),
    }
}

proof fn lemma_same_origin_at(
    r1: Seq<HostData>,
    o1: Seq<int>,
    r2: Seq<HostData>,
    o2: Seq<int>,
    hosts: Seq<HostModel>,
    locations: Seq<LocationModel>,
    outcomes: Seq<Option<HostData>>,
    i: int,
)
    requires
        is_snapshot_of(r1, o1, hosts, locations, outcomes),
        is_snapshot_of(r2, o2, hosts, locations, outcomes),
        0 <= i < o1.len(),
    ensures
        o1[i] == o2[i],
    decreases i,
{
    assert forall|m: int| 0 <= m < i implies o1[m] == o2[m] by {
        lemma_same_origin_at(r1, o1, r2, o2, hosts, locations, outcomes, m);
    }
    let a = o1[i];
    let b = o2[i];
    if a != b {
        assert(outcomes[a] is Some);
        assert(has_origin(o2, a));
        let j = choose|j: int| 0 <= j < o2.len() && #[trigger] o2[j] == a;
        if j < i {
            assert(o1[j] == o2[j]);
            assert(o1[j] != o1[i]);
        }
        assert(j > i);
        assert(outcomes[b] is Some);
        assert(has_origin(o1, b));
        let k = choose|k: int| 0 <= k < o1.len() && #[trigger] o1[k] == b;
        if k < i {
            assert(o1[k] == o2[k]);
            assert(o2[k] != o2[i]);
        }
        assert(k > i);
        let key_a = host_key(hosts, locations, outcomes, a);
        let key_b = host_key(hosts, locations, outcomes, b);
        assert(location_key(r1[i]) == key_a);
        assert(location_key(r1[k]) == key_b);
        assert(location_key(r2[i]) == key_b);
        assert(location_key(r2[j]) == key_a);
        assert(lex_le(location_key(r1[i]), location_key(r1[k])));
        assert(lex_le(location_key(r2[i]), location_key(r2[j])));
        lemma_lex_antisymmetric(key_a, key_b);
        assert(o1[i] < o1[k]);
        assert(o2[i] < o2[j]);
        assert(false);
    }
}

/// Of given outcomes there is one snapshot: which host each report is
/// of is settled by the outcomes and the configuration, and two snapshots
/// of the same outcomes hold, place by place, reports of the same host
/// with the same location and the same disks.
pub proof fn lemma_snapshot_is_unique(
    r1: Seq<HostData>,
    o1: Seq<int>,
    r2: Seq<HostData>,
    o2: Seq<int>,
    hosts: Seq<HostModel>,
    locations: Seq<LocationModel>,
    outcomes: Seq<Option<HostData>>,
)
    requires
        is_snapshot_of(r1, o1, hosts, locations, outcomes),
        is_snapshot_of(r2, o2, hosts, locations, outcomes),
    ensures
        o1 == o2,
        r1.len() == r2.len(),
        forall|i: int|
            0 <= i < r1.len() ==> {
                &&& crate::config::text((#[trigger] r1[i]).location) == crate::config::text(
                    r2[i].location,
                )
                &&& r1[i].disks@ == r2[i].disks@
                &&& r1[i] == (HostData { location: r1[i].location, disks: r1[i].disks, ..r2[i] })
            },
{
    assert forall|i: int| 0 <= i < o1.len() implies o1[i] == o2[i] by {
        lemma_same_origin_at(r1, o1, r2, o2, hosts, locations, outcomes, i);
    }
    assert(o1 =~= o2);
    assert forall|i: int| 0 <= i < r1.len() implies {
        &&& crate::config::text((#[trigger] r1[i]).location) == crate::config::text(r2[i].location)
        &&& r1[i].disks@ == r2[i].disks@
        &&& r1[i] == (HostData { location: r1[i].location, disks: r1[i].disks, ..r2[i] })
    } by {
        assert(is_report_of(r1[i], hosts[o1[i]], locations, outcomes[o1[i]]->0));
        assert(is_report_of(r2[i], hosts[o2[i]], locations, outcomes[o2[i]]->0));
    }
}

proof fn lemma_answered_without(outcomes: Seq<Option<HostData>>, h: int)
    requires
        0 <= h < outcomes.len(),
        outcomes[h] is Some,
    ensures
        answered(outcomes.update(h, None)) + 1 == answered(outcomes),
    decreases outcomes.len(),
{
    let without = outcomes.update(h, None);
    if h == outcomes.len() - 1 {
        assert(without.drop_last() =~= outcomes.drop_last());
    } else {
        assert(without.drop_last() =~= outcomes.drop_last().update(h, None));
        lemma_answered_without(outcomes.drop_last(), h);
    }
}

/// Where one host that answered had not, its report would be missing from
/// the snapshot and nothing else would differ: the other reports stay, in
/// their order.
pub proof fn lemma_silent_host_is_left_out(
    reports: Seq<HostData>,
    origin: Seq<int>,
    hosts: Seq<HostModel>,
    locations: Seq<LocationModel>,
    outcomes: Seq<Option<HostData>>,
    p: int,
)
    requires
        is_snapshot_of(reports, origin, hosts, locations, outcomes),
        0 <= p < reports.len(),
    ensures
        is_snapshot_of(
            reports.remove(p),
            origin.remove(p),
            hosts,
            locations,
            outcomes.update(origin[p], None),
        ),
{
    let h = origin[p];
    let without = outcomes.update(h, None);
    let r2 = reports.remove(p);
    let o2 = origin.remove(p);
    reports.remove_ensures(p);
    origin.remove_ensures(p);
    assert(paired(hosts, without) =~= paired(hosts, outcomes).update(h, None));
    assert(paired(hosts, outcomes)[h] == outcomes[h]);
    lemma_answered_without(paired(hosts, outcomes), h);
    assert forall|i: int| 0 <= i < r2.len() implies (if i < p {
        r2[i] == reports[i] && o2[i] == origin[i]
    } else {
        r2[i] == reports[i + 1] && o2[i] == origin[i + 1]
    }) by {}
    assert forall|i: int, j: int| 0 <= i < j < o2.len() implies #[trigger] o2[i] != #[trigger] o2[j] by {
        let a = if i < p { i } else { i + 1 };
        let b = if j < p { j } else { j + 1 };
        assert(origin[a] != origin[b]);
    }
    assert forall|i: int, j: int| 0 <= i < j < r2.len() implies lex_le(
        location_key(#[trigger] r2[i]),
        location_key(#[trigger] r2[j]),
    ) by {
        let a = if i < p { i } else { i + 1 };
        let b = if j < p { j } else { j + 1 };
        assert(lex_le(location_key(reports[a]), location_key(reports[b])));
    }
    assert forall|i: int, j: int|
        0 <= i < j < r2.len() && location_key(#[trigger] r2[i]) == location_key(
            #[trigger] r2[j],
        ) implies o2[i] < o2[j] by {
        let a = if i < p { i } else { i + 1 };
        let b = if j < p { j } else { j + 1 };
        assert(location_key(reports[a]) == location_key(reports[b]));
        assert(origin[a] < origin[b]);
    }
    assert forall|i: int| 0 <= i < r2.len() implies {
        &&& 0 <= #[trigger] o2[i] < paired(hosts, without).len()
        &&& without[o2[i]] is Some
        &&& is_report_of(r2[i], hosts[o2[i]], locations, without[o2[i]]->0)
    } by {
        let a = if i < p { i } else { i + 1 };
        assert(o2[i] == origin[a]);
        if a < p {
            assert(origin[a] != origin[p]);
        } else {
            assert(origin[p] != origin[a]);
        }
        assert(is_report_of(reports[a], hosts[origin[a]], locations, outcomes[origin[a]]->0));
    }
    assert forall|g: int|
        0 <= g < paired(hosts, without).len() && (#[trigger] without[g]) is Some implies has_origin(
        o2,
        g,
    ) by {
        assert(g != h);
        assert(outcomes[g] is Some);
        assert(has_origin(origin, g));
        let i = choose|i: int| 0 <= i < origin.len() && #[trigger] origin[i] == g;
        if i < p {
            assert(o2[i] == g);
        } else {
            assert(o2[i - 1] == g);
        }
    }
}

proof fn lemma_answered_bound(outcomes: Seq<Option<HostData>>)
    ensures
        answered(outcomes) <= outcomes.len(),
    decreases outcomes.len(),
{
    if outcomes.len() > 0 {
        lemma_answered_bound(outcomes.drop_last());
    }
}

} // verus!
