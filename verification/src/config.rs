//! The configuration of a fleet: its hosts, their credentials, the named
//! networks they live in, and the two changes that can be made to the list
//! of hosts while the server runs.

use vstd::prelude::*;
use vstd::string::*;

verus! {

/// The refresh interval, in seconds, of a configuration that names none.
pub const DEFAULT_REFRESH_DELAY: u64 = 30;

/// The HTTP port of a configuration that names none.
pub const DEFAULT_HTTP_PORT: u16 = 8080;

/// The characters of an optional string.
pub open spec fn text(o: Option<String>) -> Option<Seq<char>> {
    match o {
        Some(s) => Some(s@),
        None => None,
    }
}

/// The characters of each string of a list.
pub open spec fn texts(v: Seq<String>) -> Seq<Seq<char>> {
    v.map_values(|s: String| s@)
}

/// The characters of each string of an optional list.
pub open spec fn optional_texts(o: Option<Vec<String>>) -> Option<Seq<Seq<char>>> {
    match o {
        Some(v) => Some(texts(v@)),
        None => None,
    }
}

/// A credential: a login with a password, a key pair, or neither.
#[derive(Debug, Default)]
pub struct AuthConfig {
    pub login: String,
    pub keypair: Option<String>,
    pub password: Option<String>,
}

/// A credential, in characters.
pub struct AuthModel {
    pub login: Seq<char>,
    pub keypair: Option<Seq<char>>,
    pub password: Option<Seq<char>>,
}

impl View for AuthConfig {
    type V = AuthModel;

    open spec fn view(&self) -> AuthModel {
        AuthModel {
            login: self.login@,
            keypair: text(self.keypair),
            password: text(self.password),
        }
    }
}

/// An optional credential, in characters.
pub open spec fn optional_auth(o: Option<AuthConfig>) -> Option<AuthModel> {
    match o {
        Some(a) => Some(a@),
        None => None,
    }
}

/// A named IPv4 block. A host whose address lies in it is at that location.
#[derive(Debug, Default)]
pub struct LocationConfig {
    pub name: String,
    pub ips: String,
}

/// A named block, in characters.
pub struct LocationModel {
    pub name: Seq<char>,
    pub ips: Seq<char>,
}

impl View for LocationConfig {
    type V = LocationModel;

    open spec fn view(&self) -> LocationModel {
        LocationModel { name: self.name@, ips: self.ips@ }
    }
}

/// How the dashboard is served.
#[derive(Debug, Clone, Copy, PartialEq, Eq, Structural, Default)]
pub struct HttpConfig {
    pub port: u16,
}

/// Where alerts are delivered.
#[derive(Debug, Default)]
pub struct SlackConfig {
    pub hook: String,
    pub channel: String,
}

/// Where alerts are delivered, in characters.
pub struct SlackModel {
    pub hook: Seq<char>,
    pub channel: Seq<char>,
}

impl View for SlackConfig {
    type V = SlackModel;

    open spec fn view(&self) -> SlackModel {
        SlackModel { hook: self.hook@, channel: self.channel@ }
    }
}

/// Where alerts are delivered, if anywhere, in characters.
pub open spec fn optional_slack(o: Option<SlackConfig>) -> Option<SlackModel> {
    match o {
        Some(s) => Some(s@),
        None => None,
    }
}

/// One host of the fleet.
#[derive(Debug)]
pub struct HostConfig {
    pub name: String,
    pub address: String,
    /// The network interface whose traffic the probe reports.
    pub iface: String,
    /// Devices and mount points that are left out of the host's report.
    pub ignored_disks: Option<Vec<String>>,
    pub auth: Option<AuthConfig>,
    /// The location to fall back on when the host's address is in no block.
    pub location: Option<String>,
}

/// One host of the fleet, in characters.
pub struct HostModel {
    pub name: Seq<char>,
    pub address: Seq<char>,
    pub iface: Seq<char>,
    pub ignored_disks: Option<Seq<Seq<char>>>,
    pub auth: Option<AuthModel>,
    pub location: Option<Seq<char>>,
}

impl View for HostConfig {
    type V = HostModel;

    open spec fn view(&self) -> HostModel {
        HostModel {
            name: self.name@,
            address: self.address@,
            iface: self.iface@,
            ignored_disks: optional_texts(self.ignored_disks),
            auth: optional_auth(self.auth),
            location: text(self.location),
        }
    }
}

/// The configuration of the server and its fleet.
#[derive(Debug)]
pub struct Config {
    pub http: Option<HttpConfig>,
    pub locations: Vec<LocationConfig>,
    /// The credential of every host that has none of its own.
    pub default: Option<AuthConfig>,
    pub hosts: Vec<HostConfig>,
    /// Seconds between two refreshes.
    pub refresh_delay: Option<u64>,
    pub slack: Option<SlackConfig>,
}

/// The configuration, in characters and numbers.
pub struct ConfigModel {
    pub http: Option<HttpConfig>,
    pub locations: Seq<LocationModel>,
    pub default: Option<AuthModel>,
    pub hosts: Seq<HostModel>,
    pub refresh_delay: Option<u64>,
    pub slack: Option<SlackModel>,
}

/// The blocks of a list, each in characters.
pub open spec fn location_models(v: Seq<LocationConfig>) -> Seq<LocationModel> {
    v.map_values(|l: LocationConfig| l@)
}

/// The hosts of a list, each in characters.
pub open spec fn host_models(v: Seq<HostConfig>) -> Seq<HostModel> {
    v.map_values(|h: HostConfig| h@)
}

impl View for Config {
    type V = ConfigModel;

    open spec fn view(&self) -> ConfigModel {
        ConfigModel {
            http: self.http,
            locations: location_models(self.locations@),
            default: optional_auth(self.default),
            hosts: host_models(self.hosts@),
            refresh_delay: self.refresh_delay,
            slack: optional_slack(self.slack),
        }
    }
}

fn clone_text(o: &Option<String>) -> (r: Option<String>)
    ensures
        r == *o,
{
    match o {
        Some(s) => Some(s.clone()),
        None => None,
    }
}

fn clone_texts(v: &Vec<String>) -> (r: Vec<String>)
    ensures
        r@ == v@,
{
    let mut r: Vec<String> = Vec::new();
    let mut i: usize = 0;
    while i < v.len()
        invariant
            i <= v.len(),
            r@ == v@.take(i as int),
        decreases v.len() - i,
    {
        r.push(v[i].clone());
        assert(v@.take(i + 1) =~= v@.take(i as int).push(v@[i as int]));
        i = i + 1;
    }
    assert(v@.take(v.len() as int) =~= v@);
    r
}

impl Clone for AuthConfig {
    fn clone(&self) -> (r: Self)
        ensures
            r == *self,
    {
        AuthConfig {
            login: self.login.clone(),
            keypair: clone_text(&self.keypair),
            password: clone_text(&self.password),
        }
    }
}

impl Clone for LocationConfig {
    fn clone(&self) -> (r: Self)
        ensures
            r == *self,
    {
        LocationConfig { name: self.name.clone(), ips: self.ips.clone() }
    }
}

impl Clone for SlackConfig {
    fn clone(&self) -> (r: Self)
        ensures
            r == *self,
    {
        SlackConfig { hook: self.hook.clone(), channel: self.channel.clone() }
    }
}

impl Clone for HostConfig {
    fn clone(&self) -> (r: Self)
        ensures
            r@ == self@,
    {
        let ignored_disks: Option<Vec<String>> = match &self.ignored_disks {
            Some(v) => Some(clone_texts(v)),
            None => None,
        };
        let auth: Option<AuthConfig> = match &self.auth {
            Some(a) => Some(a.clone()),
            None => None,
        };
        HostConfig {
            name: self.name.clone(),
            address: self.address.clone(),
            iface: self.iface.clone(),
            ignored_disks,
            auth,
            location: clone_text(&self.location),
        }
    }
}

impl Clone for Config {
    fn clone(&self) -> (r: Self)
        ensures
            r@ == self@,
    {
        let mut locations: Vec<LocationConfig> = Vec::new();
        let mut i: usize = 0;
        while i < self.locations.len()
            invariant
                i <= self.locations.len(),
                locations@ == self.locations@.take(i as int),
            decreases self.locations.len() - i,
        {
            locations.push(self.locations[i].clone());
            assert(self.locations@.take(i + 1) =~= self.locations@.take(i as int).push(
                self.locations@[i as int],
            ));
            i = i + 1;
        }
        assert(self.locations@.take(self.locations.len() as int) =~= self.locations@);
        let mut hosts: Vec<HostConfig> = Vec::new();
        let mut j: usize = 0;
        while j < self.hosts.len()
            invariant
                j <= self.hosts.len(),
                hosts@.len() == j,
                forall|k: int| 0 <= k < j ==> (#[trigger] hosts@[k])@ == self.hosts@[k]@,
            decreases self.hosts.len() - j,
        {
            hosts.push(self.hosts[j].clone());
            j = j + 1;
        }
        assert(host_models(hosts@) =~= host_models(self.hosts@));
        let default: Option<AuthConfig> = match &self.default {
            Some(a) => Some(a.clone()),
            None => None,
        };
        let slack: Option<SlackConfig> = match &self.slack {
            Some(s) => Some(s.clone()),
            None => None,
        };
        Config {
            http: self.http,
            locations,
            default,
            hosts,
            refresh_delay: self.refresh_delay,
            slack,
        }
    }
}

impl Default for HostConfig {
    fn default() -> (r: Self)
        ensures
            r@ == (HostModel {
                name: Seq::empty(),
                address: Seq::empty(),
                iface: Seq::empty(),
                ignored_disks: None,
                auth: None,
                location: None,
            }),
    {
        HostConfig {
            name: String::new(),
            address: String::new(),
            iface: String::new(),
            ignored_disks: None,
            auth: None,
            location: None,
        }
    }
}

impl Default for Config {
    fn default() -> (r: Self)
        ensures
            r@ == (ConfigModel {
                http: None,
                locations: Seq::empty(),
                default: None,
                hosts: Seq::empty(),
                refresh_delay: None,
                slack: None,
            }),
    {
        let r = Config {
            http: None,
            locations: Vec::new(),
            default: None,
            hosts: Vec::new(),
            refresh_delay: None,
            slack: None,
        };
        assert(location_models(r.locations@) =~= Seq::empty());
        assert(host_models(r.hosts@) =~= Seq::empty());
        r
    }
}

impl Config {
    /// The seconds to wait between two refreshes.
    pub fn refresh_delay(&self) -> (secs: u64)
        ensures
            secs == match self.refresh_delay {
                Some(d) => d,
                None => DEFAULT_REFRESH_DELAY,
            },
    {
        match self.refresh_delay {
            Some(d) => d,
            None => DEFAULT_REFRESH_DELAY,
        }
    }

    /// The port the dashboard is served on.
    pub fn http_port(&self) -> (port: u16)
        ensures
            port == match self.http {
                Some(h) => h.port,
                None => DEFAULT_HTTP_PORT,
            },
    {
        match self.http {
            Some(h) => h.port,
            None => DEFAULT_HTTP_PORT,
        }
    }
}

/// Why a change to the list of hosts was refused.
#[derive(Debug)]
pub enum ConfigError {
    /// A host with that name or address is configured already.
    HostExists(String),
    /// No host has that address.
    HostNotFound,
}

impl ConfigError {
    /// What the error says, to the one who asked for the change.
    pub open spec fn message_text(self) -> Seq<char> {
        match self {
            ConfigError::HostExists(name) => "Host "@ + name@ + " already exists"@,
            ConfigError::HostNotFound => "Host not found"@,
        }
    }

    /// What the error says.
    pub fn message(&self) -> (m: String)
        ensures
            m@ == self.message_text(),
    {
        match self {
            ConfigError::HostExists(name) => {
                let mut m: String = "Host ".to_owned();
                m.append(name.as_str());
                m.append(" already exists");
                m
            },
            ConfigError::HostNotFound => "Host not found".to_owned(),
        }
    }
}

/// Whether one of `hosts` goes by `name`, as its name or as its address.
pub open spec fn host_known(hosts: Seq<HostModel>, name: Seq<char>) -> bool {
    exists|i: int|
        0 <= i < hosts.len() && ((#[trigger] hosts[i]).address == name || hosts[i].name == name)
}

/// Whether one of `hosts` has the address `address`.
pub open spec fn has_address(hosts: Seq<HostModel>, address: Seq<char>) -> bool {
    exists|i: int| 0 <= i < hosts.len() && (#[trigger] hosts[i]).address == address
}

/// Whether `i` is the first of `hosts` with the address `address`.
pub open spec fn first_with_address(hosts: Seq<HostModel>, address: Seq<char>, i: int) -> bool {
    &&& 0 <= i < hosts.len()
    &&& hosts[i].address == address
    &&& forall|j: int| 0 <= j < i ==> (#[trigger] hosts[j]).address != address
}

/// The host that a bare name stands for: the name is also its address, it
/// is probed on the interface `em1`, and nothing else is set.
pub open spec fn bare_host(name: Seq<char>) -> HostModel {
    HostModel {
        name: name,
        address: name,
        iface: "em1"@,
        ignored_disks: None,
        auth: None,
        location: None,
    }
}

/// Adds a host that is known by its name alone. A name that is the name or
/// the address of a configured host is refused, and the configuration stays
/// as it was.
pub fn add_host(conf: &mut Config, name: &str) -> (res: Result<(), ConfigError>)
    ensures
        match res {
            Ok(_) => {
                &&& !host_known(old(conf)@.hosts, name@)
                &&& final(conf)@ == (ConfigModel {
                    hosts: old(conf)@.hosts.push(bare_host(name@)),
                    ..old(conf)@
                })
            },
            Err(e) => {
                &&& host_known(old(conf)@.hosts, name@)
                &&& e matches ConfigError::HostExists(n) && n@ == name@
                &&& *final(conf) == *old(conf)
            },
        },
{
    let wanted: String = name.to_owned();
    let mut i: usize = 0;
    while i < conf.hosts.len()
        invariant
            i <= conf.hosts.len(),
            *conf == *old(conf),
            wanted@ == name@,
            forall|j: int|
                0 <= j < i ==> (#[trigger] conf@.hosts[j]).address != name@ && conf@.hosts[j].name
                    != name@,
        decreases conf.hosts.len() - i,
    {
        assert(conf@.hosts[i as int] == conf.hosts@[i as int]@);
        if conf.hosts[i].address == wanted || conf.hosts[i].name == wanted {
            return Err(ConfigError::HostExists(wanted));
        }
        i = i + 1;
    }
    let host = HostConfig {
        name: name.to_owned(),
        address: name.to_owned(),
        iface: "em1".to_owned(),
        ignored_disks: None,
        auth: None,
        location: None,
    };
    conf.hosts.push(host);
    assert(host_models(conf.hosts@) =~= host_models(old(conf).hosts@).push(bare_host(name@)));
    Ok(())
}

/// The place of the first host that has the address `address`.
pub fn find_host(conf: &Config, address: &str) -> (at: Option<usize>)
    ensures
        match at {
            Some(i) => first_with_address(conf@.hosts, address@, i as int),
            None => !has_address(conf@.hosts, address@),
        },
{
    let wanted: String = address.to_owned();
    let mut i: usize = 0;
    while i < conf.hosts.len()
        invariant
            i <= conf.hosts.len(),
            wanted@ == address@,
            forall|j: int| 0 <= j < i ==> (#[trigger] conf@.hosts[j]).address != address@,
        decreases conf.hosts.len() - i,
    {
        assert(conf@.hosts[i as int] == conf.hosts@[i as int]@);
        if conf.hosts[i].address == wanted {
            return Some(i);
        }
        i = i + 1;
    }
    None
}

/// Replaces, whole, the first host that has the address `address`. Without
/// such a host the change is refused, and the configuration stays as it
/// was.
pub fn edit_host(conf: &mut Config, address: &str, replacement: HostConfig) -> (res: Result<
    (),
    ConfigError,
>)
    ensures
        match res {
            Ok(_) => exists|i: int|
                {
                    &&& #[trigger] first_with_address(old(conf)@.hosts, address@, i)
                    &&& final(conf).hosts@ == old(conf).hosts@.update(i, replacement)
                    &&& *final(conf) == (Config { hosts: final(conf).hosts, ..*old(conf) })
                    &&& final(conf)@ == (ConfigModel {
                        hosts: old(conf)@.hosts.update(i, replacement@),
                        ..old(conf)@
                    })
                },
            Err(e) => {
                &&& e is HostNotFound
                &&& !has_address(old(conf)@.hosts, address@)
                &&& *final(conf) == *old(conf)
            },
        },
{
    match find_host(conf, address) {
        Some(i) => {
            conf.hosts.set(i, replacement);
            assert(host_models(conf.hosts@) =~= host_models(old(conf).hosts@).update(
                i as int,
                replacement@,
            ));
            assert(first_with_address(old(conf)@.hosts, address@, i as int));
            Ok(())
        },
        None => Err(ConfigError::HostNotFound),
    }
}

} // verus!
