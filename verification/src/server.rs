//! The state of the server, and what each of its operations does to it.
//!
//! The state is one value. Whoever shares it between threads puts it
//! behind a lock that lets many read or one write, and holds that lock for
//! the length of one call, never while a host is being reached: a refresh
//! takes a copy of the configuration, has the hosts probed, and comes back
//! with what they answered.

use crate::alert::{
    after_hosts, alert_models, evaluate, Alert, AlertKey, AlertLog, AlertModel, AlertState,
};
use crate::clock::{monotonic_now, nanoseconds_since};
use crate::config::{
    add_host, bare_host, edit_host, first_with_address, has_address, host_known, Config,
    ConfigError, ConfigModel, HostConfig, DEFAULT_REFRESH_DELAY,
};
use crate::data::{Data, HostData};
use crate::fetch::{assemble, fetch_data, snapshot_of};
use vstd::prelude::*;

verus! {

/// The configuration, the latest snapshot, the log of alerts and whether
/// the periodic refresh goes on.
pub struct Server {
    config: Config,
    data: Data,
    running: bool,
    warnings_sent: AlertLog,
    started: std::time::Instant,
}

/// What a refresh does to the snapshot and to the log of alerts, and
/// which alerts it sends, when it ends at `wall` by the time of day and at
/// `clock` nanoseconds after the server started. The configuration `conf` is
/// the one that the hosts were probed under.
pub open spec fn is_refresh(
    before: Data,
    log_before: Map<AlertKey, u128>,
    conf: Config,
    outcomes: Seq<Option<HostData>>,
    wall: i64,
    clock: u128,
    after: Data,
    log_after: Map<AlertKey, u128>,
    sent: Seq<AlertModel>,
) -> bool {
    &&& snapshot_of(after.hosts@, conf@.hosts, conf@.locations, outcomes)
    &&& after.update_time == if wall >= before.update_time {
        wall
    } else {
        before.update_time
    }
    &&& (AlertState { log: log_after, sent: sent }) == if conf.slack is Some {
        after_hosts(AlertState { log: log_before, sent: Seq::empty() }, after.hosts@, clock)
    } else {
        AlertState { log: log_before, sent: Seq::empty() }
    }
}

/// Whether `outcome` is what `update` can make of a copy of the
/// configuration `before`.
pub open spec fn is_outcome_of<E, F: FnOnce(Config) -> Result<Config, E>>(
    update: F,
    before: Config,
    outcome: Result<Config, E>,
) -> bool {
    exists|copy: Config| copy@ == before@ && #[trigger] update.ensures((copy,), outcome)
}

impl Server {
    /// The configuration in force.
    pub closed spec fn conf(&self) -> Config {
        self.config
    }

    /// The snapshot that readers see.
    pub closed spec fn snapshot(&self) -> Data {
        self.data
    }

    /// Whether the periodic refresh goes on.
    pub closed spec fn running(&self) -> bool {
        self.running
    }

    /// When the last alert went out, for each disk that ever had one.
    pub closed spec fn alert_log(&self) -> Map<AlertKey, u128> {
        self.warnings_sent@
    }

    /// A server with the configuration `config`, before its first refresh:
    /// it runs, its snapshot holds no host, and no alert has gone out.
    pub fn new(config: Config) -> (server: Self)
        ensures
            server.conf() == config,
            server.snapshot().hosts@ == Seq::<HostData>::empty(),
            server.snapshot().update_time == 0,
            server.running(),
            server.alert_log() == Map::<AlertKey, u128>::empty(),
    {
        Server {
            config,
            data: Data::default(),
            running: true,
            warnings_sent: AlertLog::new(),
            started: monotonic_now(),
        }
    }

    /// The seconds to wait between two refreshes.
    pub fn refresh_delay(&self) -> (secs: u64)
        ensures
            secs == match self.conf().refresh_delay {
                Some(d) => d,
                None => DEFAULT_REFRESH_DELAY,
            },
    {
        self.config.refresh_delay()
    }

    /// Changes the configuration by `update`, which is given a copy of it
    /// and hands back the configuration to put in its place. Where `update`
    /// fails, its error is handed on and the configuration stays exactly
    /// as it was. Nothing but the configuration changes.
    pub fn with_conf<E, F>(&mut self, update: F) -> (res: Result<(), E>) where
        F: FnOnce(Config) -> Result<Config, E>,

        requires
            forall|copy: Config| copy@ == old(self).conf()@ ==> update.requires((copy,)),
        ensures
            match res {
                Ok(_) => is_outcome_of(update, old(self).conf(), Ok(final(self).conf())),
                Err(e) => {
                    &&& final(self).conf() == old(self).conf()
                    &&& is_outcome_of(update, old(self).conf(), Err(e))
                },
            },
            final(self).snapshot() == old(self).snapshot(),
            final(self).running() == old(self).running(),
            final(self).alert_log() == old(self).alert_log(),
    {
        let copy: Config = self.config.clone();
        let ghost given = copy;
        match update(copy) {
            Ok(changed) => {
                self.config = changed;
                assert(update.ensures((given,), Ok::<Config, E>(self.conf())));
                Ok(())
            },
            Err(e) => {
                assert(update.ensures((given,), Err::<Config, E>(e)));
                Err(e)
            },
        }
    }

    /// Adds a host that is known by its name alone, or refuses and leaves
    /// the configuration exactly as it was: see `add_host`.
    pub fn add_host(&mut self, name: &str) -> (res: Result<(), ConfigError>)
        ensures
            match res {
                Ok(_) => {
                    &&& !host_known(old(self).conf()@.hosts, name@)
                    &&& final(self).conf()@ == (ConfigModel {
                        hosts: old(self).conf()@.hosts.push(bare_host(name@)),
                        ..old(self).conf()@
                    })
                },
                Err(e) => {
                    &&& host_known(old(self).conf()@.hosts, name@)
                    &&& e matches ConfigError::HostExists(n) && n@ == name@
                    &&& final(self).conf() == old(self).conf()
                },
            },
            final(self).snapshot() == old(self).snapshot(),
            final(self).running() == old(self).running(),
            final(self).alert_log() == old(self).alert_log(),
    {
        let update = |copy: Config| -> (r: Result<Config, ConfigError>)
            ensures
                match r {
                    Ok(changed) => {
                        &&& !host_known(copy@.hosts, name@)
                        &&& changed@ == (ConfigModel {
                            hosts: copy@.hosts.push(bare_host(name@)),
                            ..copy@
                        })
                    },
                    Err(e) => {
                        &&& host_known(copy@.hosts, name@)
                        &&& e matches ConfigError::HostExists(n) && n@ == name@
                    },
                },
            {
                let mut changed = copy;
                match add_host(&mut changed, name) {
                    Ok(_) => Ok(changed),
                    Err(e) => Err(e),
                }
            };
        self.with_conf(update)
    }

    /// Replaces, whole, the first host that has the address `address`, or
    /// refuses and leaves the configuration exactly as it was: see
    /// `edit_host`.
    pub fn edit_host(&mut self, address: &str, replacement: HostConfig) -> (res: Result<
        (),
        ConfigError,
    >)
        ensures
            match res {
                Ok(_) => exists|i: int|
                    {
                        &&& #[trigger] first_with_address(old(self).conf()@.hosts, address@, i)
                        &&& final(self).conf()@ == (ConfigModel {
                            hosts: old(self).conf()@.hosts.update(i, replacement@),
                            ..old(self).conf()@
                        })
                    },
                Err(e) => {
                    &&& e is HostNotFound
                    &&& !has_address(old(self).conf()@.hosts, address@)
                    &&& final(self).conf() == old(self).conf()
                },
            },
            final(self).snapshot() == old(self).snapshot(),
            final(self).running() == old(self).running(),
            final(self).alert_log() == old(self).alert_log(),
    {
        let update = |copy: Config| -> (r: Result<Config, ConfigError>)
            ensures
                match r {
                    Ok(changed) => exists|i: int|
                        {
                            &&& #[trigger] first_with_address(copy@.hosts, address@, i)
                            &&& changed@ == (ConfigModel {
                                hosts: copy@.hosts.update(i, replacement@),
                                ..copy@
                            })
                        },
                    Err(e) => e is HostNotFound && !has_address(copy@.hosts, address@),
                },
            {
                let mut changed = copy;
                match edit_host(&mut changed, address, replacement) {
                    Ok(_) => Ok(changed),
                    Err(e) => Err(e),
                }
            };
        self.with_conf(update)
    }

    /// A copy of the configuration.
    pub fn current_conf(&self) -> (copy: Config)
        ensures
            copy@ == self.conf()@,
    {
        self.config.clone()
    }

    /// The latest snapshot.
    pub fn latest_data(&self) -> (data: &Data)
        ensures
            *data == self.snapshot(),
    {
        &self.data
    }

    /// Whether the periodic refresh goes on.
    pub fn is_running(&self) -> (yes: bool)
        ensures
            yes == self.running(),
    {
        self.running
    }

    /// Ends the periodic refresh. Nothing else changes, and nothing
    /// starts it again.
    pub fn stop(&mut self)
        ensures
            !final(self).running(),
            final(self).conf() == old(self).conf(),
            final(self).snapshot() == old(self).snapshot(),
            final(self).alert_log() == old(self).alert_log(),
    {
        self.running = false;
    }

    /// Puts the snapshot `fresh` in the place of the one before, its time
    /// put forward to that of the one before where it lies behind, and
    /// finds the alerts that are to go out at `clock`.
    fn publish(&mut self, conf: &Config, fresh: Data, clock: u128) -> (alerts: Vec<Alert>)
        ensures
            final(self).snapshot().hosts == fresh.hosts,
            final(self).snapshot().update_time == if fresh.update_time >= old(
                self,
            ).snapshot().update_time {
                fresh.update_time
            } else {
                old(self).snapshot().update_time
            },
            (AlertState { log: final(self).alert_log(), sent: alert_models(alerts@) }) == if conf.slack is Some {
                after_hosts(
                    AlertState { log: old(self).alert_log(), sent: Seq::empty() },
                    fresh.hosts@,
                    clock,
                )
            } else {
                AlertState { log: old(self).alert_log(), sent: Seq::empty() }
            },
            final(self).conf() == old(self).conf(),
            final(self).running() == old(self).running(),
    {
        let mut fresh = fresh;
        if fresh.update_time < self.data.update_time {
            fresh.update_time = self.data.update_time;
        }
        let alerts: Vec<Alert> = if conf.slack.is_some() {
            evaluate(&fresh, &mut self.warnings_sent, clock)
        } else {
            let none: Vec<Alert> = Vec::new();
            assert(alert_models(none@) =~= Seq::<AlertModel>::empty());
            none
        };
        self.data = fresh;
        alerts
    }

    /// Ends a refresh at given readings of the two clocks: `wall` seconds
    /// since the Unix epoch, `clock` nanoseconds since the server started.
    /// `conf` is the copy of the configuration that the hosts were probed
    /// under, and `outcomes` what each of them answered, in its order.
    /// The new snapshot takes the place of the old one, and the alerts that
    /// are to go out are returned, already recorded as sent.
    pub fn refresh_at(
        &mut self,
        conf: &Config,
        outcomes: Vec<Option<HostData>>,
        wall: i64,
        clock: u128,
    ) -> (alerts: Vec<Alert>)
        ensures
            is_refresh(
                old(self).snapshot(),
                old(self).alert_log(),
                *conf,
                outcomes@,
                wall,
                clock,
                final(self).snapshot(),
                final(self).alert_log(),
                alert_models(alerts@),
            ),
            final(self).conf() == old(self).conf(),
            final(self).running() == old(self).running(),
    {
        let fresh: Data = assemble(conf, outcomes, wall);
        self.publish(conf, fresh, clock)
    }

    /// Ends a refresh now: as `refresh_at`, at what the two clocks show.
    pub fn refresh(&mut self, conf: &Config, outcomes: Vec<Option<HostData>>) -> (alerts: Vec<Alert>)
        ensures
            exists|wall: i64, clock: u128|
                is_refresh(
                    old(self).snapshot(),
                    old(self).alert_log(),
                    *conf,
                    outcomes@,
                    wall,
                    clock,
                    final(self).snapshot(),
                    final(self).alert_log(),
                    #[trigger] alert_models(alerts@),
                ),
            final(self).conf() == old(self).conf(),
            final(self).running() == old(self).running(),
    {
        let fresh: Data = fetch_data(conf, outcomes);
        let clock: u128 = nanoseconds_since(&self.started);
        let ghost wall = fresh.update_time;
        let alerts = self.publish(conf, fresh, clock);
        assert(is_refresh(
            old(self).snapshot(),
            old(self).alert_log(),
            *conf,
            outcomes@,
            wall,
            clock,
            self.snapshot(),
            self.alert_log(),
            alert_models(alerts@),
        ));
        alerts
    }
}

/// The time of the snapshot never goes back: a refresh leaves it where it
/// was or puts it forward.
pub proof fn lemma_update_time_never_goes_back(
    before: Data,
    log_before: Map<AlertKey, u128>,
    conf: Config,
    outcomes: Seq<Option<HostData>>,
    wall: i64,
    clock: u128,
    after: Data,
    log_after: Map<AlertKey, u128>,
    sent: Seq<AlertModel>,
)
    requires
        is_refresh(before, log_before, conf, outcomes, wall, clock, after, log_after, sent),
    ensures
        after.update_time >= before.update_time,
        after.update_time >= wall,
        after.update_time == wall || after.update_time == before.update_time,
{
}

/// A refresh removes no entry from the log of alerts, and sends nothing
/// where no receiver is configured.
pub proof fn lemma_refresh_keeps_the_log(
    before: Data,
    log_before: Map<AlertKey, u128>,
    conf: Config,
    outcomes: Seq<Option<HostData>>,
    wall: i64,
    clock: u128,
    after: Data,
    log_after: Map<AlertKey, u128>,
    sent: Seq<AlertModel>,
)
    requires
        is_refresh(before, log_before, conf, outcomes, wall, clock, after, log_after, sent),
    ensures
        log_before.dom().subset_of(log_after.dom()),
        conf.slack is None ==> log_after == log_before && sent.len() == 0,
{
    crate::alert::lemma_log_only_grows(
        AlertState { log: log_before, sent: Seq::empty() },
        after.hosts@,
        clock,
    );
}

/// Where the task that refreshes periodically stands.
#[derive(Debug, Clone, Copy, PartialEq, Eq, Structural)]
pub enum Phase {
    /// Nothing was done yet.
    Created,
    /// The probe was pushed to the hosts.
    Prepared,
    /// A refresh has ended.
    Refreshed,
    /// The wait between two refreshes has ended.
    Slept,
    /// The task has ended.
    Stopped,
}

/// What the task that refreshes periodically is to do next.
#[derive(Debug, Clone, Copy, PartialEq, Eq, Structural)]
pub enum Action {
    /// Push the probe to every host.
    PushProbes,
    /// Probe the hosts and end a refresh.
    Refresh,
    /// Wait for that many seconds.
    Sleep(u64),
    /// End.
    Exit,
}

/// One step of the task: the probe is pushed once, then the hosts are
/// refreshed at once, and then again after every wait. Whether the server
/// still runs is looked at after a refresh and nowhere else, so that
/// a refresh follows every wait that was begun.
pub open spec fn step(phase: Phase, running: bool, delay: u64) -> (Phase, Action) {
    match phase {
        Phase::Created => (Phase::Prepared, Action::PushProbes),
        Phase::Prepared => (Phase::Refreshed, Action::Refresh),
        Phase::Refreshed => if running {
            (Phase::Slept, Action::Sleep(delay))
        } else {
            (Phase::Stopped, Action::Exit)
        },
        Phase::Slept => (Phase::Refreshed, Action::Refresh),
        Phase::Stopped => (Phase::Stopped, Action::Exit),
    }
}

/// The phase after a run of steps, `running[i]` being what the step `i`
/// saw of the server.
pub open spec fn phase_after(phase: Phase, running: Seq<bool>, delay: u64) -> Phase
    decreases running.len(),
{
    if running.len() == 0 {
        phase
    } else {
        step(phase_after(phase, running.drop_last(), delay), running.last(), delay).0
    }
}

/// The task that refreshes periodically, as the one who decides: it is
/// asked what to do next, and told nothing but whether the server runs.
#[derive(Debug)]
pub struct Scheduler {
    phase: Phase,
}

impl Scheduler {
    /// Where the task stands.
    pub closed spec fn phase(&self) -> Phase {
        self.phase
    }

    /// The task before its first step.
    pub fn new() -> (s: Self)
        ensures
            s.phase() == Phase::Created,
    {
        Scheduler { phase: Phase::Created }
    }

    /// What to do next, `running` being whether the server still runs and
    /// `delay` the seconds between two refreshes.
    pub fn next(&mut self, running: bool, delay: u64) -> (action: Action)
        ensures
            (final(self).phase(), action) == step(old(self).phase(), running, delay),
    {
        let (phase, action) = match self.phase {
            Phase::Created => (Phase::Prepared, Action::PushProbes),
            Phase::Prepared => (Phase::Refreshed, Action::Refresh),
            Phase::Refreshed => if running {
                (Phase::Slept, Action::Sleep(delay))
            } else {
                (Phase::Stopped, Action::Exit)
            },
            Phase::Slept => (Phase::Refreshed, Action::Refresh),
            Phase::Stopped => (Phase::Stopped, Action::Exit),
        };
        self.phase = phase;
        action
    }

    /// Whether the task has ended.
    pub fn is_stopped(&self) -> (yes: bool)
        ensures
            yes == (self.phase() == Phase::Stopped),
    {
        match self.phase {
            Phase::Stopped => true,
            _ => false,
        }
    }
}

/// A task that has ended stays ended, whatever it is told.
pub proof fn lemma_stopped_for_good(running: Seq<bool>, delay: u64)
    ensures
        phase_after(Phase::Stopped, running, delay) == Phase::Stopped,
    decreases running.len(),
{
    if running.len() > 0 {
        lemma_stopped_for_good(running.drop_last(), delay);
    }
}

/// The task ends only where a refresh has just ended and the server no
/// longer runs; a wait that was begun is followed by a refresh.
pub proof fn lemma_stops_only_after_refresh(phase: Phase, running: bool, delay: u64)
    ensures
        step(phase, running, delay).1 == Action::Exit <==> (phase == Phase::Stopped || (phase
            == Phase::Refreshed && !running)),
        phase == Phase::Slept ==> step(phase, running, delay).1 == Action::Refresh,
        step(phase, running, delay).1 is Sleep ==> step(phase, running, delay).1 == Action::Sleep(
            delay,
        ) && running,
{
}

} // verus!
