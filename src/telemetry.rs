//! Decisions of the logging layer: which sinks are attached, at which
//! severity, and which components may emit.

use vstd::prelude::*;
use vstd::string::*;

verus! {

/// Where log output goes.
#[derive(Clone, Copy, Debug, PartialEq, Eq, Structural)]
pub enum DestinationMode {
    Interactive,
    ManagedService,
}

/// Severity thresholds, from the most restrictive to the least.
#[derive(Clone, Copy, Debug, PartialEq, Eq, Structural)]
pub enum Severity {
    Error,
    Warn,
    Info,
    Debug,
    Trace,
}

/// Position of a severity in the order Error < Warn < Info < Debug < Trace.
pub open spec fn rank(s: Severity) -> nat {
    match s {
        Severity::Error => 0,
        Severity::Warn => 1,
        Severity::Info => 2,
        Severity::Debug => 3,
        Severity::Trace => 4,
    }
}

/// The threshold selected by a verbosity count: one step per repetition,
/// saturating at `Trace`.
pub open spec fn threshold_of(verbosity: int) -> Severity {
    if verbosity <= 0 {
        Severity::Error
    } else if verbosity == 1 {
        Severity::Warn
    } else if verbosity == 2 {
        Severity::Info
    } else if verbosity == 3 {
        Severity::Debug
    } else {
        Severity::Trace
    }
}

pub fn rank_of(s: Severity) -> (r: u8)
    ensures
        r as nat == rank(s),
{
    match s {
        Severity::Error => 0,
        Severity::Warn => 1,
        Severity::Info => 2,
        Severity::Debug => 3,
        Severity::Trace => 4,
    }
}

/// Maps the verbosity count to the severity threshold of this application's
/// own components.
pub fn severity_for_verbosity(verbosity: u8) -> (r: Severity)
    ensures
        r == threshold_of(verbosity as int),
        rank(r) == if verbosity < 4 { verbosity as nat } else { 4 },
{
    match verbosity {
        0 => Severity::Error,
        1 => Severity::Warn,
        2 => Severity::Info,
        3 => Severity::Debug,
        _ => Severity::Trace,
    }
}

/// The more verbose the count, the less restrictive the threshold.
pub proof fn lemma_verbosity_monotonic(a: u8, b: u8)
    requires
        a <= b,
    ensures
        rank(threshold_of(a as int)) <= rank(threshold_of(b as int)),
{
}

pub open spec fn is_y(c: char) -> bool {
    c == 'y' || c == 'Y'
}

pub open spec fn is_e(c: char) -> bool {
    c == 'e' || c == 'E'
}

pub open spec fn is_s(c: char) -> bool {
    c == 's' || c == 'S'
}

/// `y` or `yes`, in any mix of upper and lower case.
pub open spec fn truthy(s: Seq<char>) -> bool {
    ||| s.len() == 1 && is_y(s[0])
    ||| s.len() == 3 && is_y(s[0]) && is_e(s[1]) && is_s(s[2])
}

/// Reads a boolean-like environment value.
pub fn is_truthy_signal(value: &str) -> (r: bool)
    ensures
        r == truthy(value@),
{
    let n = value.unicode_len();
    if n == 1 {
        let c = value.get_char(0);
        c == 'y' || c == 'Y'
    } else if n == 3 {
        let c0 = value.get_char(0);
        let c1 = value.get_char(1);
        let c2 = value.get_char(2);
        (c0 == 'y' || c0 == 'Y') && (c1 == 'e' || c1 == 'E') && (c2 == 's' || c2 == 'S')
    } else {
        false
    }
}

pub open spec fn mode_of(service_flag: bool, signal: Option<Seq<char>>) -> DestinationMode {
    if service_flag {
        DestinationMode::ManagedService
    } else {
        match signal {
            Some(s) => if truthy(s) {
                DestinationMode::ManagedService
            } else {
                DestinationMode::Interactive
            },
            None => DestinationMode::Interactive,
        }
    }
}

/// Chooses the destination: the explicit flag wins, then the environment
/// signal, then `Interactive`.
pub fn resolve_mode(service_flag: bool, signal: Option<&str>) -> (r: DestinationMode)
    ensures
        r == mode_of(
            service_flag,
            match signal {
                Some(s) => Some(s@),
                None => None,
            },
        ),
{
    if service_flag {
        DestinationMode::ManagedService
    } else {
        match signal {
            Some(s) => if is_truthy_signal(s) {
                DestinationMode::ManagedService
            } else {
                DestinationMode::Interactive
            },
            None => DestinationMode::Interactive,
        }
    }
}

/// The sinks and filters that one configuration installs.
#[derive(Clone, Copy, Debug, PartialEq, Eq, Structural)]
pub struct SinkPlan {
    /// A system-journal sink is attached.
    pub journal: bool,
    /// A plain-text console sink is attached.
    pub console: bool,
    /// The console sink uses colour and markup.
    pub console_markup: bool,
    /// The console sink tags each line with its source location.
    pub console_source_tags: bool,
    /// The failure to attach the journal is reported through the console.
    pub report_journal_failure: bool,
    /// Threshold of this application's own components.
    pub own_level: Severity,
    /// Threshold of every other component.
    pub foreign_level: Severity,
}

pub open spec fn plan_of(enable_journald: bool, verbosity: int, journal_attached: bool) -> SinkPlan {
    let journal = enable_journald && journal_attached;
    SinkPlan {
        journal,
        console: !journal,
        console_markup: false,
        console_source_tags: false,
        report_journal_failure: enable_journald && !journal_attached,
        own_level: threshold_of(verbosity),
        foreign_level: Severity::Error,
    }
}

/// Decides the logging setup. `enable_journald` asks for the system journal
/// (managed-service mode); `journal_attached` tells whether attaching it
/// succeeded. Without the journal the console sink is used, so startup never
/// fails here.
pub fn configure_tracing(enable_journald: bool, verbose_level: u8, journal_attached: bool) -> (r:
    SinkPlan)
    ensures
        r == plan_of(enable_journald, verbose_level as int, journal_attached),
        r.journal || r.console,
{
    let journal = enable_journald && journal_attached;
    SinkPlan {
        journal,
        console: !journal,
        console_markup: false,
        console_source_tags: false,
        report_journal_failure: enable_journald && !journal_attached,
        own_level: severity_for_verbosity(verbose_level),
        foreign_level: Severity::Error,
    }
}

/// Managed-service mode without a journal still writes to the console, and
/// reports why the journal is missing.
pub proof fn lemma_journal_fallback(verbosity: int)
    ensures
        plan_of(true, verbosity, false).console,
        !plan_of(true, verbosity, false).journal,
        plan_of(true, verbosity, false).report_journal_failure,
{
}

/// Names of this application's own components, as log targets.
pub open spec fn own_components() -> Seq<Seq<char>> {
    seq!["finance_data_harvester"@, "data_harvest"@]
}

/// `target` starts with `component`.
pub open spec fn within(target: Seq<char>, component: Seq<char>) -> bool {
    target.len() >= component.len() && target.subrange(0, component.len() as int) == component
}

/// `target` is `component` or one of its submodules (`component::...`).
pub open spec fn in_component(target: Seq<char>, component: Seq<char>) -> bool {
    ||| target == component
    ||| within(target, component) && target.len() >= component.len() + 2 && target[component.len() as int]
        == ':' && target[component.len() + 1int] == ':'
}

pub open spec fn is_own(target: Seq<char>) -> bool {
    exists|i: int|
        0 <= i < own_components().len() && in_component(target, #[trigger] own_components()[i])
}

/// Whether a log target starts with a component's name.
pub fn target_within(target: &str, component: &str) -> (r: bool)
    ensures
        r == within(target@, component@),
{
    let n = target.unicode_len();
    let m = component.unicode_len();
    if n < m {
        return false;
    }
    let mut i: usize = 0;
    while i < m
        invariant
            m <= n,
            n == target@.len(),
            m == component@.len(),
            i <= m,
            forall|j: int| 0 <= j < i ==> target@[j] == component@[j],
        decreases m - i,
    {
        if target.get_char(i) != component.get_char(i) {
            assert(target@.subrange(0, m as int)[i as int] != component@[i as int]);
            return false;
        }
        i = i + 1;
    }
    assert(target@.subrange(0, m as int) =~= component@);
    true
}

/// Whether a log target is a component or one of its submodules.
pub fn target_in_component(target: &str, component: &str) -> (r: bool)
    ensures
        r == in_component(target@, component@),
{
    if !target_within(target, component) {
        assert(target@.subrange(0, target@.len() as int) =~= target@);
        return false;
    }
    let n = target.unicode_len();
    let m = component.unicode_len();
    if n == m {
        assert(target@ =~= target@.subrange(0, m as int));
        true
    } else if n - m >= 2 {
        target.get_char(m) == ':' && target.get_char(m + 1) == ':'
    } else {
        false
    }
}

/// Whether a log target belongs to this application.
pub fn is_own_target(target: &str) -> (r: bool)
    ensures
        r == is_own(target@),
{
    let a = target_in_component(target, "finance_data_harvester");
    let b = target_in_component(target, "data_harvest");
    if a {
        assert(in_component(target@, own_components()[0]));
    }
    if b {
        assert(in_component(target@, own_components()[1]));
    }
    a || b
}

pub open spec fn threshold_for(plan: SinkPlan, target: Seq<char>) -> Severity {
    if is_own(target) {
        plan.own_level
    } else {
        plan.foreign_level
    }
}

/// Whether an event of severity `level` from `target` passes the filters of
/// `plan`.
pub fn permits(plan: &SinkPlan, target: &str, level: Severity) -> (r: bool)
    ensures
        r == (rank(level) <= rank(threshold_for(*plan, target@))),
{
    let limit = if is_own_target(target) {
        plan.own_level
    } else {
        plan.foreign_level
    };
    rank_of(level) <= rank_of(limit)
}

/// Other components never emit below error level, whatever the verbosity.
pub proof fn lemma_foreign_error_only(
    enable_journald: bool,
    verbosity: int,
    journal_attached: bool,
    target: Seq<char>,
    level: Severity,
)
    requires
        !is_own(target),
    ensures
        rank(level) <= rank(threshold_for(plan_of(enable_journald, verbosity, journal_attached), target))
            <==> level == Severity::Error,
{
}

/// The process-wide logging setup, configured at most once.
pub struct Telemetry {
    plan: Option<SinkPlan>,
}

impl Telemetry {
    pub closed spec fn plan(&self) -> Option<SinkPlan> {
        self.plan
    }

    /// A setup that has not been configured yet.
    pub fn new() -> (r: Telemetry)
        ensures
            r.plan() is None,
    {
        Telemetry { plan: None }
    }

    /// Configures once: the first call installs the plan for `mode` and
    /// returns it, any later call changes nothing and returns `None`.
    pub fn configure(&mut self, mode: DestinationMode, verbose_level: u8, journal_attached: bool) -> (r: Option<SinkPlan>)
        ensures
            old(self).plan() is None ==> r == Some(
                plan_of(mode == DestinationMode::ManagedService, verbose_level as int, journal_attached),
            ) && final(self).plan() == r,
            old(self).plan() is Some ==> r is None && final(self).plan() == old(self).plan(),
    {
        match self.plan {
            Some(_) => None,
            None => {
                let managed = match mode {
                    DestinationMode::ManagedService => true,
                    DestinationMode::Interactive => false,
                };
                let p = configure_tracing(managed, verbose_level, journal_attached);
                self.plan = Some(p);
                Some(p)
            },
        }
    }

    /// The installed plan, if any.
    pub fn current(&self) -> (r: Option<SinkPlan>)
        ensures
            r == self.plan(),
    {
        self.plan
    }
}

} // verus!
