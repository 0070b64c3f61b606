//! Decisions of the bench viewer: per-run summaries of the integer
//! columns, the severity of each check, the overall verdict, and the
//! consistency checks of a publisher/subscriber pair of runs.

use vstd::prelude::*;

use crate::config::opt_text;
use crate::history::{lemma_seq_max_bound, seq_max};
use crate::latency::{lemma_seq_sum_nonneg, lemma_seq_sum_take_step, seq_sum};

verus! {

/// Which side of a bench run a CSV comes from.
#[derive(PartialEq, Eq, Structural, Clone, Copy, Debug)]
pub enum BenchKind {
    Pub,
    Sub,
}

/// Outcome of one check, ordered `Good < Warn < Bad`.
#[derive(PartialEq, Eq, Structural, Clone, Copy, Debug)]
pub enum Severity {
    Good,
    Warn,
    Bad,
}

pub open spec fn severity_rank(s: Severity) -> int {
    match s {
        Severity::Good => 0,
        Severity::Warn => 1,
        Severity::Bad => 2,
    }
}

/// The more severe of two severities.
pub open spec fn worse(a: Severity, b: Severity) -> Severity {
    if severity_rank(b) > severity_rank(a) {
        b
    } else {
        a
    }
}

/// One explained check of a verdict.
pub struct VerdictCheck {
    pub label: String,
    pub severity: Severity,
    pub value: String,
    pub explain: String,
}

impl Clone for VerdictCheck {
    fn clone(&self) -> (r: Self)
        ensures
            r == *self,
    {
        VerdictCheck {
            label: self.label.clone(),
            severity: self.severity,
            value: self.value.clone(),
            explain: self.explain.clone(),
        }
    }
}

/// A headline severity with the checks it summarizes.
pub struct BenchVerdict {
    pub severity: Severity,
    pub headline: String,
    pub checks: Vec<VerdictCheck>,
}

/// Worst severity among `checks` (`Good` when there is none).
pub open spec fn worst_of(checks: Seq<VerdictCheck>) -> Severity
    decreases checks.len(),
{
    if checks.len() == 0 {
        Severity::Good
    } else {
        worse(worst_of(checks.drop_last()), checks.last().severity)
    }
}

/// The verdict is as bad as its worst check, and every check is at most
/// as bad as the verdict.
pub proof fn lemma_worst_bounds(checks: Seq<VerdictCheck>, i: int)
    requires
        0 <= i < checks.len(),
    ensures
        severity_rank(checks[i].severity) <= severity_rank(worst_of(checks)),
    decreases checks.len(),
{
    if i < checks.len() - 1 {
        lemma_worst_bounds(checks.drop_last(), i);
    }
}

/// The worst severity is the severity of one of the checks (or `Good`).
pub proof fn lemma_worst_attained(checks: Seq<VerdictCheck>)
    ensures
        worst_of(checks) == Severity::Good || exists|i: int|
            0 <= i < checks.len() && #[trigger] checks[i].severity == worst_of(checks),
    decreases checks.len(),
{
    if checks.len() > 0 {
        lemma_worst_attained(checks.drop_last());
        let w = worst_of(checks.drop_last());
        if worst_of(checks) != Severity::Good && worst_of(checks) == w {
            let i = choose|i: int|
                0 <= i < checks.drop_last().len() && #[trigger] checks.drop_last()[i].severity == w;
            assert(checks[i] == checks.drop_last()[i]);
        } else if worst_of(checks) != Severity::Good {
            assert(checks[checks.len() - 1].severity == worst_of(checks));
        }
    }
}

pub fn worst_severity(checks: &Vec<VerdictCheck>) -> (r: Severity)
    ensures
        r == worst_of(checks@),
{
    let mut w = Severity::Good;
    let mut i: usize = 0;
    while i < checks.len()
        invariant
            i <= checks@.len(),
            w == worst_of(checks@.take(i as int)),
        decreases checks@.len() - i,
    {
        proof {
            assert(checks@.take(i + 1).drop_last() =~= checks@.take(i as int));
        }
        let s = checks[i].severity;
        w = match (w, s) {
            (Severity::Good, _) => s,
            (Severity::Warn, Severity::Bad) => Severity::Bad,
            _ => w,
        };
        i = i + 1;
    }
    proof {
        assert(checks@.take(checks@.len() as int) =~= checks@);
    }
    w
}

/// Headline of a single-run verdict.
pub open spec fn run_headline_text(s: Severity) -> Seq<char> {
    match s {
        Severity::Good => "Run sain"@,
        Severity::Warn => "Run avec quelques alertes"@,
        Severity::Bad => "Probl\u{e8}mes d\u{e9}tect\u{e9}s"@,
    }
}

/// Headline of a publisher/subscriber pair verdict.
pub open spec fn pair_headline_text(s: Severity) -> Seq<char> {
    match s {
        Severity::Good => "Pub et sub coh\u{e9}rents"@,
        Severity::Warn => "Coh\u{e9}rents avec quelques alertes"@,
        Severity::Bad => "Incoh\u{e9}rences d\u{e9}tect\u{e9}es"@,
    }
}

/// Which headline family a verdict uses.
#[derive(PartialEq, Eq, Structural, Clone, Copy)]
pub enum VerdictScope {
    SingleRun,
    Pair,
}

pub open spec fn headline_text(scope: VerdictScope, s: Severity) -> Seq<char> {
    match scope {
        VerdictScope::SingleRun => run_headline_text(s),
        VerdictScope::Pair => pair_headline_text(s),
    }
}

fn headline(scope: VerdictScope, s: Severity) -> (r: String)
    ensures
        r@ == headline_text(scope, s),
{
    match scope {
        VerdictScope::SingleRun => match s {
            Severity::Good => String::from_str("Run sain"),
            Severity::Warn => String::from_str("Run avec quelques alertes"),
            Severity::Bad => String::from_str("Probl\u{e8}mes d\u{e9}tect\u{e9}s"),
        },
        VerdictScope::Pair => match s {
            Severity::Good => String::from_str("Pub et sub coh\u{e9}rents"),
            Severity::Warn => String::from_str("Coh\u{e9}rents avec quelques alertes"),
            Severity::Bad => String::from_str("Incoh\u{e9}rences d\u{e9}tect\u{e9}es"),
        },
    }
}

/// Verdict of a list of checks: its severity is the worst check's, and
/// the headline follows from it.
pub fn verdict_from_checks(checks: Vec<VerdictCheck>, scope: VerdictScope) -> (v: BenchVerdict)
    ensures
        v.checks@ == checks@,
        v.severity == worst_of(checks@),
        v.headline@ == headline_text(scope, worst_of(checks@)),
{
    let severity = worst_severity(&checks);
    let headline = headline(scope, severity);
    BenchVerdict { severity, headline, checks }
}

/// `checks` with `prefix` put in front of every label.
pub fn prefixed_checks(checks: &Vec<VerdictCheck>, prefix: &str) -> (r: Vec<VerdictCheck>)
    ensures
        r@.len() == checks@.len(),
        forall|i: int|
            0 <= i < checks@.len() ==> #[trigger] r@[i] == (VerdictCheck {
                label: r@[i].label,
                ..checks@[i]
            }) && r@[i].label@ == prefix@ + checks@[i].label@,
{
    let mut out: Vec<VerdictCheck> = Vec::new();
    let mut i: usize = 0;
    while i < checks.len()
        invariant
            i <= checks@.len(),
            out@.len() == i,
            forall|k: int|
                0 <= k < i ==> #[trigger] out@[k] == (VerdictCheck { label: out@[k].label, ..checks@[k] })
                    && out@[k].label@ == prefix@ + checks@[k].label@,
        decreases checks@.len() - i,
    {
        let c = &checks[i];
        let label = String::from_str(prefix).concat(c.label.as_str());
        out.push(
            VerdictCheck {
                label,
                severity: c.severity,
                value: c.value.clone(),
                explain: c.explain.clone(),
            },
        );
        i = i + 1;
    }
    out
}

/// Loss severity of a subscriber run: no loss is `Good`, less than one
/// lost sample per thousand expected is `Warn`, more is `Bad`.
pub open spec fn loss_severity_of(total_lost: u64, total_samples: u64) -> Severity {
    if total_lost == 0 {
        Severity::Good
    } else if 1000 * total_lost < total_samples + total_lost {
        Severity::Warn
    } else {
        Severity::Bad
    }
}

pub fn loss_severity(total_lost: u64, total_samples: u64) -> (r: Severity)
    requires
        total_samples + total_lost <= u64::MAX,
    ensures
        r == loss_severity_of(total_lost, total_samples),
{
    let denom = total_samples + total_lost;
    if total_lost == 0 {
        Severity::Good
    } else if (total_lost as u128) * 1000 < denom as u128 {
        Severity::Warn
    } else {
        Severity::Bad
    }
}

/// p99 latency severity: under 2 ms `Good`, under 10 ms `Warn`, else `Bad`.
pub open spec fn p99_severity_of(p99_us: u64) -> Severity {
    if p99_us < 2_000 {
        Severity::Good
    } else if p99_us < 10_000 {
        Severity::Warn
    } else {
        Severity::Bad
    }
}

pub fn p99_severity(p99_us: u64) -> (r: Severity)
    ensures
        r == p99_severity_of(p99_us),
{
    if p99_us < 2_000 {
        Severity::Good
    } else if p99_us < 10_000 {
        Severity::Warn
    } else {
        Severity::Bad
    }
}

/// The largest latency is an outlier when it is more than five times the
/// p99 (a p99 of 0 counts as 1).
pub open spec fn is_outlier_of(p99_us: u64, max_lat_us: u64) -> bool {
    max_lat_us > 5 * (if p99_us == 0 { 1 } else { p99_us })
}

pub fn is_outlier(p99_us: u64, max_lat_us: u64) -> (r: bool)
    ensures
        r == is_outlier_of(p99_us, max_lat_us),
{
    let base: u128 = if p99_us == 0 { 1 } else { p99_us as u128 };
    (max_lat_us as u128) > 5 * base
}

/// A check of a single-run verdict, with its severity; the caller draws
/// its label, value and explanation.
#[derive(PartialEq, Eq, Structural, Clone, Copy, Debug)]
pub enum RunCheck {
    /// Counter-gap loss of a subscriber run.
    Loss(Severity),
    /// Largest per-second p99 latency.
    P99(Severity),
    /// A latency far above the p99 (always a warning).
    Outlier,
    /// Mean rate against the target rate (severity decided by the caller).
    RateVsTarget(Severity),
    /// Mean rate when there is no target (always good).
    MeanRate,
}

pub open spec fn run_check_severity(c: RunCheck) -> Severity {
    match c {
        RunCheck::Loss(s) => s,
        RunCheck::P99(s) => s,
        RunCheck::Outlier => Severity::Warn,
        RunCheck::RateVsTarget(s) => s,
        RunCheck::MeanRate => Severity::Good,
    }
}

/// The checks of a single-run verdict, in order: loss (subscriber runs,
/// which report a loss count), p99 latency (when known), an outlier
/// warning (when the largest latency is more than five times the p99),
/// then the rate: against the target with `rate` as its severity, or the
/// mean rate when there is no target (`rate` is `None`).
pub open spec fn run_checks_of(
    total_lost: Option<u64>,
    total_samples: u64,
    max_p99: Option<u64>,
    max_lat: Option<u64>,
    rate: Option<Severity>,
) -> Seq<RunCheck> {
    let a = match total_lost {
        Some(l) => seq![RunCheck::Loss(loss_severity_of(l, total_samples))],
        None => Seq::empty(),
    };
    let b = match max_p99 {
        Some(p) => a.push(RunCheck::P99(p99_severity_of(p))),
        None => a,
    };
    let c = match (max_p99, max_lat) {
        (Some(p), Some(m)) => if is_outlier_of(p, m) {
            b.push(RunCheck::Outlier)
        } else {
            b
        },
        _ => b,
    };
    match rate {
        Some(s) => c.push(RunCheck::RateVsTarget(s)),
        None => c.push(RunCheck::MeanRate),
    }
}

pub fn run_checks(
    total_lost: Option<u64>,
    total_samples: u64,
    max_p99: Option<u64>,
    max_lat: Option<u64>,
    rate: Option<Severity>,
) -> (r: Vec<RunCheck>)
    requires
        total_lost matches Some(l) ==> total_samples + l <= u64::MAX,
    ensures
        r@ == run_checks_of(total_lost, total_samples, max_p99, max_lat, rate),
{
    let mut out: Vec<RunCheck> = Vec::new();
    if let Some(l) = total_lost {
        out.push(RunCheck::Loss(loss_severity(l, total_samples)));
    }
    if let Some(p) = max_p99 {
        out.push(RunCheck::P99(p99_severity(p)));
        if let Some(m) = max_lat {
            if is_outlier(p, m) {
                out.push(RunCheck::Outlier);
            }
        }
    }
    match rate {
        Some(s) => out.push(RunCheck::RateVsTarget(s)),
        None => out.push(RunCheck::MeanRate),
    }
    proof {
        assert(out@ =~= run_checks_of(total_lost, total_samples, max_p99, max_lat, rate));
    }
    out
}

/// Label of a single-run check.
pub open spec fn run_check_label_of(c: RunCheck) -> Seq<char> {
    match c {
        RunCheck::Loss(_) => "Pertes"@,
        RunCheck::P99(_) => "Latence p99"@,
        RunCheck::Outlier => "Outlier max"@,
        RunCheck::RateVsTarget(_) => "D\u{e9}bit vs cible"@,
        RunCheck::MeanRate => "D\u{e9}bit moyen"@,
    }
}

pub fn run_check_label(c: &RunCheck) -> (r: String)
    ensures
        r@ == run_check_label_of(*c),
{
    match c {
        RunCheck::Loss(_) => String::from_str("Pertes"),
        RunCheck::P99(_) => String::from_str("Latence p99"),
        RunCheck::Outlier => String::from_str("Outlier max"),
        RunCheck::RateVsTarget(_) => String::from_str("D\u{e9}bit vs cible"),
        RunCheck::MeanRate => String::from_str("D\u{e9}bit moyen"),
    }
}

/// `c` is planned check `p` drawn with the given value and explanation.
pub open spec fn drawn_as(c: VerdictCheck, p: RunCheck, value: Seq<char>, explain: Seq<char>) -> bool {
    &&& c.label@ == run_check_label_of(p)
    &&& c.severity == run_check_severity(p)
    &&& c.value@ == value
    &&& c.explain@ == explain
}

/// The verdict of a single run: each planned check with its label and
/// severity and the caller's value and explanation for it, in plan
/// order; the verdict's severity is the worst of them and the headline
/// follows from it.
pub fn run_verdict(plan: &Vec<RunCheck>, values: &Vec<String>, explains: &Vec<String>) -> (v: BenchVerdict)
    requires
        values@.len() == plan@.len(),
        explains@.len() == plan@.len(),
    ensures
        v.checks@.len() == plan@.len(),
        forall|i: int|
            0 <= i < plan@.len() ==> drawn_as(#[trigger] v.checks@[i], plan@[i], values@[i]@, explains@[i]@),
        v.severity == worst_of(v.checks@),
        v.headline@ == headline_text(VerdictScope::SingleRun, v.severity),
{
    let mut checks: Vec<VerdictCheck> = Vec::new();
    let mut i: usize = 0;
    while i < plan.len()
        invariant
            i <= plan@.len(),
            values@.len() == plan@.len(),
            explains@.len() == plan@.len(),
            checks@.len() == i,
            forall|k: int| 0 <= k < i ==> drawn_as(#[trigger] checks@[k], plan@[k], values@[k]@, explains@[k]@),
        decreases plan@.len() - i,
    {
        let p = plan[i];
        let c = VerdictCheck {
            label: run_check_label(&p),
            severity: match p {
                RunCheck::Loss(s) => s,
                RunCheck::P99(s) => s,
                RunCheck::Outlier => Severity::Warn,
                RunCheck::RateVsTarget(s) => s,
                RunCheck::MeanRate => Severity::Good,
            },
            value: values[i].clone(),
            explain: explains[i].clone(),
        };
        checks.push(c);
        i = i + 1;
    }
    verdict_from_checks(checks, VerdictScope::SingleRun)
}

/// Shape of a run's check plan: a loss check comes first exactly when a
/// loss count is known; a p99 check exists exactly when a p99 is known; an
/// outlier warning exists exactly when both the p99 and the largest
/// latency are known and the latter is more than five times the former;
/// the last check is the rate check.
pub proof fn lemma_run_checks_shape(
    total_lost: Option<u64>,
    total_samples: u64,
    max_p99: Option<u64>,
    max_lat: Option<u64>,
    rate: Option<Severity>,
)
    ensures
        ({
            let plan = run_checks_of(total_lost, total_samples, max_p99, max_lat, rate);
            &&& plan.len() >= 1
            &&& (exists|i: int| 0 <= i < plan.len() && #[trigger] plan[i] is Loss) <==> total_lost is Some
            &&& total_lost matches Some(l) ==> plan[0] == RunCheck::Loss(loss_severity_of(l, total_samples))
            &&& (exists|i: int| 0 <= i < plan.len() && #[trigger] plan[i] is P99) <==> max_p99 is Some
            &&& (exists|i: int| 0 <= i < plan.len() && #[trigger] plan[i] is Outlier) <==> (
            max_p99 is Some && max_lat is Some && is_outlier_of(max_p99.unwrap(), max_lat.unwrap()))
            &&& plan.last() == (match rate {
                Some(s) => RunCheck::RateVsTarget(s),
                None => RunCheck::MeanRate,
            })
            &&& forall|i: int|
                0 <= i < plan.len() - 1 ==> !(#[trigger] plan[i] is RateVsTarget) && !(plan[i] is MeanRate)
        }),
{
    let plan = run_checks_of(total_lost, total_samples, max_p99, max_lat, rate);
    let n = plan.len() as int;
    if total_lost is Some {
        assert(plan[0] is Loss);
    }
    if max_p99 is Some {
        let k = if total_lost is Some { 1int } else { 0int };
        assert(plan[k] is P99);
    }
    if max_p99 is Some && max_lat is Some && is_outlier_of(max_p99.unwrap(), max_lat.unwrap()) {
        let k = (if total_lost is Some { 1int } else { 0int }) + 1;
        assert(plan[k] is Outlier);
    }
}

/// Worst severity of two lists one after the other.
pub proof fn lemma_worst_concat(a: Seq<VerdictCheck>, b: Seq<VerdictCheck>)
    ensures
        worst_of(a + b) == worse(worst_of(a), worst_of(b)),
    decreases b.len(),
{
    if b.len() == 0 {
        assert(a + b =~= a);
    } else {
        assert((a + b).drop_last() =~= a + b.drop_last());
        lemma_worst_concat(a, b.drop_last());
    }
}

/// Lists with the same severities, one for one, have the same worst.
pub proof fn lemma_worst_same_severities(a: Seq<VerdictCheck>, b: Seq<VerdictCheck>)
    requires
        a.len() == b.len(),
        forall|i: int| 0 <= i < a.len() ==> #[trigger] a[i].severity == b[i].severity,
    ensures
        worst_of(a) == worst_of(b),
    decreases a.len(),
{
    if a.len() > 0 {
        lemma_worst_same_severities(a.drop_last(), b.drop_last());
        assert(a.last().severity == b[b.len() - 1].severity);
    }
}

/// `r` is `c` with `prefix` put in front of every label.
pub open spec fn prefixed_of(r: Seq<VerdictCheck>, c: Seq<VerdictCheck>, prefix: Seq<char>) -> bool {
    &&& r.len() == c.len()
    &&& forall|i: int|
        0 <= i < c.len() ==> #[trigger] r[i] == (VerdictCheck { label: r[i].label, ..c[i] })
            && r[i].label@ == prefix + c[i].label@
}

/// The publisher's checks and the subscriber's, each label led by its
/// side's tag, then the rate alignment and count coherence checks with the
/// given texts.
pub fn pair_checks(
    pub_c: &Vec<VerdictCheck>,
    sub_c: &Vec<VerdictCheck>,
    rate_sev: Severity,
    delta_sev: Severity,
    rate_value: String,
    rate_explain: String,
    delta_value: String,
    delta_explain: String,
) -> (r: Vec<VerdictCheck>)
    ensures
        r@.len() == pub_c@.len() + sub_c@.len() + 2,
        prefixed_of(r@.take(pub_c@.len() as int), pub_c@, "[pub] "@),
        prefixed_of(
            r@.subrange(pub_c@.len() as int, (pub_c@.len() + sub_c@.len()) as int),
            sub_c@,
            "[sub] "@,
        ),
        r@[(pub_c@.len() + sub_c@.len()) as int].label@ == "[pair] Alignement d\u{e9}bit"@,
        r@[(pub_c@.len() + sub_c@.len()) as int].severity == rate_sev,
        r@[(pub_c@.len() + sub_c@.len()) as int].value == rate_value,
        r@[(pub_c@.len() + sub_c@.len()) as int].explain == rate_explain,
        r@.last().label@ == "[pair] Coh\u{e9}rence des comptes"@,
        r@.last().severity == delta_sev,
        r@.last().value == delta_value,
        r@.last().explain == delta_explain,
        worst_of(r@) == worse(worse(worse(worst_of(pub_c@), worst_of(sub_c@)), rate_sev), delta_sev),
{
    let mut out = prefixed_checks(pub_c, "[pub] ");
    let ghost a = out@;
    let mut tail = prefixed_checks(sub_c, "[sub] ");
    let ghost b = tail@;
    out.append(&mut tail);
    let rate = VerdictCheck {
        label: String::from_str("[pair] Alignement d\u{e9}bit"),
        severity: rate_sev,
        value: rate_value,
        explain: rate_explain,
    };
    let ghost rc = rate;
    out.push(rate);
    let delta = VerdictCheck {
        label: String::from_str("[pair] Coh\u{e9}rence des comptes"),
        severity: delta_sev,
        value: delta_value,
        explain: delta_explain,
    };
    let ghost dc = delta;
    out.push(delta);
    proof {
        assert(out@ =~= a + b + seq![rc, dc]);
        assert(out@.take(a.len() as int) =~= a);
        assert(out@.subrange(a.len() as int, (a.len() + b.len()) as int) =~= b);
        assert forall|i: int| 0 <= i < a.len() implies #[trigger] a[i].severity == pub_c@[i].severity by {
            assert(a[i] == (VerdictCheck { label: a[i].label, ..pub_c@[i] }));
        }
        assert forall|i: int| 0 <= i < b.len() implies #[trigger] b[i].severity == sub_c@[i].severity by {
            assert(b[i] == (VerdictCheck { label: b[i].label, ..sub_c@[i] }));
        }
        lemma_worst_same_severities(a, pub_c@);
        lemma_worst_same_severities(b, sub_c@);
        lemma_worst_concat(a, b);
        lemma_worst_concat(a + b, seq![rc, dc]);
        let t = seq![rc, dc];
        assert(t.drop_last() =~= seq![rc]);
        assert(seq![rc].drop_last() =~= Seq::<VerdictCheck>::empty());
        assert(worst_of(Seq::<VerdictCheck>::empty()) == Severity::Good);
        assert(worst_of(seq![rc]) == rate_sev);
        assert(worst_of(t) == worse(rate_sev, delta_sev));
        let w = worse(worst_of(pub_c@), worst_of(sub_c@));
        assert(worse(w, worse(rate_sev, delta_sev)) == worse(worse(w, rate_sev), delta_sev));
    }
    out
}

/// Deviation severity of the pair count delta from the expected one:
/// within half the expected size plus 100 samples is `Good`, within twice
/// the expected size plus 500 is `Warn`, beyond is `Bad`.
pub open spec fn delta_severity_of(delta: i64, expected: i64) -> Severity {
    let dev = if delta >= expected { delta - expected } else { expected - delta };
    let scale = if expected >= 0 { expected as int } else { -expected };
    if dev <= (scale + 1) / 2 + 100 {
        Severity::Good
    } else if dev <= 2 * scale + 500 {
        Severity::Warn
    } else {
        Severity::Bad
    }
}

pub fn delta_severity(delta: i64, expected: i64) -> (r: Severity)
    ensures
        r == delta_severity_of(delta, expected),
{
    let d = delta as i128;
    let e = expected as i128;
    let dev: i128 = if d >= e { d - e } else { e - d };
    let scale: i128 = if e >= 0 { e } else { -e };
    if dev <= (scale + 1) / 2 + 100 {
        Severity::Good
    } else if dev <= 2 * scale + 500 {
        Severity::Warn
    } else {
        Severity::Bad
    }
}

/// `pub_sent - sub_recv - sub_lost`, each count taken as an `i64` (a count
/// above `i64::MAX` wraps to a negative value): samples the publisher sent
/// that the subscriber never counted (negative when it counted more). The
/// two subtractions must not overflow.
pub fn pair_delta(pub_sent: u64, sub_recv: u64, sub_lost: u64) -> (r: i64)
    requires
        i64::MIN <= (pub_sent as i64) - (sub_recv as i64) <= i64::MAX,
        i64::MIN <= (pub_sent as i64) - (sub_recv as i64) - (sub_lost as i64) <= i64::MAX,
    ensures
        r == (pub_sent as i64) - (sub_recv as i64) - (sub_lost as i64),
        pub_sent <= i64::MAX && sub_recv <= i64::MAX && sub_lost <= i64::MAX ==> r == pub_sent
            - sub_recv - sub_lost,
{
    pub_sent as i64 - sub_recv as i64 - sub_lost as i64
}

/// Why two CSVs cannot be analysed as a publisher/subscriber pair.
pub enum PairKindError {
    /// The first CSV is not a publisher's (its kind is given).
    FirstNotPub(BenchKind),
    /// The second CSV is not a subscriber's (its kind is given).
    SecondNotSub(BenchKind),
}

pub open spec fn kind_text(k: BenchKind) -> Seq<char> {
    match k {
        BenchKind::Pub => "Pub"@,
        BenchKind::Sub => "Sub"@,
    }
}

pub open spec fn pair_kind_error_text(e: PairKindError) -> Seq<char> {
    match e {
        PairKindError::FirstNotPub(k) => "first argument must be a pub CSV (got kind="@ + kind_text(k)
            + ")"@,
        PairKindError::SecondNotSub(k) => "second argument must be a sub CSV (got kind="@ + kind_text(
            k,
        ) + ")"@,
    }
}

impl PairKindError {
    pub fn message(&self) -> (r: String)
        ensures
            r@ == pair_kind_error_text(*self),
    {
        let (lead, k) = match self {
            PairKindError::FirstNotPub(k) => (
                String::from_str("first argument must be a pub CSV (got kind="),
                *k,
            ),
            PairKindError::SecondNotSub(k) => (
                String::from_str("second argument must be a sub CSV (got kind="),
                *k,
            ),
        };
        let name = match k {
            BenchKind::Pub => "Pub",
            BenchKind::Sub => "Sub",
        };
        lead.concat(name).concat(")")
    }
}

/// The first CSV must be a publisher's and the second a subscriber's.
pub fn check_pair_kinds(first: BenchKind, second: BenchKind) -> (r: Result<(), PairKindError>)
    ensures
        first != BenchKind::Pub ==> r == Err::<(), PairKindError>(PairKindError::FirstNotPub(first)),
        first == BenchKind::Pub && second != BenchKind::Sub ==> r == Err::<(), PairKindError>(
            PairKindError::SecondNotSub(second),
        ),
        first == BenchKind::Pub && second == BenchKind::Sub ==> r is Ok,
{
    if first != BenchKind::Pub {
        return Err(PairKindError::FirstNotPub(first));
    }
    if second != BenchKind::Sub {
        return Err(PairKindError::SecondNotSub(second));
    }
    Ok(())
}

/// Run-configuration field that must agree between the two CSVs of a pair.
#[derive(PartialEq, Eq, Structural, Clone, Copy, Debug)]
pub enum ConfigField {
    Topic,
    Domain,
    Reliability,
}

/// The fields of a run configuration compared across a pair.
pub struct PairKey {
    pub topic: Option<String>,
    pub domain: Option<u16>,
    pub reliability: Option<String>,
}

/// Fields on which the two runs disagree, in the order topic, domain,
/// reliability.
pub open spec fn mismatches_of(p: PairKey, s: PairKey) -> Seq<ConfigField> {
    let a = if opt_text(p.topic) == opt_text(s.topic) {
        Seq::empty()
    } else {
        seq![ConfigField::Topic]
    };
    let b = if p.domain == s.domain { a } else { a.push(ConfigField::Domain) };
    if opt_text(p.reliability) == opt_text(s.reliability) {
        b
    } else {
        b.push(ConfigField::Reliability)
    }
}

fn same_opt_string(a: &Option<String>, b: &Option<String>) -> (r: bool)
    ensures
        r == (opt_text(*a) == opt_text(*b)),
{
    match (a, b) {
        (Some(x), Some(y)) => *x == *y,
        (None, None) => true,
        _ => false,
    }
}

pub fn pair_config_mismatches(p: &PairKey, s: &PairKey) -> (r: Vec<ConfigField>)
    ensures
        r@ == mismatches_of(*p, *s),
{
    let mut out: Vec<ConfigField> = Vec::new();
    if !same_opt_string(&p.topic, &s.topic) {
        out.push(ConfigField::Topic);
    }
    if p.domain != s.domain {
        out.push(ConfigField::Domain);
    }
    if !same_opt_string(&p.reliability, &s.reliability) {
        out.push(ConfigField::Reliability);
    }
    proof {
        assert(out@ =~= mismatches_of(*p, *s));
    }
    out
}

/// Name of a configuration field in messages.
pub open spec fn config_field_name(f: ConfigField) -> Seq<char> {
    match f {
        ConfigField::Topic => "topic"@,
        ConfigField::Domain => "domain"@,
        ConfigField::Reliability => "reliability"@,
    }
}

/// `name (detail)` of one differing field; the caller gives, for each
/// field, the text showing the two values.
pub open spec fn field_part(f: ConfigField, td: Seq<char>, dd: Seq<char>, rd: Seq<char>) -> Seq<char> {
    config_field_name(f) + " "@ + match f {
        ConfigField::Topic => td,
        ConfigField::Domain => dd,
        ConfigField::Reliability => rd,
    }
}

/// The parts of the differing fields, separated by `, `.
pub open spec fn joined_parts(fs: Seq<ConfigField>, td: Seq<char>, dd: Seq<char>, rd: Seq<char>) -> Seq<char>
    decreases fs.len(),
{
    if fs.len() == 0 {
        Seq::empty()
    } else if fs.len() == 1 {
        field_part(fs[0], td, dd, rd)
    } else {
        joined_parts(fs.drop_last(), td, dd, rd) + ", "@ + field_part(fs.last(), td, dd, rd)
    }
}

/// The refusal of a pair of runs whose configurations differ on `fs`.
pub open spec fn pair_mismatch_text(fs: Seq<ConfigField>, td: Seq<char>, dd: Seq<char>, rd: Seq<char>) -> Seq<char> {
    "pub/sub CSVs disagree on "@ + joined_parts(fs, td, dd, rd) + " \u{2014} probably from different runs"@
}

fn field_part_exec(f: ConfigField, td: &str, dd: &str, rd: &str) -> (r: String)
    ensures
        r@ == field_part(f, td@, dd@, rd@),
{
    let (name, d) = match f {
        ConfigField::Topic => ("topic", td),
        ConfigField::Domain => ("domain", dd),
        ConfigField::Reliability => ("reliability", rd),
    };
    String::from_str(name).concat(" ").concat(d)
}

/// Two runs can be paired only when their topic, domain and reliability
/// agree: `None` then, otherwise the refusal naming the differing fields in
/// the order topic, domain, reliability, each with the caller's text of
/// its two values (`td`, `dd`, `rd`).
pub fn pair_config_error(p: &PairKey, s: &PairKey, td: &str, dd: &str, rd: &str) -> (r: Option<String>)
    ensures
        r is None <==> mismatches_of(*p, *s).len() == 0,
        r matches Some(m) ==> m@ == pair_mismatch_text(mismatches_of(*p, *s), td@, dd@, rd@),
{
    let fs = pair_config_mismatches(p, s);
    if fs.len() == 0 {
        return None;
    }
    let mut out = String::from_str("pub/sub CSVs disagree on ");
    let ghost head = out@;
    let mut i: usize = 0;
    while i < fs.len()
        invariant
            i <= fs@.len(),
            head == "pub/sub CSVs disagree on "@,
            out@ == head + joined_parts(fs@.take(i as int), td@, dd@, rd@),
        decreases fs@.len() - i,
    {
        let part = field_part_exec(fs[i], td, dd, rd);
        proof {
            assert(fs@.take(i + 1).drop_last() =~= fs@.take(i as int));
            assert(fs@.take(i + 1).last() == fs@[i as int]);
            if i == 0 {
                assert(fs@.take(1)[0] == fs@[0]);
                assert(fs@.take(0) =~= Seq::<ConfigField>::empty());
            }
        }
        if i > 0 {
            out.append(", ");
        }
        out.append(part.as_str());
        proof {
            if i == 0 {
                assert(out@ =~= head + joined_parts(fs@.take(1), td@, dd@, rd@));
            } else {
                assert(out@ =~= head + joined_parts(fs@.take(i + 1), td@, dd@, rd@));
            }
        }
        i = i + 1;
    }
    out.append(" \u{2014} probably from different runs");
    proof {
        assert(fs@.take(fs@.len() as int) =~= fs@);
    }
    Some(out)
}

/// The integer columns of one per-second CSV row (publisher rows fill the
/// write columns, subscriber rows the receive and latency ones).
#[derive(Clone, Copy)]
pub struct RowCounters {
    pub sent: Option<u64>,
    pub errors: Option<u64>,
    pub write_avg_us: Option<u64>,
    pub write_max_us: Option<u64>,
    pub recv: Option<u64>,
    pub lost_wire: Option<u64>,
    pub lost_dds: Option<u64>,
    pub reord: Option<u64>,
    pub dup: Option<u64>,
    pub clock_skew_skipped: Option<u64>,
    pub lat_p50_us: Option<u64>,
    pub lat_p95_us: Option<u64>,
    pub lat_p99_us: Option<u64>,
    pub lat_max_us: Option<u64>,
}

/// A column summarized over a run.
#[derive(PartialEq, Eq, Structural, Clone, Copy)]
pub enum Column {
    WriteAvg,
    WriteMax,
    LatP50,
    LatP95,
    LatP99,
    LatMax,
}

pub open spec fn cell(r: RowCounters, c: Column) -> Option<u64> {
    match c {
        Column::WriteAvg => r.write_avg_us,
        Column::WriteMax => r.write_max_us,
        Column::LatP50 => r.lat_p50_us,
        Column::LatP95 => r.lat_p95_us,
        Column::LatP99 => r.lat_p99_us,
        Column::LatMax => r.lat_max_us,
    }
}

/// The values present in column `c`, in row order.
pub open spec fn present(rows: Seq<RowCounters>, c: Column) -> Seq<u64>
    decreases rows.len(),
{
    if rows.len() == 0 {
        Seq::empty()
    } else {
        let head = present(rows.drop_last(), c);
        match cell(rows.last(), c) {
            Some(v) => head.push(v),
            None => head,
        }
    }
}

/// Integer mean (rounded down), 0 for no value.
pub open spec fn mean_of(vals: Seq<u64>) -> u64 {
    if vals.len() > 0 {
        (seq_sum(vals) / (vals.len() as int)) as u64
    } else {
        0
    }
}

/// Largest value, `None` for no value.
pub open spec fn max_of(vals: Seq<u64>) -> Option<u64> {
    if vals.len() > 0 {
        Some(seq_max(vals))
    } else {
        None
    }
}

fn cell_exec(r: &RowCounters, c: Column) -> (v: Option<u64>)
    ensures
        v == cell(*r, c),
{
    match c {
        Column::WriteAvg => r.write_avg_us,
        Column::WriteMax => r.write_max_us,
        Column::LatP50 => r.lat_p50_us,
        Column::LatP95 => r.lat_p95_us,
        Column::LatP99 => r.lat_p99_us,
        Column::LatMax => r.lat_max_us,
    }
}

/// The values present in column `c`.
pub fn present_values(rows: &Vec<RowCounters>, c: Column) -> (r: Vec<u64>)
    ensures
        r@ == present(rows@, c),
{
    let mut out: Vec<u64> = Vec::new();
    let mut i: usize = 0;
    while i < rows.len()
        invariant
            i <= rows@.len(),
            out@ == present(rows@.take(i as int), c),
        decreases rows@.len() - i,
    {
        proof {
            assert(rows@.take(i + 1).drop_last() =~= rows@.take(i as int));
        }
        match cell_exec(&rows[i], c) {
            Some(v) => out.push(v),
            None => {},
        }
        i = i + 1;
    }
    proof {
        assert(rows@.take(rows@.len() as int) =~= rows@);
    }
    out
}

/// Integer mean of `vals` (0 when empty); the sum must fit in a `u64`.
pub fn mean_u64(vals: &Vec<u64>) -> (r: u64)
    requires
        seq_sum(vals@) <= u64::MAX,
    ensures
        r == mean_of(vals@),
{
    let mut sum: u64 = 0;
    let mut count: u64 = 0;
    let mut i: usize = 0;
    while i < vals.len()
        invariant
            i <= vals@.len(),
            seq_sum(vals@) <= u64::MAX,
            sum == seq_sum(vals@.take(i as int)),
            count == i,
        decreases vals@.len() - i,
    {
        proof {
            lemma_seq_sum_take_step(vals@, i as int);
            crate::latency::lemma_seq_sum_take_mono(vals@, i + 1, vals@.len() as int);
            crate::latency::lemma_seq_sum_whole(vals@);
        }
        sum = sum + vals[i];
        count = count + 1;
        i = i + 1;
    }
    proof {
        crate::latency::lemma_seq_sum_whole(vals@);
    }
    if count > 0 {
        sum / count
    } else {
        0
    }
}

/// Largest of `vals`, `None` when empty.
pub fn max_u64(vals: &Vec<u64>) -> (r: Option<u64>)
    ensures
        r == max_of(vals@),
{
    if vals.len() == 0 {
        return None;
    }
    let mut m: u64 = 0;
    let mut i: usize = 0;
    while i < vals.len()
        invariant
            i <= vals@.len(),
            m == seq_max(vals@.take(i as int)),
        decreases vals@.len() - i,
    {
        proof {
            assert(vals@.take(i + 1).drop_last() =~= vals@.take(i as int));
        }
        if vals[i] > m {
            m = vals[i];
        }
        i = i + 1;
    }
    proof {
        assert(vals@.take(vals@.len() as int) =~= vals@);
    }
    Some(m)
}

/// The integer part of a run summary.
pub struct IntSummary {
    pub total_samples: u64,
    /// Subscriber only.
    pub total_lost: Option<u64>,
    pub mean_p50_us: Option<u64>,
    pub mean_p95_us: Option<u64>,
    pub max_p99_us: Option<u64>,
    pub max_lat_us: Option<u64>,
    /// Publisher only.
    pub max_write_us: Option<u64>,
    pub mean_write_us: Option<u64>,
}

pub open spec fn unwrap_or_zero(o: Option<u64>) -> u64 {
    match o {
        Some(v) => v,
        None => 0,
    }
}

/// Summary of the rows of one run: the last row's cumulative count; for a
/// subscriber the last row's loss, the mean p50/p95 and the largest
/// p99/max latency; for a publisher the largest and the mean write time.
pub open spec fn int_summary_of(rows: Seq<RowCounters>, kind: BenchKind) -> IntSummary {
    if rows.len() == 0 {
        IntSummary {
            total_samples: 0,
            total_lost: None,
            mean_p50_us: None,
            mean_p95_us: None,
            max_p99_us: None,
            max_lat_us: None,
            max_write_us: None,
            mean_write_us: None,
        }
    } else {
        let last = rows.last();
        match kind {
            BenchKind::Pub => IntSummary {
                total_samples: unwrap_or_zero(last.sent),
                total_lost: None,
                mean_p50_us: None,
                mean_p95_us: None,
                max_p99_us: None,
                max_lat_us: None,
                max_write_us: max_of(present(rows, Column::WriteMax)),
                mean_write_us: Some(mean_of(present(rows, Column::WriteAvg))),
            },
            BenchKind::Sub => IntSummary {
                total_samples: unwrap_or_zero(last.recv),
                total_lost: Some(unwrap_or_zero(last.lost_wire)),
                mean_p50_us: Some(mean_of(present(rows, Column::LatP50))),
                mean_p95_us: Some(mean_of(present(rows, Column::LatP95))),
                max_p99_us: max_of(present(rows, Column::LatP99)),
                max_lat_us: max_of(present(rows, Column::LatMax)),
                max_write_us: None,
                mean_write_us: None,
            },
        }
    }
}

/// The columns averaged for a run of this kind sum without overflow.
pub open spec fn summary_fits(rows: Seq<RowCounters>, kind: BenchKind) -> bool {
    match kind {
        BenchKind::Pub => seq_sum(present(rows, Column::WriteAvg)) <= u64::MAX,
        BenchKind::Sub => seq_sum(present(rows, Column::LatP50)) <= u64::MAX && seq_sum(
            present(rows, Column::LatP95),
        ) <= u64::MAX,
    }
}

fn sum_fits(vals: &Vec<u64>) -> (r: bool)
    ensures
        r == (seq_sum(vals@) <= u64::MAX),
{
    let mut sum: u64 = 0;
    let mut i: usize = 0;
    while i < vals.len()
        invariant
            i <= vals@.len(),
            sum == seq_sum(vals@.take(i as int)),
        decreases vals@.len() - i,
    {
        proof {
            lemma_seq_sum_take_step(vals@, i as int);
        }
        if sum > u64::MAX - vals[i] {
            proof {
                crate::latency::lemma_seq_sum_take_mono(vals@, i + 1, vals@.len() as int);
                crate::latency::lemma_seq_sum_whole(vals@);
            }
            return false;
        }
        sum = sum + vals[i];
        i = i + 1;
    }
    proof {
        crate::latency::lemma_seq_sum_whole(vals@);
    }
    true
}

/// Whether the rows can be summarized without overflow (`summary_fits`).
pub fn can_summarize(rows: &Vec<RowCounters>, kind: BenchKind) -> (r: bool)
    ensures
        r == summary_fits(rows@, kind),
{
    match kind {
        BenchKind::Pub => sum_fits(&present_values(rows, Column::WriteAvg)),
        BenchKind::Sub => sum_fits(&present_values(rows, Column::LatP50)) && sum_fits(
            &present_values(rows, Column::LatP95),
        ),
    }
}

pub fn int_summary(rows: &Vec<RowCounters>, kind: BenchKind) -> (s: IntSummary)
    requires
        summary_fits(rows@, kind),
    ensures
        s == int_summary_of(rows@, kind),
{
    let n = rows.len();
    if n == 0 {
        return IntSummary {
            total_samples: 0,
            total_lost: None,
            mean_p50_us: None,
            mean_p95_us: None,
            max_p99_us: None,
            max_lat_us: None,
            max_write_us: None,
            mean_write_us: None,
        };
    }
    let last = rows[n - 1];
    match kind {
        BenchKind::Pub => {
            let avg = present_values(rows, Column::WriteAvg);
            let mx = present_values(rows, Column::WriteMax);
            IntSummary {
                total_samples: match last.sent {
                    Some(v) => v,
                    None => 0,
                },
                total_lost: None,
                mean_p50_us: None,
                mean_p95_us: None,
                max_p99_us: None,
                max_lat_us: None,
                max_write_us: max_u64(&mx),
                mean_write_us: Some(mean_u64(&avg)),
            }
        },
        BenchKind::Sub => {
            let p50 = present_values(rows, Column::LatP50);
            let p95 = present_values(rows, Column::LatP95);
            let p99 = present_values(rows, Column::LatP99);
            let lat = present_values(rows, Column::LatMax);
            IntSummary {
                total_samples: match last.recv {
                    Some(v) => v,
                    None => 0,
                },
                total_lost: Some(
                    match last.lost_wire {
                        Some(v) => v,
                        None => 0,
                    },
                ),
                mean_p50_us: Some(mean_u64(&p50)),
                mean_p95_us: Some(mean_u64(&p95)),
                max_p99_us: max_u64(&p99),
                max_lat_us: max_u64(&lat),
                max_write_us: None,
                mean_write_us: None,
            }
        },
    }
}

/// The mean of a run lies between its smallest and largest value.
pub proof fn lemma_mean_le_max(vals: Seq<u64>)
    requires
        vals.len() > 0,
    ensures
        mean_of(vals) <= seq_max(vals),
{
    lemma_sum_le_len_max(vals);
    let n = vals.len() as int;
    let s = seq_sum(vals);
    let m = seq_max(vals) as int;
    lemma_seq_sum_nonneg(vals);
    assert(s / n <= m) by (nonlinear_arith)
        requires
            s <= n * m,
            n > 0,
            s >= 0,
    ;
}

proof fn lemma_sum_le_len_max(vals: Seq<u64>)
    ensures
        seq_sum(vals) <= vals.len() * seq_max(vals),
    decreases vals.len(),
{
    if vals.len() > 0 {
        lemma_sum_le_len_max(vals.drop_last());
        let d = vals.drop_last();
        assert(seq_max(d) <= seq_max(vals));
        assert(d.len() * seq_max(d) <= d.len() * seq_max(vals)) by (nonlinear_arith)
            requires
                seq_max(d) <= seq_max(vals),
        ;
        lemma_seq_max_bound(vals, vals.len() - 1);
        let m = seq_max(vals) as int;
        let k = d.len() as int;
        assert(k * m + m == (k + 1) * m) by (nonlinear_arith);
    }
}

/// Rank of a configuration field in the order topic, domain, reliability.
pub open spec fn field_rank(f: ConfigField) -> int {
    match f {
        ConfigField::Topic => 0,
        ConfigField::Domain => 1,
        ConfigField::Reliability => 2,
    }
}

/// A pair is refused on a field exactly when the two runs differ on it,
/// each field independently of the others; the fields are listed once
/// each, in the order topic, domain, reliability.
pub proof fn law_mismatches(p: PairKey, s: PairKey)
    ensures
        mismatches_of(p, s).contains(ConfigField::Topic) <==> opt_text(p.topic) != opt_text(s.topic),
        mismatches_of(p, s).contains(ConfigField::Domain) <==> p.domain != s.domain,
        mismatches_of(p, s).contains(ConfigField::Reliability) <==> opt_text(p.reliability)
            != opt_text(s.reliability),
        forall|i: int, j: int|
            0 <= i < j < mismatches_of(p, s).len() ==> field_rank(mismatches_of(p, s)[i])
                < field_rank(mismatches_of(p, s)[j]),
{
    let m = mismatches_of(p, s);
    let t = opt_text(p.topic) != opt_text(s.topic);
    let d = p.domain != s.domain;
    let r = opt_text(p.reliability) != opt_text(s.reliability);
    let a: Seq<ConfigField> = if t { seq![ConfigField::Topic] } else { Seq::empty() };
    let b = if d { a.push(ConfigField::Domain) } else { a };
    assert(m == if r { b.push(ConfigField::Reliability) } else { b });
    assert(forall|k: int| 0 <= k < a.len() ==> a[k] == ConfigField::Topic);
    assert(forall|k: int| 0 <= k < b.len() ==> (b[k] == ConfigField::Topic || b[k] == ConfigField::Domain));
    assert(forall|k: int| 0 <= k < b.len() && b[k] == ConfigField::Domain ==> k == b.len() - 1 && d);
    assert(forall|k: int| 0 <= k < b.len() && b[k] == ConfigField::Topic ==> k == 0 && t);
    if t {
        assert(m[0] == ConfigField::Topic);
    }
    if d {
        assert(b[b.len() - 1] == ConfigField::Domain);
        assert(m[b.len() - 1] == ConfigField::Domain);
    }
    if r {
        assert(m[m.len() - 1] == ConfigField::Reliability);
    }
    assert(forall|k: int| 0 <= k < m.len() && m[k] == ConfigField::Reliability ==> r && k == m.len() - 1);
    assert(forall|k: int| 0 <= k < m.len() && m[k] == ConfigField::Domain ==> d);
    assert(forall|k: int| 0 <= k < m.len() && m[k] == ConfigField::Topic ==> t);
}

/// The values present in a column are the column's cells that hold one,
/// in row order: each comes from some row, each row's value is among them,
/// and there is none exactly when no row has a value.
pub proof fn lemma_present_cells(rows: Seq<RowCounters>, c: Column)
    ensures
        forall|j: int|
            #![trigger present(rows, c)[j]]
            0 <= j < present(rows, c).len() ==> exists|i: int|
                0 <= i < rows.len() && #[trigger] cell(rows[i], c) == Some(present(rows, c)[j]),
        forall|i: int|
            0 <= i < rows.len() && (#[trigger] cell(rows[i], c)) is Some ==> exists|j: int|
                0 <= j < present(rows, c).len() && present(rows, c)[j] == cell(rows[i], c).unwrap(),
        present(rows, c).len() == 0 <==> forall|i: int| 0 <= i < rows.len() ==> (#[trigger] cell(rows[i], c)) is None,
    decreases rows.len(),
{
    if rows.len() > 0 {
        let d = rows.drop_last();
        lemma_present_cells(d, c);
        let h = present(d, c);
        let pr = present(rows, c);
        assert forall|j: int| #![trigger pr[j]] 0 <= j < pr.len() implies exists|i: int|
            0 <= i < rows.len() && #[trigger] cell(rows[i], c) == Some(pr[j]) by {
            if j < h.len() {
                assert(pr[j] == h[j]);
                let i = choose|i: int| 0 <= i < d.len() && #[trigger] cell(d[i], c) == Some(h[j]);
                assert(rows[i] == d[i]);
            } else {
                assert(cell(rows[rows.len() - 1], c) == Some(pr[j]));
            }
        }
        assert forall|i: int| 0 <= i < rows.len() && (#[trigger] cell(rows[i], c)) is Some implies exists|j: int|
            0 <= j < pr.len() && pr[j] == cell(rows[i], c).unwrap() by {
            if i < d.len() {
                assert(rows[i] == d[i]);
                let j = choose|j: int| 0 <= j < h.len() && h[j] == cell(d[i], c).unwrap();
                assert(pr[j] == h[j]);
            } else {
                assert(pr[pr.len() - 1] == cell(rows[i], c).unwrap());
            }
        }
        if pr.len() == 0 {
            assert forall|i: int| 0 <= i < rows.len() implies (#[trigger] cell(rows[i], c)) is None by {
                if i < d.len() {
                    assert(rows[i] == d[i]);
                }
            }
        }
    }
}

proof fn lemma_seq_max_attained(s: Seq<u64>)
    requires
        s.len() > 0,
    ensures
        exists|j: int| 0 <= j < s.len() && s[j] == seq_max(s),
    decreases s.len(),
{
    let n = s.len() as int;
    let d = s.drop_last();
    if s.last() > seq_max(d) || d.len() == 0 {
        assert(s[n - 1] == s.last());
        if d.len() == 0 {
            assert(seq_max(d) == 0);
        }
        assert(s[n - 1] == seq_max(s));
    } else {
        lemma_seq_max_attained(d);
        let j = choose|j: int| 0 <= j < d.len() && d[j] == seq_max(d);
        assert(s[j] == d[j]);
        assert(s[j] == seq_max(s));
    }
}

/// The maximum of a column is the largest cell of any row: every row's
/// value is at most it and some row holds it; it is `None` exactly when no
/// row has a value.
pub proof fn law_column_max(rows: Seq<RowCounters>, c: Column)
    ensures
        max_of(present(rows, c)) is None <==> forall|i: int|
            0 <= i < rows.len() ==> (#[trigger] cell(rows[i], c)) is None,
        max_of(present(rows, c)) matches Some(m) ==> (forall|i: int|
            0 <= i < rows.len() && (#[trigger] cell(rows[i], c)) is Some ==> cell(rows[i], c).unwrap()
                <= m) && (exists|i: int| 0 <= i < rows.len() && #[trigger] cell(rows[i], c) == Some(m)),
{
    lemma_present_cells(rows, c);
    let pr = present(rows, c);
    if pr.len() > 0 {
        let m = seq_max(pr);
        assert forall|i: int| 0 <= i < rows.len() && (#[trigger] cell(rows[i], c)) is Some implies cell(
            rows[i],
            c,
        ).unwrap() <= m by {
            let j = choose|j: int| 0 <= j < pr.len() && pr[j] == cell(rows[i], c).unwrap();
            lemma_seq_max_bound(pr, j);
        }
        lemma_seq_max_attained(pr);
        let j = choose|j: int| 0 <= j < pr.len() && pr[j] == seq_max(pr);
        assert(exists|i: int| 0 <= i < rows.len() && #[trigger] cell(rows[i], c) == Some(pr[j]));
    }
}

/// A run summary's maxima are taken over every row: for a subscriber run,
/// the largest p99 and the largest latency bound every row's value and are
/// each held by some row; for a publisher run, so is the largest write
/// time. Each is `None` exactly when no row has that column.
pub proof fn law_summary_maxima(rows: Seq<RowCounters>)
    ensures
        ({
            let s = int_summary_of(rows, BenchKind::Sub);
            &&& rows.len() > 0 ==> (s.max_p99_us is None <==> forall|i: int|
                0 <= i < rows.len() ==> (#[trigger] rows[i].lat_p99_us) is None)
            &&& s.max_p99_us matches Some(m) ==> (forall|i: int|
                0 <= i < rows.len() && (#[trigger] rows[i].lat_p99_us) is Some
                    ==> rows[i].lat_p99_us.unwrap() <= m) && (exists|i: int|
                0 <= i < rows.len() && #[trigger] rows[i].lat_p99_us == Some(m))
            &&& rows.len() > 0 ==> (s.max_lat_us is None <==> forall|i: int|
                0 <= i < rows.len() ==> (#[trigger] rows[i].lat_max_us) is None)
            &&& s.max_lat_us matches Some(m) ==> (forall|i: int|
                0 <= i < rows.len() && (#[trigger] rows[i].lat_max_us) is Some
                    ==> rows[i].lat_max_us.unwrap() <= m) && (exists|i: int|
                0 <= i < rows.len() && #[trigger] rows[i].lat_max_us == Some(m))
        }),
        ({
            let s = int_summary_of(rows, BenchKind::Pub);
            &&& rows.len() > 0 ==> (s.max_write_us is None <==> forall|i: int|
                0 <= i < rows.len() ==> (#[trigger] rows[i].write_max_us) is None)
            &&& s.max_write_us matches Some(m) ==> (forall|i: int|
                0 <= i < rows.len() && (#[trigger] rows[i].write_max_us) is Some
                    ==> rows[i].write_max_us.unwrap() <= m) && (exists|i: int|
                0 <= i < rows.len() && #[trigger] rows[i].write_max_us == Some(m))
        }),
{
    law_column_max(rows, Column::LatP99);
    law_column_max(rows, Column::LatMax);
    law_column_max(rows, Column::WriteMax);
    assert(forall|i: int| 0 <= i < rows.len() ==> cell(#[trigger] rows[i], Column::LatP99) == rows[i].lat_p99_us);
    assert(forall|i: int| 0 <= i < rows.len() ==> cell(#[trigger] rows[i], Column::LatMax) == rows[i].lat_max_us);
    assert(forall|i: int| 0 <= i < rows.len() ==> cell(#[trigger] rows[i], Column::WriteMax) == rows[i].write_max_us);
}

proof fn lemma_sum_ge_len_bound(s: Seq<u64>, a: int)
    requires
        forall|j: int| 0 <= j < s.len() ==> s[j] >= a,
    ensures
        seq_sum(s) >= s.len() * a,
    decreases s.len(),
{
    if s.len() > 0 {
        let d = s.drop_last();
        assert(forall|j: int| 0 <= j < d.len() ==> d[j] == s[j]);
        lemma_sum_ge_len_bound(d, a);
        let k = d.len() as int;
        assert(k * a + a == (k + 1) * a) by (nonlinear_arith);
    }
}

/// `m` is the mean of column `c`: 0 when no row has a value; otherwise the
/// sum of the values divided by their number, rounded down, which lies
/// between the smallest and the largest value of the column.
pub open spec fn is_column_mean(rows: Seq<RowCounters>, c: Column, m: u64) -> bool {
    let vals = present(rows, c);
    if forall|i: int| 0 <= i < rows.len() ==> (#[trigger] cell(rows[i], c)) is None {
        m == 0
    } else {
        &&& m * vals.len() <= seq_sum(vals) < (m + 1) * vals.len()
        &&& exists|i: int|
            0 <= i < rows.len() && (#[trigger] cell(rows[i], c)) is Some && cell(rows[i], c).unwrap() <= m
        &&& exists|i: int|
            0 <= i < rows.len() && (#[trigger] cell(rows[i], c)) is Some && cell(rows[i], c).unwrap() >= m
    }
}

/// The mean of a column is taken over the rows that hold a value.
pub proof fn law_column_mean(rows: Seq<RowCounters>, c: Column)
    ensures
        is_column_mean(rows, c, mean_of(present(rows, c))),
{
    lemma_present_cells(rows, c);
    let vals = present(rows, c);
    if vals.len() > 0 {
        let k = vals.len() as int;
        let t = seq_sum(vals);
        let mx = seq_max(vals) as int;
        lemma_seq_sum_nonneg(vals);
        lemma_sum_le_len_max(vals);
        let q = t / k;
        assert(q * k <= t < (q + 1) * k && q <= mx) by (nonlinear_arith)
            requires
                k > 0,
                t >= 0,
                t <= k * mx,
                q == t / k,
        ;
        let m = mean_of(vals);
        assert(m == q);
        lemma_seq_max_attained(vals);
        let jh = choose|j: int| 0 <= j < vals.len() && vals[j] == seq_max(vals);
        assert(exists|i: int| 0 <= i < rows.len() && #[trigger] cell(rows[i], c) == Some(vals[jh]));
        if forall|j: int| 0 <= j < vals.len() ==> vals[j] > m {
            lemma_sum_ge_len_bound(vals, m + 1);
            assert(false);
        }
        let jl = choose|j: int| 0 <= j < vals.len() && !(vals[j] > m);
        assert(exists|i: int| 0 <= i < rows.len() && #[trigger] cell(rows[i], c) == Some(vals[jl]));
        assert(!(forall|i: int| 0 <= i < rows.len() ==> (#[trigger] cell(rows[i], c)) is None));
    }
}

/// A run summary's totals come from the last row, which carries the
/// cumulative counts (received and lost for a subscriber, sent for a
/// publisher, 0 where the cell is empty), and its means are the means of
/// the rows' values: p50 and p95 for a subscriber, the write time for a
/// publisher.
pub proof fn law_summary_totals_and_means(rows: Seq<RowCounters>)
    requires
        rows.len() > 0,
    ensures
        ({
            let s = int_summary_of(rows, BenchKind::Sub);
            &&& s.total_samples == (match rows.last().recv {
                Some(v) => v,
                None => 0,
            })
            &&& s.total_lost == Some(
                match rows.last().lost_wire {
                    Some(v) => v,
                    None => 0u64,
                },
            )
            &&& s.mean_p50_us matches Some(m) && is_column_mean(rows, Column::LatP50, m)
            &&& s.mean_p95_us matches Some(m) && is_column_mean(rows, Column::LatP95, m)
        }),
        ({
            let s = int_summary_of(rows, BenchKind::Pub);
            &&& s.total_samples == (match rows.last().sent {
                Some(v) => v,
                None => 0,
            })
            &&& s.total_lost is None
            &&& s.mean_write_us matches Some(m) && is_column_mean(rows, Column::WriteAvg, m)
        }),
{
    law_column_mean(rows, Column::LatP50);
    law_column_mean(rows, Column::LatP95);
    law_column_mean(rows, Column::WriteAvg);
}

/// The run checks only get worse as things get worse: a larger p99 is
/// never judged better (under 2 ms good, from 10 ms bad); more loss over
/// the same received count is never judged better (none is good, from one
/// lost sample per thousand expected bad); a larger maximum latency never
/// stops being an outlier; and a larger deviation of the pair delta from
/// the expected one is never judged better.
pub proof fn law_severity_monotone(a: u64, b: u64, samples: u64, expected: i64, d1: i64, d2: i64)
    ensures
        (p99_severity_of(a) == Severity::Good) <==> a < 2_000,
        (p99_severity_of(a) == Severity::Bad) <==> a >= 10_000,
        a <= b ==> severity_rank(p99_severity_of(a)) <= severity_rank(p99_severity_of(b)),
        (loss_severity_of(a, samples) == Severity::Good) <==> a == 0,
        (loss_severity_of(a, samples) == Severity::Bad) <==> a > 0 && 1000 * a >= samples + a,
        a <= b ==> severity_rank(loss_severity_of(a, samples)) <= severity_rank(
            loss_severity_of(b, samples),
        ),
        a <= b && is_outlier_of(samples, a) ==> is_outlier_of(samples, b),
        ({
            let dev1 = if d1 >= expected { d1 - expected } else { expected - d1 };
            let dev2 = if d2 >= expected { d2 - expected } else { expected - d2 };
            dev1 <= dev2 ==> severity_rank(delta_severity_of(d1, expected)) <= severity_rank(
                delta_severity_of(d2, expected),
            )
        }),
{
}

} // verus!
