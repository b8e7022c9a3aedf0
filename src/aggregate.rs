//! Reduction of many sources' numbers into the gauges that are published.
use vstd::prelude::*;
use crate::job::JobStatus;
use crate::line::Parsed;

verus! {

/// The reduced values of one tick: maxima, but for throughput, which is summed
/// (and held at `u64::MAX` should the sum exceed it).
#[derive(Clone, Copy, Debug, PartialEq, Eq, Structural)]
pub struct Totals {
    pub cov: u32,
    pub ft: u32,
    pub corp: u32,
    pub corp_size: u64,
    pub exec_s: u64,
    pub oom: u32,
    pub timeout: u32,
    pub crash: u32,
    pub time: u32,
}

/// Largest value of `f` over `s`; 0 over an empty sequence.
pub open spec fn max_of(s: Seq<Parsed>, f: spec_fn(Parsed) -> int) -> int
    decreases s.len(),
{
    if s.len() == 0 {
        0
    } else if f(s.last()) > max_of(s.drop_last(), f) {
        f(s.last())
    } else {
        max_of(s.drop_last(), f)
    }
}

/// Sum of `f` over `s`; 0 over an empty sequence.
pub open spec fn sum_of(s: Seq<Parsed>, f: spec_fn(Parsed) -> int) -> int
    decreases s.len(),
{
    if s.len() == 0 {
        0
    } else {
        sum_of(s.drop_last(), f) + f(s.last())
    }
}

pub open spec fn capped(v: int) -> int {
    if v > u64::MAX {
        u64::MAX as int
    } else {
        v
    }
}

pub open spec fn totals_of(s: Seq<Parsed>) -> Totals {
    Totals {
        cov: max_of(s, |p: Parsed| p.cov as int) as u32,
        ft: max_of(s, |p: Parsed| p.ft as int) as u32,
        corp: max_of(s, |p: Parsed| p.corp as int) as u32,
        corp_size: max_of(s, |p: Parsed| p.corp_size as int) as u64,
        exec_s: capped(sum_of(s, |p: Parsed| p.exec_s as int)) as u64,
        oom: max_of(s, |p: Parsed| p.oom as int) as u32,
        timeout: max_of(s, |p: Parsed| p.timeout as int) as u32,
        crash: max_of(s, |p: Parsed| p.crash as int) as u32,
        time: max_of(s, |p: Parsed| p.time as int) as u32,
    }
}

pub open spec fn zero_totals() -> Totals {
    Totals { cov: 0, ft: 0, corp: 0, corp_size: 0, exec_s: 0, oom: 0, timeout: 0, crash: 0, time: 0 }
}

proof fn lemma_max_bounded(s: Seq<Parsed>, f: spec_fn(Parsed) -> int, hi: int)
    requires
        0 <= hi,
        forall|p: Parsed| 0 <= #[trigger] f(p) <= hi,
    ensures
        0 <= max_of(s, f) <= hi,
    decreases s.len(),
{
    if s.len() > 0 {
        lemma_max_bounded(s.drop_last(), f, hi);
    }
}

proof fn lemma_sum_nonneg(s: Seq<Parsed>, f: spec_fn(Parsed) -> int)
    requires
        forall|p: Parsed| 0 <= #[trigger] f(p),
    ensures
        0 <= sum_of(s, f),
    decreases s.len(),
{
    if s.len() > 0 {
        lemma_sum_nonneg(s.drop_last(), f);
    }
}

/// The maximum bounds every element and, over a nonempty sequence, is one of them.
pub proof fn lemma_max_is_attained(s: Seq<Parsed>, f: spec_fn(Parsed) -> int)
    requires
        forall|p: Parsed| 0 <= #[trigger] f(p),
    ensures
        forall|i: int| 0 <= i < s.len() ==> f(#[trigger] s[i]) <= max_of(s, f),
        s.len() > 0 ==> exists|i: int| 0 <= i < s.len() && f(#[trigger] s[i]) == max_of(s, f),
    decreases s.len(),
{
    if s.len() > 0 {
        let t = s.drop_last();
        lemma_max_is_attained(t, f);
        assert forall|i: int| 0 <= i < s.len() implies f(#[trigger] s[i]) <= max_of(s, f) by {
            if i < s.len() - 1 {
                assert(s[i] == t[i]);
            }
        }
        if f(s.last()) > max_of(t, f) || t.len() == 0 {
            assert(f(s[s.len() - 1]) == max_of(s, f));
        } else {
            let i = choose|i: int| 0 <= i < t.len() && f(#[trigger] t[i]) == max_of(t, f);
            assert(s[i] == t[i]);
        }
    }
}

/// Each published maximum is at least every source's value and equals one of
/// them (0 with no source), and the published throughput is the sum of the
/// sources' throughputs wherever that sum fits in a `u64`.
pub proof fn law_reduction(s: Seq<Parsed>)
    ensures
        forall|i: int| 0 <= i < s.len() ==> (#[trigger] s[i]).cov <= totals_of(s).cov,
        s.len() > 0 ==> exists|i: int| 0 <= i < s.len() && (#[trigger] s[i]).cov == totals_of(s).cov,
        forall|i: int| 0 <= i < s.len() ==> (#[trigger] s[i]).corp_size <= totals_of(s).corp_size,
        s.len() > 0 ==> exists|i: int|
            0 <= i < s.len() && (#[trigger] s[i]).corp_size == totals_of(s).corp_size,
        sum_of(s, |p: Parsed| p.exec_s as int) <= u64::MAX ==> totals_of(s).exec_s == sum_of(
            s,
            |p: Parsed| p.exec_s as int,
        ),
        s.len() == 0 ==> totals_of(s) == zero_totals(),
{
    let fc = |p: Parsed| p.cov as int;
    let fs = |p: Parsed| p.corp_size as int;
    lemma_max_is_attained(s, fc);
    lemma_max_is_attained(s, fs);
    lemma_max_bounded(s, fc, u32::MAX as int);
    lemma_max_bounded(s, fs, u64::MAX as int);
    lemma_sum_nonneg(s, |p: Parsed| p.exec_s as int);
    assert forall|i: int| 0 <= i < s.len() implies (#[trigger] s[i]).cov <= totals_of(s).cov by {
        assert(fc(s[i]) <= max_of(s, fc));
    }
    assert forall|i: int| 0 <= i < s.len() implies (#[trigger] s[i]).corp_size <= totals_of(s).corp_size by {
        assert(fs(s[i]) <= max_of(s, fs));
    }
    if s.len() > 0 {
        let i = choose|i: int| 0 <= i < s.len() && fc(#[trigger] s[i]) == max_of(s, fc);
        assert(s[i].cov == totals_of(s).cov);
        let j = choose|j: int| 0 <= j < s.len() && fs(#[trigger] s[j]) == max_of(s, fs);
        assert(s[j].corp_size == totals_of(s).corp_size);
    }
}

fn max32(a: u32, b: u32) -> (r: u32)
    ensures
        r == if b > a { b } else { a },
{
    if b > a {
        b
    } else {
        a
    }
}

/// Reduces the snapshots of all sources: each field's maximum, and the sum of
/// the throughputs.
pub fn reduce(snapshots: &Vec<Parsed>) -> (r: Totals)
    ensures
        r == totals_of(snapshots@),
        snapshots@.len() == 0 ==> r == zero_totals(),
{
    let mut t = Totals { cov: 0, ft: 0, corp: 0, corp_size: 0, exec_s: 0, oom: 0, timeout: 0, crash: 0, time: 0 };
    let mut k: usize = 0;
    while k < snapshots.len()
        invariant
            k <= snapshots@.len(),
            t == totals_of(snapshots@.take(k as int)),
        decreases snapshots@.len() - k,
    {
        let p = snapshots[k];
        let ghost pre = snapshots@.take(k as int);
        let ghost post = snapshots@.take(k + 1);
        assert(post.drop_last() =~= pre);
        assert(post.last() == p);
        proof {
            lemma_max_bounded(pre, |p: Parsed| p.cov as int, u32::MAX as int);
            lemma_max_bounded(pre, |p: Parsed| p.ft as int, u32::MAX as int);
            lemma_max_bounded(pre, |p: Parsed| p.corp as int, u32::MAX as int);
            lemma_max_bounded(pre, |p: Parsed| p.corp_size as int, u64::MAX as int);
            lemma_max_bounded(pre, |p: Parsed| p.oom as int, u32::MAX as int);
            lemma_max_bounded(pre, |p: Parsed| p.timeout as int, u32::MAX as int);
            lemma_max_bounded(pre, |p: Parsed| p.crash as int, u32::MAX as int);
            lemma_max_bounded(pre, |p: Parsed| p.time as int, u32::MAX as int);
            lemma_sum_nonneg(pre, |p: Parsed| p.exec_s as int);
        }
        t.cov = max32(t.cov, p.cov);
        t.ft = max32(t.ft, p.ft);
        t.corp = max32(t.corp, p.corp);
        t.corp_size = if p.corp_size > t.corp_size { p.corp_size } else { t.corp_size };
        t.exec_s = if t.exec_s > u64::MAX - p.exec_s as u64 { u64::MAX } else { t.exec_s + p.exec_s as u64 };
        t.oom = max32(t.oom, p.oom);
        t.timeout = max32(t.timeout, p.timeout);
        t.crash = max32(t.crash, p.crash);
        t.time = max32(t.time, p.time);
        k = k + 1;
        assert(t == totals_of(post));
    }
    assert(snapshots@.take(k as int) =~= snapshots@);
    t
}

/// A published gauge.
#[derive(Clone, Copy, Debug, PartialEq, Eq, Structural)]
pub enum Metric {
    Cov,
    Feat,
    Corp,
    CorpSize,
    ExecS,
    Oom,
    Timeout,
    Crash,
    Time,
}

pub open spec fn metric_name(m: Metric) -> Seq<char> {
    match m {
        Metric::Cov => "fuzz_cov"@,
        Metric::Feat => "fuzz_feat"@,
        Metric::Corp => "fuzz_corp"@,
        Metric::CorpSize => "fuzz_corp_size"@,
        Metric::ExecS => "fuzz_exec_s"@,
        Metric::Oom => "fuzz_oom"@,
        Metric::Timeout => "fuzz_timeout"@,
        Metric::Crash => "fuzz_crash"@,
        Metric::Time => "fuzz_time"@,
    }
}

impl Metric {
    /// The name under which the gauge is published.
    pub fn name(&self) -> (r: &'static str)
        ensures
            r@ == metric_name(*self),
    {
        match self {
            Metric::Cov => "fuzz_cov",
            Metric::Feat => "fuzz_feat",
            Metric::Corp => "fuzz_corp",
            Metric::CorpSize => "fuzz_corp_size",
            Metric::ExecS => "fuzz_exec_s",
            Metric::Oom => "fuzz_oom",
            Metric::Timeout => "fuzz_timeout",
            Metric::Crash => "fuzz_crash",
            Metric::Time => "fuzz_time",
        }
    }
}

/// How the sources were set up: one live journal stream, or one log file per
/// job in a directory.
#[derive(Clone, Copy, Debug, PartialEq, Eq, Structural)]
pub enum SourceMode {
    Journal,
    LogDir,
}

/// The gauges of one tick: the five reduced values, and in journal mode the
/// event counters and elapsed time as well.
pub open spec fn gauges_of(t: Totals, mode: SourceMode) -> Seq<(Metric, u64)> {
    let common = seq![
        (Metric::Cov, t.cov as u64),
        (Metric::Feat, t.ft as u64),
        (Metric::Corp, t.corp as u64),
        (Metric::CorpSize, t.corp_size),
        (Metric::ExecS, t.exec_s),
    ];
    match mode {
        SourceMode::LogDir => common,
        SourceMode::Journal => common + seq![
            (Metric::Oom, t.oom as u64),
            (Metric::Timeout, t.timeout as u64),
            (Metric::Crash, t.crash as u64),
            (Metric::Time, t.time as u64),
        ],
    }
}

/// The gauge values to publish for `t`.
pub fn gauges(t: &Totals, mode: SourceMode) -> (r: Vec<(Metric, u64)>)
    ensures
        r@ == gauges_of(*t, mode),
{
    let mut r: Vec<(Metric, u64)> = Vec::new();
    r.push((Metric::Cov, t.cov as u64));
    r.push((Metric::Feat, t.ft as u64));
    r.push((Metric::Corp, t.corp as u64));
    r.push((Metric::CorpSize, t.corp_size));
    r.push((Metric::ExecS, t.exec_s));
    match mode {
        SourceMode::Journal => {
            r.push((Metric::Oom, t.oom as u64));
            r.push((Metric::Timeout, t.timeout as u64));
            r.push((Metric::Crash, t.crash as u64));
            r.push((Metric::Time, t.time as u64));
        },
        SourceMode::LogDir => {},
    }
    assert(r@ =~= gauges_of(*t, mode));
    r
}

/// One snapshot of each record, in registration order.
pub fn snapshots(jobs: &Vec<JobStatus>) -> (r: Vec<Parsed>)
    ensures
        r@.len() == jobs@.len(),
{
    let mut r: Vec<Parsed> = Vec::new();
    let mut k: usize = 0;
    while k < jobs.len()
        invariant
            k <= jobs@.len(),
            r@.len() == k,
        decreases jobs@.len() - k,
    {
        r.push(jobs[k].snapshot());
        k = k + 1;
    }
    r
}

/// One tick of the aggregator: the gauges reduced from one snapshot of every
/// record. With no records every value is 0.
pub fn tick(jobs: &Vec<JobStatus>, mode: SourceMode) -> (r: Vec<(Metric, u64)>)
    ensures
        exists|s: Seq<Parsed>| s.len() == jobs@.len() && r@ == gauges_of(#[trigger] totals_of(s), mode),
        jobs@.len() == 0 ==> r@ == gauges_of(zero_totals(), mode),
{
    let snaps = snapshots(jobs);
    let t = reduce(&snaps);
    let r = gauges(&t, mode);
    assert(r@ == gauges_of(totals_of(snaps@), mode));
    r
}

} // verus!
