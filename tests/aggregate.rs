use fuzz_metrics::aggregate::{gauges, reduce, tick, Metric, SourceMode};
use fuzz_metrics::job::JobStatus;
use fuzz_metrics::line::Parsed;

fn with(cov: u32, exec_s: u32) -> Parsed {
    Parsed { cov, ft: cov, corp: 1, corp_size: 10, exec_s, oom: 0, timeout: 0, crash: 0, time: 0 }
}

#[test]
fn coverage_is_the_maximum() {
    let t = reduce(&vec![with(10, 1), with(50, 1), with(30, 1)]);
    assert_eq!(t.cov, 50);
    assert_eq!(t.ft, 50);
}

#[test]
fn throughput_is_the_sum() {
    let t = reduce(&vec![with(1, 100), with(1, 200), with(1, 300)]);
    assert_eq!(t.exec_s, 600);
}

#[test]
fn throughput_sum_exceeds_u32() {
    let t = reduce(&vec![with(1, u32::MAX), with(1, u32::MAX)]);
    assert_eq!(t.exec_s, 2 * u32::MAX as u64);
}

#[test]
fn no_sources_publish_zero() {
    let jobs: Vec<JobStatus> = Vec::new();
    let g = tick(&jobs, SourceMode::LogDir);
    assert_eq!(g.len(), 5);
    assert!(g.iter().all(|(_, v)| *v == 0));
    let g = tick(&jobs, SourceMode::Journal);
    assert_eq!(g.len(), 9);
    assert!(g.iter().all(|(_, v)| *v == 0));
}

#[test]
fn tick_reduces_records() {
    let jobs = vec![JobStatus::new(), JobStatus::new(), JobStatus::new()];
    jobs[0].update(&with(10, 100));
    jobs[1].update(&with(50, 200));
    jobs[2].update(&with(30, 300));
    let g = tick(&jobs, SourceMode::LogDir);
    assert_eq!(
        g,
        vec![
            (Metric::Cov, 50),
            (Metric::Feat, 50),
            (Metric::Corp, 1),
            (Metric::CorpSize, 10),
            (Metric::ExecS, 600)
        ]
    );
}

#[test]
fn journal_mode_adds_counters() {
    let jobs = vec![JobStatus::new()];
    let line = "cov: 1 ft: 2 corp: 3 exec/s: 4 oom/timeout/crash: 5/6/7 time: 8s";
    assert!(jobs[0].ingest(line).is_some());
    let g = tick(&jobs, SourceMode::Journal);
    let names: Vec<&str> = g.iter().map(|(m, _)| m.name()).collect();
    let values: Vec<u64> = g.iter().map(|(_, v)| *v).collect();
    assert_eq!(
        names,
        vec![
            "fuzz_cov",
            "fuzz_feat",
            "fuzz_corp",
            "fuzz_corp_size",
            "fuzz_exec_s",
            "fuzz_oom",
            "fuzz_timeout",
            "fuzz_crash",
            "fuzz_time"
        ]
    );
    assert_eq!(values, vec![1, 2, 3, 0, 4, 5, 6, 7, 8]);
}

#[test]
fn unrecognized_line_leaves_record_alone() {
    let job = JobStatus::new();
    assert!(job.ingest("RELOAD cov: 641 ft: 9191 corp: 1640/591Kb lim: 2411 exec/s: 529").is_some());
    assert_eq!(job.ingest("cov: 1 corp: 3 exec/s: 4"), None);
    assert_eq!(job.snapshot().cov, 641);
    assert_eq!(job.snapshot().corp_size, 591 * 1024);
}

#[test]
fn new_record_is_zero() {
    assert_eq!(JobStatus::new().snapshot(), Parsed::new());
    let t = reduce(&vec![Parsed::new()]);
    let g = gauges(&t, SourceMode::LogDir);
    assert_eq!(g.len(), 5);
}
