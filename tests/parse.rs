use fuzz_metrics::line::{parse, parse_fork_mode, parse_job_mode, Parsed};

fn fields(cov: u32, ft: u32, corp: u32, corp_size: u64, exec_s: u32) -> Parsed {
    Parsed { cov, ft, corp, corp_size, exec_s, oom: 0, timeout: 0, crash: 0, time: 0 }
}

#[test]
fn test_parse() {
    let log = "Feb 20 08:24:30 test-server-1 cargo[117394]: #2903021619: cov: 2163 ft: 20854 corp: 2853 exec/s: 1464 oom/timeout/crash: 0/0/0 time: 56383s job: 6125 dft_time: 0";
    let parsed = parse_fork_mode(log).unwrap();
    assert_eq!(
        parsed,
        Parsed {
            cov: 2163,
            ft: 20854,
            corp: 2853,
            corp_size: 0,
            exec_s: 1464,
            oom: 0,
            timeout: 0,
            crash: 0,
            time: 56383
        }
    );

    let log = "Feb 24 16:30:28 test-server-1 cargo[478967]: #190817895: cov: 400 ft: 7911 corp: 1901 exec/s 24015 oom/timeout/crash: 0/0/0 time: 252s job: 110 dft_time: 0";
    let parsed = parse_fork_mode(log).unwrap();
    assert_eq!(
        parsed,
        Parsed {
            cov: 400,
            ft: 7911,
            corp: 1901,
            corp_size: 0,
            exec_s: 24015,
            oom: 0,
            timeout: 0,
            crash: 0,
            time: 252
        }
    );
}

#[test]
fn test_parse_job_mode() {
    let log = "RELOAD cov: 641 ft: 9191 corp: 1640/591Kb lim: 2411 exec/s: 529 rss: 36Mb";
    let parsed = parse_job_mode(log).unwrap();
    assert_eq!(
        parsed,
        Parsed {
            cov: 641,
            ft: 9191,
            corp: 1640,
            corp_size: 591 * 1024,
            exec_s: 529,
            oom: 0,
            timeout: 0,
            crash: 0,
            time: 0
        }
    );
}

#[test]
fn fork_counters_and_time_are_read() {
    let log = "cov: 1 ft: 2 corp: 3 exec/s: 4 oom/timeout/crash: 5/6/7 time: 8s";
    let p = parse_fork_mode(log).unwrap();
    assert_eq!(
        p,
        Parsed { cov: 1, ft: 2, corp: 3, corp_size: 0, exec_s: 4, oom: 5, timeout: 6, crash: 7, time: 8 }
    );
}

#[test]
fn exec_colon_is_optional_in_fork_mode() {
    let a = parse_fork_mode("cov: 1 ft: 2 corp: 3 exec/s 1464 oom/timeout/crash: 0/0/0 time: 9s").unwrap();
    let b = parse_fork_mode("cov: 1 ft: 2 corp: 3 exec/s: 1464 oom/timeout/crash: 0/0/0 time: 9s").unwrap();
    assert_eq!(a.exec_s, 1464);
    assert_eq!(a, b);
}

#[test]
fn fork_mode_accepts_tabs_and_runs_of_blanks() {
    let p = parse_fork_mode("x cov:\t7  ft: 8 corp:   9 exec/s:\t\t10 oom/timeout/crash: 1/2/3 time: 4s").unwrap();
    assert_eq!(
        p,
        Parsed { cov: 7, ft: 8, corp: 9, corp_size: 0, exec_s: 10, oom: 1, timeout: 2, crash: 3, time: 4 }
    );
}

#[test]
fn fork_mode_rejects_reordered_or_missing_fields() {
    assert_eq!(parse_fork_mode("cov: 1 corp: 3 ft: 2 exec/s: 4 oom/timeout/crash: 0/0/0 time: 9s"), None);
    assert_eq!(parse_fork_mode("cov: 1 ft: 2 corp: 3 exec/s: 4 time: 9s"), None);
    assert_eq!(parse_fork_mode("cov: 1 ft: 2 corp: 3 exec/s: 4 oom/timeout/crash: 0/0/0 time: 9"), None);
    assert_eq!(parse_fork_mode("ft: 2 corp: 3 exec/s: 4 oom/timeout/crash: 0/0/0 time: 9s"), None);
    assert_eq!(parse_fork_mode(""), None);
}

#[test]
fn fork_mode_rejects_u32_overflow() {
    assert_eq!(
        parse_fork_mode("cov: 4294967296 ft: 2 corp: 3 exec/s: 4 oom/timeout/crash: 0/0/0 time: 9s"),
        None
    );
    let p = parse_fork_mode("cov: 4294967295 ft: 2 corp: 3 exec/s: 4 oom/timeout/crash: 0/0/0 time: 9s").unwrap();
    assert_eq!(p.cov, 4294967295);
}

#[test]
fn job_mode_kb_unit() {
    let p = parse_job_mode("cov: 1 ft: 2 corp: 3/5Kb exec/s: 4").unwrap();
    assert_eq!(p, fields(1, 2, 3, 5 * 1024, 4));
}

#[test]
fn job_mode_mb_unit() {
    let p = parse_job_mode("cov: 1 ft: 2 corp: 3/5Mb exec/s: 4").unwrap();
    assert_eq!(p, fields(1, 2, 3, 5 * 1024 * 1024, 4));
}

#[test]
fn job_mode_byte_unit() {
    let p = parse_job_mode("cov: 1 ft: 2 corp: 3/5b exec/s: 4").unwrap();
    assert_eq!(p, fields(1, 2, 3, 5, 4));
}

#[test]
fn job_mode_without_size() {
    let p = parse_job_mode("cov: 1 ft: 2 corp: 1640 lim: 7 exec/s: 4 rss: 1Mb").unwrap();
    assert_eq!(p, fields(1, 2, 1640, 0, 4));
}

#[test]
fn job_mode_rejects_malformed_size() {
    assert_eq!(parse_job_mode("cov: 1 ft: 2 corp: 3/5Xb exec/s: 4"), None);
    assert_eq!(parse_job_mode("cov: 1 ft: 2 corp: 3/Kb exec/s: 4"), None);
    assert_eq!(parse_job_mode("cov: 1 ft: 2 corp: 3/18014398509481984Kb exec/s: 4"), None);
}

#[test]
fn job_mode_requires_exec_colon() {
    assert_eq!(parse_job_mode("cov: 1 ft: 2 corp: 3 exec/s 4"), None);
}

#[test]
fn missing_ft_is_not_recognized() {
    let log = "cov: 1 corp: 3 exec/s: 4 oom/timeout/crash: 0/0/0 time: 9s";
    assert_eq!(parse_fork_mode(log), None);
    assert_eq!(parse_job_mode(log), None);
    assert_eq!(parse(log), None);
}

#[test]
fn scenario_fork_line() {
    let log = "Feb 20 08:24:30 test-server-1 cargo[117394]: #2903021619: cov: 2163 ft: 20854 corp: 2853 exec/s: 1464 oom/timeout/crash: 0/0/0 time: 56383s job: 6125 dft_time: 0";
    assert_eq!(
        parse(log),
        Some(Parsed {
            cov: 2163,
            ft: 20854,
            corp: 2853,
            corp_size: 0,
            exec_s: 1464,
            oom: 0,
            timeout: 0,
            crash: 0,
            time: 56383
        })
    );
}

#[test]
fn scenario_job_line() {
    let log = "RELOAD cov: 641 ft: 9191 corp: 1640/591Kb lim: 2411 exec/s: 529 rss: 36Mb";
    assert_eq!(parse(log), Some(fields(641, 9191, 1640, 605184, 529)));
}

#[test]
fn scenario_malformed_line() {
    let log = "cov: abc ft: 1 corp: 1 exec/s: 1 ...";
    assert_eq!(parse_fork_mode(log), None);
    assert_eq!(parse_job_mode(log), None);
    assert_eq!(parse(log), None);
}

#[test]
fn lone_zero_ends_a_number() {
    assert_eq!(parse_job_mode("cov: 0 ft: 0 corp: 0 exec/s: 0"), Some(fields(0, 0, 0, 0, 0)));
    assert_eq!(parse_job_mode("cov: 07 ft: 1 corp: 1 exec/s: 1"), None);
}

#[test]
fn record_constructors_read_each_format() {
    let a = "cov: 1 ft: 2 corp: 3 exec/s 4 oom/timeout/crash: 5/6/7 time: 8s";
    assert_eq!(Parsed::from_log(a), parse_fork_mode(a));
    assert!(Parsed::from_log(a).is_some());
    assert_eq!(Parsed::from_log_job(a), None);
    let b = "cov: 1 ft: 2 corp: 3/2Mb exec/s: 4";
    assert_eq!(Parsed::from_log_job(b), Some(fields(1, 2, 3, 2 * 1024 * 1024, 4)));
    assert_eq!(Parsed::from_log(b), None);
    assert_eq!(parse(b), Parsed::from_log_job(b));
}
