//! Per-source job records and their reduction into process-wide gauges.
use vstd::prelude::*;
use vstd::string::*;
use std::sync::atomic::{AtomicU32, AtomicU64, Ordering};
use crate::line::{parse_any, Parsed};

verus! {

/// The latest numbers of one source. Each field is stored on its own, so a
/// reader running beside the writer may see fields of two different updates
/// together; nothing is promised about which values a reader sees.
pub struct JobStatus {
    pub cov: AtomicU32,
    pub ft: AtomicU32,
    pub corp: AtomicU32,
    pub exec_s: AtomicU32,
    pub corp_size: AtomicU64,
    pub oom: AtomicU32,
    pub timeout: AtomicU32,
    pub crash: AtomicU32,
    pub time: AtomicU32,
}

impl JobStatus {
    /// A record with every field zero.
    pub fn new() -> JobStatus {
        JobStatus {
            cov: AtomicU32::new(0),
            ft: AtomicU32::new(0),
            corp: AtomicU32::new(0),
            exec_s: AtomicU32::new(0),
            corp_size: AtomicU64::new(0),
            oom: AtomicU32::new(0),
            timeout: AtomicU32::new(0),
            crash: AtomicU32::new(0),
            time: AtomicU32::new(0),
        }
    }

    /// Stores every field of `parsed`, one field at a time.
    pub fn update(&self, parsed: &Parsed) {
        self.cov.store(parsed.cov, Ordering::Release);
        self.ft.store(parsed.ft, Ordering::Release);
        self.corp.store(parsed.corp, Ordering::Release);
        self.exec_s.store(parsed.exec_s, Ordering::Release);
        self.corp_size.store(parsed.corp_size, Ordering::Release);
        self.oom.store(parsed.oom, Ordering::Release);
        self.timeout.store(parsed.timeout, Ordering::Release);
        self.crash.store(parsed.crash, Ordering::Release);
        self.time.store(parsed.time, Ordering::Release);
    }

    /// Loads every field, one field at a time.
    pub fn snapshot(&self) -> Parsed {
        Parsed {
            cov: self.cov.load(Ordering::Acquire),
            ft: self.ft.load(Ordering::Acquire),
            corp: self.corp.load(Ordering::Acquire),
            corp_size: self.corp_size.load(Ordering::Acquire),
            exec_s: self.exec_s.load(Ordering::Acquire),
            oom: self.oom.load(Ordering::Acquire),
            timeout: self.timeout.load(Ordering::Acquire),
            crash: self.crash.load(Ordering::Acquire),
            time: self.time.load(Ordering::Acquire),
        }
    }

    /// Handles one line of this record's source: where it is recognized, its
    /// numbers are stored and returned; otherwise the record is left alone
    /// and `None` is returned.
    pub fn ingest(&self, line: &str) -> (r: Option<Parsed>)
        ensures
            r == parse_any(line.spec_bytes()),
    {
        let parsed = crate::line::parse(line);
        match parsed {
            Some(p) => {
                self.update(&p);
            },
            None => {},
        }
        parsed
    }
}

} // verus!
