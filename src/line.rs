//! The two progress-line grammars of the fuzzing engine and the record they
//! produce.
use vstd::prelude::*;
use vstd::string::*;
use crate::scan::{
    rest_at, skip_until, skip_until_at, space1, space1_at, tag, tag_at, uint32, uint32_at, uint64,
    uint64_at, value_at,
};

verus! {

/// The numbers that one progress line reports. Fields that a format does not
/// carry are zero.
#[derive(Clone, Copy, Debug, PartialEq, Eq, Structural)]
pub struct Parsed {
    pub cov: u32,
    pub ft: u32,
    pub corp: u32,
    pub corp_size: u64,
    pub exec_s: u32,
    pub oom: u32,
    pub timeout: u32,
    pub crash: u32,
    pub time: u32,
}

impl Parsed {
    /// The record of a source that has reported nothing yet.
    pub open spec fn zero() -> Parsed {
        Parsed { cov: 0, ft: 0, corp: 0, corp_size: 0, exec_s: 0, oom: 0, timeout: 0, crash: 0, time: 0 }
    }

    pub fn new() -> (r: Parsed)
        ensures
            r == Parsed::zero(),
    {
        Parsed { cov: 0, ft: 0, corp: 0, corp_size: 0, exec_s: 0, oom: 0, timeout: 0, crash: 0, time: 0 }
    }

    /// Reads a line of the forked engine's output.
    pub fn from_log(log: &str) -> (r: Option<Parsed>)
        ensures
            r == parse_fork(log.spec_bytes()),
    {
        parse_fork_mode(log)
    }

    /// Reads a line of a reloading job's output.
    pub fn from_log_job(log: &str) -> (r: Option<Parsed>)
        ensures
            r == parse_job(log.spec_bytes()),
    {
        parse_job_mode(log)
    }
}

/// `cov:`
pub open spec fn lit_cov() -> Seq<u8> {
    seq![99u8, 111u8, 118u8, 58u8]
}

/// `ft:`
pub open spec fn lit_ft() -> Seq<u8> {
    seq![102u8, 116u8, 58u8]
}

/// `corp:`
pub open spec fn lit_corp() -> Seq<u8> {
    seq![99u8, 111u8, 114u8, 112u8, 58u8]
}

/// `exec/s`
pub open spec fn lit_exec() -> Seq<u8> {
    seq![101u8, 120u8, 101u8, 99u8, 47u8, 115u8]
}

/// `:`
pub open spec fn lit_colon() -> Seq<u8> {
    seq![58u8]
}

/// `exec/s:`
pub open spec fn lit_exec_colon() -> Seq<u8> {
    lit_exec() + lit_colon()
}

/// `oom/timeout/crash:`
pub open spec fn lit_counts() -> Seq<u8> {
    seq![
        111u8, 111u8, 109u8, 47u8, 116u8, 105u8, 109u8, 101u8, 111u8,
        117u8, 116u8, 47u8, 99u8, 114u8, 97u8, 115u8, 104u8, 58u8,
    ]
}

/// `time:`
pub open spec fn lit_time() -> Seq<u8> {
    seq![116u8, 105u8, 109u8, 101u8, 58u8]
}

/// `/`
pub open spec fn lit_slash() -> Seq<u8> {
    seq![47u8]
}

/// `s`
pub open spec fn lit_s() -> Seq<u8> {
    seq![115u8]
}

/// `Kb`
pub open spec fn lit_kb() -> Seq<u8> {
    seq![75u8, 98u8]
}

/// `Mb`
pub open spec fn lit_mb() -> Seq<u8> {
    seq![77u8, 98u8]
}

/// `b`
pub open spec fn lit_b() -> Seq<u8> {
    seq![98u8]
}

/// `label`, blanks, then a `u32`.
pub open spec fn labeled(s: Seq<u8>, label: Seq<u8>) -> Option<(u32, Seq<u8>)> {
    match tag(s, label) {
        Some(a) => match space1(a) {
            Some(b) => uint32(b),
            None => None,
        },
        None => None,
    }
}

/// Blanks, then `labeled`.
pub open spec fn next_labeled(s: Seq<u8>, label: Seq<u8>) -> Option<(u32, Seq<u8>)> {
    match space1(s) {
        Some(a) => labeled(a, label),
        None => None,
    }
}

/// Blanks, `exec/s` with or without a colon, blanks, then a `u32`.
pub open spec fn exec_loose(s: Seq<u8>) -> Option<(u32, Seq<u8>)> {
    match space1(s) {
        Some(a) => match tag(a, lit_exec()) {
            Some(b) => match space1(b) {
                Some(c) => uint32(c),
                None => labeled(b, lit_colon()),
            },
            None => None,
        },
        None => None,
    }
}

/// Blanks, `oom/timeout/crash:`, blanks, then three `u32`s split by `/`.
pub open spec fn counts(s: Seq<u8>) -> Option<(u32, u32, u32, Seq<u8>)> {
    match next_labeled(s, lit_counts()) {
        Some((oom, a)) => match tag(a, lit_slash()) {
            Some(b) => match uint32(b) {
                Some((timeout, c)) => match tag(c, lit_slash()) {
                    Some(d) => match uint32(d) {
                        Some((crash, e)) => Some((oom, timeout, crash, e)),
                        None => None,
                    },
                    None => None,
                },
                None => None,
            },
            None => None,
        },
        None => None,
    }
}

/// Blanks, `time:`, blanks, a `u32`, then `s`.
pub open spec fn elapsed(s: Seq<u8>) -> Option<u32> {
    match next_labeled(s, lit_time()) {
        Some((time, a)) => match tag(a, lit_s()) {
            Some(_) => Some(time),
            None => None,
        },
        None => None,
    }
}

/// Format A from its `cov:` anchor on: every field in fixed order, and
/// anything after the elapsed time ignored.
pub open spec fn fork_fields(s: Seq<u8>) -> Option<Parsed> {
    match labeled(s, lit_cov()) {
        Some((cov, a)) => match next_labeled(a, lit_ft()) {
            Some((ft, b)) => match next_labeled(b, lit_corp()) {
                Some((corp, c)) => match exec_loose(c) {
                    Some((exec_s, d)) => match counts(d) {
                        Some((oom, timeout, crash, e)) => match elapsed(e) {
                            Some(time) => Some(
                                Parsed { cov, ft, corp, corp_size: 0, exec_s, oom, timeout, crash, time },
                            ),
                            None => None,
                        },
                        None => None,
                    },
                    None => None,
                },
                None => None,
            },
            None => None,
        },
        None => None,
    }
}

/// Format A: the line from its first `cov:` on is `fork_fields`.
pub open spec fn parse_fork(line: Seq<u8>) -> Option<Parsed> {
    match skip_until(line, lit_cov()) {
        Some(s) => fork_fields(s),
        None => None,
    }
}

/// A size unit and the number of bytes it stands for.
pub open spec fn unit(s: Seq<u8>) -> Option<(u64, Seq<u8>)> {
    if tag(s, lit_kb()) is Some {
        Some((1024, tag(s, lit_kb())->0))
    } else if tag(s, lit_mb()) is Some {
        Some((1048576, tag(s, lit_mb())->0))
    } else if tag(s, lit_b()) is Some {
        Some((1, tag(s, lit_b())->0))
    } else {
        None
    }
}

/// A size with its unit, in bytes, where that fits in a `u64`.
pub open spec fn size(s: Seq<u8>) -> Option<(u64, Seq<u8>)> {
    match uint64(s) {
        Some((n, a)) => match unit(a) {
            Some((m, b)) => if n * m <= u64::MAX {
                Some(((n * m) as u64, b))
            } else {
                None
            },
            None => None,
        },
        None => None,
    }
}

/// Blanks, `corp:`, blanks, the corpus count, then optionally `/` and a size.
/// A `/` must be followed by a well-formed size.
pub open spec fn corpus(s: Seq<u8>) -> Option<(u32, u64, Seq<u8>)> {
    match next_labeled(s, lit_corp()) {
        Some((count, a)) => match tag(a, lit_slash()) {
            Some(b) => match size(b) {
                Some((bytes, c)) => Some((count, bytes, c)),
                None => None,
            },
            None => Some((count, 0, a)),
        },
        None => None,
    }
}

/// Everything up to the next `exec/s:` skipped, then the label, blanks and a `u32`.
pub open spec fn exec_strict(s: Seq<u8>) -> Option<u32> {
    match skip_until(s, lit_exec_colon()) {
        Some(a) => match labeled(a, lit_exec_colon()) {
            Some((v, _)) => Some(v),
            None => None,
        },
        None => None,
    }
}

/// Format B from its `cov:` anchor on.
pub open spec fn job_fields(s: Seq<u8>) -> Option<Parsed> {
    match labeled(s, lit_cov()) {
        Some((cov, a)) => match next_labeled(a, lit_ft()) {
            Some((ft, b)) => match corpus(b) {
                Some((corp, corp_size, c)) => match exec_strict(c) {
                    Some(exec_s) => Some(
                        Parsed { cov, ft, corp, corp_size, exec_s, oom: 0, timeout: 0, crash: 0, time: 0 },
                    ),
                    None => None,
                },
                None => None,
            },
            None => None,
        },
        None => None,
    }
}

/// Format B: the line from its first `cov:` on is `job_fields`.
pub open spec fn parse_job(line: Seq<u8>) -> Option<Parsed> {
    match skip_until(line, lit_cov()) {
        Some(s) => job_fields(s),
        None => None,
    }
}

/// Format A where it matches, else Format B.
pub open spec fn parse_any(line: Seq<u8>) -> Option<Parsed> {
    match parse_fork(line) {
        Some(p) => Some(p),
        None => parse_job(line),
    }
}

fn labeled_at(s: &[u8], i: usize, label: &[u8]) -> (r: Option<(u32, usize)>)
    requires
        i <= s@.len(),
    ensures
        value_at(s@, r) == labeled(s@.skip(i as int), label@),
        r matches Some((_, j)) ==> i <= j <= s@.len(),
{
    match tag_at(s, i, label) {
        Some(a) => match space1_at(s, a) {
            Some(b) => uint32_at(s, b),
            None => None,
        },
        None => None,
    }
}

fn next_labeled_at(s: &[u8], i: usize, label: &[u8]) -> (r: Option<(u32, usize)>)
    requires
        i <= s@.len(),
    ensures
        value_at(s@, r) == next_labeled(s@.skip(i as int), label@),
        r matches Some((_, j)) ==> i <= j <= s@.len(),
{
    match space1_at(s, i) {
        Some(a) => labeled_at(s, a, label),
        None => None,
    }
}

fn exec_loose_at(s: &[u8], i: usize) -> (r: Option<(u32, usize)>)
    requires
        i <= s@.len(),
    ensures
        value_at(s@, r) == exec_loose(s@.skip(i as int)),
        r matches Some((_, j)) ==> i <= j <= s@.len(),
{
    let exec = vec![101u8, 120, 101, 99, 47, 115];
    let colon = vec![58u8];
    assert(exec@ =~= lit_exec() && colon@ =~= lit_colon());
    match space1_at(s, i) {
        Some(a) => match tag_at(s, a, exec.as_slice()) {
            Some(b) => match space1_at(s, b) {
                Some(c) => uint32_at(s, c),
                None => labeled_at(s, b, colon.as_slice()),
            },
            None => None,
        },
        None => None,
    }
}

fn counts_at(s: &[u8], i: usize) -> (r: Option<(u32, u32, u32, usize)>)
    requires
        i <= s@.len(),
    ensures
        match (r, counts(s@.skip(i as int))) {
            (Some((o, t, c, j)), Some((o2, t2, c2, rest))) => o == o2 && t == t2 && c == c2
                && i <= j <= s@.len() && s@.skip(j as int) == rest,
            (None, None) => true,
            _ => false,
        },
{
    let label = vec![111u8, 111, 109, 47, 116, 105, 109, 101, 111, 117, 116, 47, 99, 114, 97, 115, 104, 58];
    let slash = vec![47u8];
    assert(label@ =~= lit_counts() && slash@ =~= lit_slash());
    match next_labeled_at(s, i, label.as_slice()) {
        Some((oom, a)) => match tag_at(s, a, slash.as_slice()) {
            Some(b) => match uint32_at(s, b) {
                Some((timeout, c)) => match tag_at(s, c, slash.as_slice()) {
                    Some(d) => match uint32_at(s, d) {
                        Some((crash, e)) => Some((oom, timeout, crash, e)),
                        None => None,
                    },
                    None => None,
                },
                None => None,
            },
            None => None,
        },
        None => None,
    }
}

fn elapsed_at(s: &[u8], i: usize) -> (r: Option<u32>)
    requires
        i <= s@.len(),
    ensures
        r == elapsed(s@.skip(i as int)),
{
    let label = vec![116u8, 105, 109, 101, 58];
    let suffix = vec![115u8];
    assert(label@ =~= lit_time() && suffix@ =~= lit_s());
    match next_labeled_at(s, i, label.as_slice()) {
        Some((time, a)) => match tag_at(s, a, suffix.as_slice()) {
            Some(_) => Some(time),
            None => None,
        },
        None => None,
    }
}

fn cov_label() -> (r: Vec<u8>)
    ensures
        r@ == lit_cov(),
{
    vec![99u8, 111, 118, 58]
}

fn ft_label() -> (r: Vec<u8>)
    ensures
        r@ == lit_ft(),
{
    vec![102u8, 116, 58]
}

fn corp_label() -> (r: Vec<u8>)
    ensures
        r@ == lit_corp(),
{
    vec![99u8, 111, 114, 112, 58]
}

fn fork_fields_at(s: &[u8], i: usize) -> (r: Option<Parsed>)
    requires
        i <= s@.len(),
    ensures
        r == fork_fields(s@.skip(i as int)),
{
    let cov_l = cov_label();
    let ft_l = ft_label();
    let corp_l = corp_label();
    match labeled_at(s, i, cov_l.as_slice()) {
        Some((cov, a)) => match next_labeled_at(s, a, ft_l.as_slice()) {
            Some((ft, b)) => match next_labeled_at(s, b, corp_l.as_slice()) {
                Some((corp, c)) => match exec_loose_at(s, c) {
                    Some((exec_s, d)) => match counts_at(s, d) {
                        Some((oom, timeout, crash, e)) => match elapsed_at(s, e) {
                            Some(time) => Some(
                                Parsed { cov, ft, corp, corp_size: 0, exec_s, oom, timeout, crash, time },
                            ),
                            None => None,
                        },
                        None => None,
                    },
                    None => None,
                },
                None => None,
            },
            None => None,
        },
        None => None,
    }
}

/// Format A on the bytes of a line.
pub fn parse_fork_bytes(s: &[u8]) -> (r: Option<Parsed>)
    ensures
        r == parse_fork(s@),
{
    let cov_l = cov_label();
    assert(s@.skip(0) =~= s@);
    match skip_until_at(s, 0, cov_l.as_slice()) {
        Some(a) => fork_fields_at(s, a),
        None => None,
    }
}

/// Reads a line of the forked engine's output (Format A): from the first
/// `cov:` on, `cov:`, `ft:`, `corp:`, `exec/s` (with or without a colon),
/// `oom/timeout/crash:` and `time:` with their numbers, in that order.
pub fn parse_fork_mode(line: &str) -> (r: Option<Parsed>)
    ensures
        r == parse_fork(line.spec_bytes()),
{
    parse_fork_bytes(line.as_bytes())
}

fn unit_at(s: &[u8], i: usize) -> (r: Option<(u64, usize)>)
    requires
        i <= s@.len(),
    ensures
        value_at(s@, r) == unit(s@.skip(i as int)),
        r matches Some((_, j)) ==> i <= j <= s@.len(),
{
    let kb = vec![75u8, 98];
    let mb = vec![77u8, 98];
    let b = vec![98u8];
    assert(kb@ =~= lit_kb() && mb@ =~= lit_mb() && b@ =~= lit_b());
    match tag_at(s, i, kb.as_slice()) {
        Some(j) => {
            return Some((1024, j));
        },
        None => {},
    }
    match tag_at(s, i, mb.as_slice()) {
        Some(j) => {
            return Some((1048576, j));
        },
        None => {},
    }
    match tag_at(s, i, b.as_slice()) {
        Some(j) => Some((1, j)),
        None => None,
    }
}

fn size_at(s: &[u8], i: usize) -> (r: Option<(u64, usize)>)
    requires
        i <= s@.len(),
    ensures
        value_at(s@, r) == size(s@.skip(i as int)),
        r matches Some((_, j)) ==> i <= j <= s@.len(),
{
    match uint64_at(s, i) {
        Some((n, a)) => match unit_at(s, a) {
            Some((m, b)) => match n.checked_mul(m) {
                Some(bytes) => Some((bytes, b)),
                None => None,
            },
            None => None,
        },
        None => None,
    }
}

fn corpus_at(s: &[u8], i: usize) -> (r: Option<(u32, u64, usize)>)
    requires
        i <= s@.len(),
    ensures
        match (r, corpus(s@.skip(i as int))) {
            (Some((n, b, j)), Some((n2, b2, rest))) => n == n2 && b == b2 && i <= j <= s@.len()
                && s@.skip(j as int) == rest,
            (None, None) => true,
            _ => false,
        },
{
    let corp_l = corp_label();
    let slash = vec![47u8];
    assert(slash@ =~= lit_slash());
    match next_labeled_at(s, i, corp_l.as_slice()) {
        Some((count, a)) => match tag_at(s, a, slash.as_slice()) {
            Some(b) => match size_at(s, b) {
                Some((bytes, c)) => Some((count, bytes, c)),
                None => None,
            },
            None => Some((count, 0, a)),
        },
        None => None,
    }
}

fn exec_strict_at(s: &[u8], i: usize) -> (r: Option<u32>)
    requires
        i <= s@.len(),
    ensures
        r == exec_strict(s@.skip(i as int)),
{
    let label = vec![101u8, 120, 101, 99, 47, 115, 58];
    assert(label@ =~= lit_exec_colon());
    match skip_until_at(s, i, label.as_slice()) {
        Some(a) => match labeled_at(s, a, label.as_slice()) {
            Some((v, _)) => Some(v),
            None => None,
        },
        None => None,
    }
}

fn job_fields_at(s: &[u8], i: usize) -> (r: Option<Parsed>)
    requires
        i <= s@.len(),
    ensures
        r == job_fields(s@.skip(i as int)),
{
    let cov_l = cov_label();
    let ft_l = ft_label();
    match labeled_at(s, i, cov_l.as_slice()) {
        Some((cov, a)) => match next_labeled_at(s, a, ft_l.as_slice()) {
            Some((ft, b)) => match corpus_at(s, b) {
                Some((corp, corp_size, c)) => match exec_strict_at(s, c) {
                    Some(exec_s) => Some(
                        Parsed { cov, ft, corp, corp_size, exec_s, oom: 0, timeout: 0, crash: 0, time: 0 },
                    ),
                    None => None,
                },
                None => None,
            },
            None => None,
        },
        None => None,
    }
}

/// Format B on the bytes of a line.
pub fn parse_job_bytes(s: &[u8]) -> (r: Option<Parsed>)
    ensures
        r == parse_job(s@),
{
    let cov_l = cov_label();
    assert(s@.skip(0) =~= s@);
    match skip_until_at(s, 0, cov_l.as_slice()) {
        Some(a) => job_fields_at(s, a),
        None => None,
    }
}

/// Reads a line of a reloading job's output (Format B): from the first `cov:`
/// on, `cov:`, `ft:` and `corp:` with their numbers, an optional corpus size
/// after a `/` in `Kb`, `Mb` or `b`, then anything up to `exec/s:` and its
/// number, and anything after.
pub fn parse_job_mode(line: &str) -> (r: Option<Parsed>)
    ensures
        r == parse_job(line.spec_bytes()),
{
    parse_job_bytes(line.as_bytes())
}

/// Reads a progress line in either format: Format A where it matches, else
/// Format B; `None` where neither does.
pub fn parse(line: &str) -> (r: Option<Parsed>)
    ensures
        r == parse_any(line.spec_bytes()),
{
    let s = line.as_bytes();
    match parse_fork_bytes(s) {
        Some(p) => Some(p),
        None => parse_job_bytes(s),
    }
}

} // verus!
