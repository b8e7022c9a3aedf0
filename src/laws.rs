//! What holds of every well-formed line of either format.
use vstd::prelude::*;
use crate::scan::{
    blanks, dec_value, digits, is_blank, is_digit, lemma_run, run, skip_until, space1, tag, uint, uint32, uint64,
};
use crate::line::{
    counts, elapsed, exec_loose, fork_fields, labeled, lit_colon, lit_corp, lit_counts, lit_cov, lit_exec,
    lit_exec_colon, lit_ft, lit_s, lit_slash, lit_time, next_labeled, parse_fork, Parsed,
    corpus, exec_strict, job_fields, lit_b, lit_kb, lit_mb, parse_job, size, unit,
};

verus! {

/// The decimal digits of `n`, without leading zeros.
pub open spec fn dec(n: nat) -> Seq<u8>
    decreases n,
{
    if n < 10 {
        seq![(48 + n) as u8]
    } else {
        dec(n / 10).push((48 + n % 10) as u8)
    }
}

/// A nonempty run of spaces and tabs.
pub open spec fn is_gap(w: Seq<u8>) -> bool {
    w.len() > 0 && forall|m: int| 0 <= m < w.len() ==> is_blank(#[trigger] w[m])
}

/// `s` does not start with a digit.
pub open spec fn no_digit_first(s: Seq<u8>) -> bool {
    s.len() == 0 || !is_digit(s[0])
}

proof fn lemma_dec_shape(n: nat)
    ensures
        dec(n).len() > 0,
        forall|m: int| 0 <= m < dec(n).len() ==> is_digit(#[trigger] dec(n)[m]),
        dec_value(dec(n)) == n,
        n > 0 ==> dec(n)[0] != 48,
        n == 0 ==> dec(n) == seq![48u8],
    decreases n,
{
    if n < 10 {
        assert(dec(n).drop_last() =~= Seq::<u8>::empty());
        assert(dec_value(Seq::<u8>::empty()) == 0);
        assert(dec_value(dec(n)) == dec_value(dec(n).drop_last()) * 10 + (dec(n).last() - 48) as nat);
    } else {
        lemma_dec_shape(n / 10);
        let d = dec(n);
        assert(d.drop_last() =~= dec(n / 10));
        assert(d.last() == (48 + n % 10) as u8);
        assert(n == (n / 10) * 10 + n % 10);
        assert((d.last() - 48) as nat == n % 10);
        assert(dec_value(d) == dec_value(dec(n / 10)) * 10 + (d.last() - 48) as nat);
        assert forall|m: int| 0 <= m < d.len() implies is_digit(#[trigger] d[m]) by {
            if m < d.len() - 1 {
                assert(d[m] == dec(n / 10)[m]);
            }
        }
        assert(d[0] == dec(n / 10)[0]);
    }
}

/// Reading the digits of `n` gives `n` back and leaves what follows.
pub proof fn lemma_uint_dec(n: nat, rest: Seq<u8>)
    requires
        no_digit_first(rest),
    ensures
        uint(dec(n) + rest) == Some((n, rest)),
        n <= u32::MAX ==> uint32(dec(n) + rest) == Some((n as u32, rest)),
{
    lemma_dec_shape(n);
    let s = dec(n) + rest;
    let k = dec(n).len() as int;
    if n == 0 {
        assert(s.skip(1) =~= rest);
    } else {
        assert forall|m: int| 0 <= m < k implies #[trigger] digits()(s[m]) by {
            assert(s[m] == dec(n)[m]);
        }
        if k < s.len() {
            assert(s[k] == rest[0]);
        }
        lemma_run(s, digits(), k);
        assert(s.take(k) =~= dec(n));
        assert(s.skip(k) =~= rest);
    }
}

/// A literal is taken off the front of what starts with it.
pub proof fn lemma_tag(t: Seq<u8>, rest: Seq<u8>)
    ensures
        tag(t + rest, t) == Some(rest),
{
    assert((t + rest).take(t.len() as int) =~= t);
    assert((t + rest).skip(t.len() as int) =~= rest);
}

/// A literal whose first byte differs from that of `s` is not found at its front.
pub proof fn lemma_tag_miss(s: Seq<u8>, t: Seq<u8>)
    requires
        t.len() > 0,
        s.len() > 0,
        s[0] != t[0],
    ensures
        tag(s, t) is None,
{
    if t.len() <= s.len() {
        assert(s.take(t.len() as int)[0] != t[0]);
    }
}

/// A gap is skipped up to the first byte that is not blank.
pub proof fn lemma_gap(w: Seq<u8>, rest: Seq<u8>)
    requires
        is_gap(w),
        rest.len() == 0 || !is_blank(rest[0]),
    ensures
        space1(w + rest) == Some(rest),
{
    let s = w + rest;
    let k = w.len() as int;
    assert forall|m: int| 0 <= m < k implies #[trigger] blanks()(s[m]) by {
        assert(s[m] == w[m]);
    }
    if k < s.len() {
        assert(s[k] == rest[0]);
    }
    lemma_run(s, blanks(), k);
    assert(s.skip(k) =~= rest);
}

/// Where nothing blank starts `s`, there is no gap to skip.
pub proof fn lemma_no_gap(s: Seq<u8>)
    requires
        s.len() > 0,
        !is_blank(s[0]),
    ensures
        space1(s) is None,
{
    lemma_run(s, blanks(), 0);
}

/// `label`, a gap and a number are read as that number.
pub proof fn lemma_labeled(label: Seq<u8>, w: Seq<u8>, n: nat, rest: Seq<u8>)
    requires
        is_gap(w),
        n <= u32::MAX,
        no_digit_first(rest),
    ensures
        labeled(label + (w + (dec(n) + rest)), label) == Some((n as u32, rest)),
{
    lemma_dec_shape(n);
    lemma_tag(label, w + (dec(n) + rest));
    assert((dec(n) + rest)[0] == dec(n)[0]);
    lemma_gap(w, dec(n) + rest);
    lemma_uint_dec(n, rest);
}

/// A gap, `label`, a gap and a number are read as that number.
pub proof fn lemma_next_labeled(w0: Seq<u8>, label: Seq<u8>, w: Seq<u8>, n: nat, rest: Seq<u8>)
    requires
        is_gap(w0),
        label.len() > 0,
        !is_blank(label[0]),
        is_gap(w),
        n <= u32::MAX,
        no_digit_first(rest),
    ensures
        next_labeled(w0 + (label + (w + (dec(n) + rest))), label) == Some((n as u32, rest)),
{
    let s = label + (w + (dec(n) + rest));
    assert(s[0] == label[0]);
    lemma_gap(w0, s);
    lemma_labeled(label, w, n, rest);
}

/// The first place where `t` occurs in `p + s` is the start of `s`, when `s`
/// starts with `t` and `p + t` holds no earlier occurrence of it.
pub proof fn lemma_skip_to(p: Seq<u8>, t: Seq<u8>, rest: Seq<u8>)
    requires
        forall|j: int| 0 <= j < p.len() ==> #[trigger] tag((p + t).skip(j), t) is None,
    ensures
        skip_until(p + (t + rest), t) == Some(t + rest),
    decreases p.len(),
{
    lemma_tag(t, rest);
    if p.len() > 0 {
        let q = p.drop_first();
        let s = p + (t + rest);
        assert(s.drop_first() =~= q + (t + rest));
        assert forall|j: int| 0 <= j < q.len() implies #[trigger] tag((q + t).skip(j), t) is None by {
            assert((q + t).skip(j) =~= (p + t).skip(j + 1));
            assert(tag((p + t).skip(j + 1), t) is None);
        }
        lemma_skip_to(q, t, rest);
        assert(tag((p + t).skip(0), t) is None);
        assert((p + t).skip(0) =~= p + t);
        if t.len() <= s.len() && s.take(t.len() as int) == t {
            assert(s.take(t.len() as int) =~= (p + t).take(t.len() as int));
        }
    } else {
        assert(p + (t + rest) =~= t + rest);
    }
}

proof fn lemma_gap_first(w: Seq<u8>, x: Seq<u8>)
    requires
        is_gap(w),
    ensures
        (w + x).len() > 0,
        is_blank((w + x)[0]),
        no_digit_first(w + x),
{
    assert((w + x)[0] == w[0]);
}

/// `p` holds no occurrence of `t`, not even one that runs on into a `t` after it.
pub open spec fn free_of(p: Seq<u8>, t: Seq<u8>) -> bool {
    forall|j: int| 0 <= j < p.len() ==> #[trigger] tag((p + t).skip(j), t) is None
}

pub open spec fn exec_label(colon: bool) -> Seq<u8> {
    if colon {
        lit_exec_colon()
    } else {
        lit_exec()
    }
}

/// The end of a Format A line from the gap before `time:` on.
pub open spec fn fork_time(p: Parsed, w: Seq<Seq<u8>>, tail: Seq<u8>) -> Seq<u8> {
    w[9] + (lit_time() + (w[10] + (dec(p.time as nat) + (lit_s() + tail))))
}

/// A Format A line from the gap before `oom/timeout/crash:` on.
pub open spec fn fork_counts(p: Parsed, w: Seq<Seq<u8>>, tail: Seq<u8>) -> Seq<u8> {
    w[7] + (lit_counts() + (w[8] + (dec(p.oom as nat) + (lit_slash() + (dec(p.timeout as nat) + (
    lit_slash() + (dec(p.crash as nat) + fork_time(p, w, tail))))))))
}

/// A Format A line from the gap before `exec/s` on.
pub open spec fn fork_exec(p: Parsed, w: Seq<Seq<u8>>, colon: bool, tail: Seq<u8>) -> Seq<u8> {
    w[5] + (exec_label(colon) + (w[6] + (dec(p.exec_s as nat) + fork_counts(p, w, tail))))
}

/// A Format A line from `cov:` on.
pub open spec fn fork_body(p: Parsed, w: Seq<Seq<u8>>, colon: bool, tail: Seq<u8>) -> Seq<u8> {
    lit_cov() + (w[0] + (dec(p.cov as nat) + (w[1] + (lit_ft() + (w[2] + (dec(p.ft as nat) + (w[3] + (
    lit_corp() + (w[4] + (dec(p.corp as nat) + fork_exec(p, w, colon, tail)))))))))))
}

/// A well-formed Format A line that reports the numbers of `p`: `prefix`, then
/// `cov:`, `ft:`, `corp:`, `exec/s` (with a colon where `colon`),
/// `oom/timeout/crash:` and `time:` with their numbers, the gaps `w` between
/// the tokens, and `tail` after the `s` of the elapsed time.
pub open spec fn fork_line(prefix: Seq<u8>, w: Seq<Seq<u8>>, colon: bool, p: Parsed, tail: Seq<u8>) -> Seq<u8> {
    prefix + fork_body(p, w, colon, tail)
}

pub open spec fn gaps(w: Seq<Seq<u8>>, n: nat) -> bool {
    w.len() == n && forall|k: int| 0 <= k < n ==> is_gap(#[trigger] w[k])
}

proof fn lemma_fork_tail(p: Parsed, w: Seq<Seq<u8>>, tail: Seq<u8>)
    requires
        gaps(w, 11),
    ensures
        counts(fork_counts(p, w, tail)) == Some((p.oom, p.timeout, p.crash, fork_time(p, w, tail))),
        elapsed(fork_time(p, w, tail)) == Some(p.time),
        no_digit_first(fork_counts(p, w, tail)),
{
    assert(is_gap(w[7]) && is_gap(w[8]) && is_gap(w[9]) && is_gap(w[10]));
    let ft = fork_time(p, w, tail);
    lemma_gap_first(w[9], lit_time() + (w[10] + (dec(p.time as nat) + (lit_s() + tail))));
    lemma_gap_first(w[7], lit_counts() + (w[8] + (dec(p.oom as nat) + (lit_slash() + (dec(p.timeout as nat) + (
    lit_slash() + (dec(p.crash as nat) + ft)))))));
    lemma_next_labeled(w[9], lit_time(), w[10], p.time as nat, lit_s() + tail);
    lemma_tag(lit_s(), tail);
    let tc = lit_slash() + (dec(p.crash as nat) + ft);
    let tt = lit_slash() + (dec(p.timeout as nat) + tc);
    lemma_next_labeled(w[7], lit_counts(), w[8], p.oom as nat, tt);
    lemma_tag(lit_slash(), dec(p.timeout as nat) + tc);
    lemma_uint_dec(p.timeout as nat, tc);
    lemma_tag(lit_slash(), dec(p.crash as nat) + ft);
    lemma_uint_dec(p.crash as nat, ft);
}

proof fn lemma_fork_exec(p: Parsed, w: Seq<Seq<u8>>, colon: bool, tail: Seq<u8>)
    requires
        gaps(w, 11),
    ensures
        exec_loose(fork_exec(p, w, colon, tail)) == Some((p.exec_s, fork_counts(p, w, tail))),
        no_digit_first(fork_exec(p, w, colon, tail)),
{
    assert(is_gap(w[5]) && is_gap(w[6]));
    lemma_fork_tail(p, w, tail);
    let fc = fork_counts(p, w, tail);
    let x = w[6] + (dec(p.exec_s as nat) + fc);
    let e = exec_label(colon) + x;
    assert(e[0] == exec_label(colon)[0]);
    lemma_gap_first(w[5], e);
    lemma_gap(w[5], e);
    lemma_dec_shape(p.exec_s as nat);
    assert((dec(p.exec_s as nat) + fc)[0] == dec(p.exec_s as nat)[0]);
    if colon {
        assert(e =~= lit_exec() + (lit_colon() + x));
        lemma_tag(lit_exec(), lit_colon() + x);
        assert((lit_colon() + x)[0] == lit_colon()[0]);
        lemma_no_gap(lit_colon() + x);
        lemma_labeled(lit_colon(), w[6], p.exec_s as nat, fc);
    } else {
        lemma_tag(lit_exec(), x);
        lemma_gap(w[6], dec(p.exec_s as nat) + fc);
        lemma_uint_dec(p.exec_s as nat, fc);
    }
}

/// Every well-formed Format A line is read as exactly the numbers it carries,
/// with a corpus size of zero.
pub proof fn law_fork_line(prefix: Seq<u8>, w: Seq<Seq<u8>>, colon: bool, p: Parsed, tail: Seq<u8>)
    requires
        free_of(prefix, lit_cov()),
        gaps(w, 11),
        p.corp_size == 0,
    ensures
        parse_fork(fork_line(prefix, w, colon, p, tail)) == Some(p),
{
    assert(is_gap(w[0]) && is_gap(w[1]) && is_gap(w[2]) && is_gap(w[3]) && is_gap(w[4]));
    lemma_fork_exec(p, w, colon, tail);
    lemma_fork_tail(p, w, tail);
    let fe = fork_exec(p, w, colon, tail);
    let r3 = w[3] + (lit_corp() + (w[4] + (dec(p.corp as nat) + fe)));
    let r1 = w[1] + (lit_ft() + (w[2] + (dec(p.ft as nat) + r3)));
    lemma_gap_first(w[3], lit_corp() + (w[4] + (dec(p.corp as nat) + fe)));
    lemma_gap_first(w[1], lit_ft() + (w[2] + (dec(p.ft as nat) + r3)));
    lemma_labeled(lit_cov(), w[0], p.cov as nat, r1);
    lemma_next_labeled(w[1], lit_ft(), w[2], p.ft as nat, r3);
    lemma_next_labeled(w[3], lit_corp(), w[4], p.corp as nat, fe);
    lemma_skip_to(prefix, lit_cov(), w[0] + (dec(p.cov as nat) + r1));
    let body = fork_body(p, w, colon, tail);
    assert(body == lit_cov() + (w[0] + (dec(p.cov as nat) + r1)));
    assert(p == Parsed {
        cov: p.cov,
        ft: p.ft,
        corp: p.corp,
        corp_size: 0,
        exec_s: p.exec_s,
        oom: p.oom,
        timeout: p.timeout,
        crash: p.crash,
        time: p.time,
    });
}

/// In Format A, `exec/s` with and without its colon give the same record.
pub proof fn law_exec_colon_optional(prefix: Seq<u8>, w: Seq<Seq<u8>>, p: Parsed, tail: Seq<u8>)
    requires
        free_of(prefix, lit_cov()),
        gaps(w, 11),
        p.corp_size == 0,
    ensures
        parse_fork(fork_line(prefix, w, true, p, tail)) == parse_fork(fork_line(prefix, w, false, p, tail)),
        parse_fork(fork_line(prefix, w, true, p, tail))->0.exec_s == p.exec_s,
{
    law_fork_line(prefix, w, true, p, tail);
    law_fork_line(prefix, w, false, p, tail);
}

/// The unit that stands for `m` bytes: `Kb` for 1024, `Mb` for 1024 * 1024,
/// and `b` otherwise.
pub open spec fn unit_lit(m: u64) -> Seq<u8> {
    if m == 1024 {
        lit_kb()
    } else if m == 1048576 {
        lit_mb()
    } else {
        lit_b()
    }
}

pub open spec fn is_unit(m: u64) -> bool {
    m == 1 || m == 1024 || m == 1048576
}

/// The size after a corpus count, if there is one: `/`, the number `n`, and the
/// unit of `m` bytes.
pub open spec fn job_size(sized: Option<(nat, u64)>, rest: Seq<u8>) -> Seq<u8> {
    match sized {
        Some((n, m)) => lit_slash() + (dec(n) + (unit_lit(m) + rest)),
        None => rest,
    }
}

/// A Format B line from the end of its corpus field on.
pub open spec fn job_exec(p: Parsed, w: Seq<Seq<u8>>, middle: Seq<u8>, tail: Seq<u8>) -> Seq<u8> {
    middle + (lit_exec_colon() + (w[5] + (dec(p.exec_s as nat) + tail)))
}

/// A well-formed Format B line that reports the numbers of `p`: `prefix`, then
/// `cov:`, `ft:` and `corp:` with their numbers and the gaps `w` between the
/// tokens, the size `sized` if any, `middle`, then `exec/s:`, a gap, its
/// number and `tail`.
pub open spec fn job_line(
    prefix: Seq<u8>,
    w: Seq<Seq<u8>>,
    p: Parsed,
    sized: Option<(nat, u64)>,
    middle: Seq<u8>,
    tail: Seq<u8>,
) -> Seq<u8> {
    prefix + (lit_cov() + (w[0] + (dec(p.cov as nat) + (w[1] + (lit_ft() + (w[2] + (dec(p.ft as nat)
        + job_corp(p, w, sized, middle, tail))))))))
}

/// A Format B line from the gap before `corp:` on.
pub open spec fn job_corp(
    p: Parsed,
    w: Seq<Seq<u8>>,
    sized: Option<(nat, u64)>,
    middle: Seq<u8>,
    tail: Seq<u8>,
) -> Seq<u8> {
    w[3] + (lit_corp() + (w[4] + (dec(p.corp as nat) + job_size(sized, job_exec(p, w, middle, tail)))))
}

/// The bytes that a size stands for; 0 where the line has none.
pub open spec fn size_bytes(sized: Option<(nat, u64)>) -> int {
    match sized {
        Some((n, m)) => n * m,
        None => 0,
    }
}

/// Each of the three units is read as its number of bytes.
pub proof fn law_unit(m: u64, rest: Seq<u8>)
    requires
        is_unit(m),
    ensures
        unit(unit_lit(m) + rest) == Some((m, rest)),
{
    let s = unit_lit(m) + rest;
    assert(s[0] == unit_lit(m)[0]);
    lemma_tag(unit_lit(m), rest);
    if m != 1024 {
        lemma_tag_miss(s, lit_kb());
        if m != 1048576 {
            lemma_tag_miss(s, lit_mb());
        }
    }
}

/// A size is read as its number times its unit.
pub proof fn law_size(n: nat, m: u64, rest: Seq<u8>)
    requires
        is_unit(m),
        n * m <= u64::MAX,
    ensures
        size(dec(n) + (unit_lit(m) + rest)) == Some(((n * m) as u64, rest)),
{
    let x = unit_lit(m) + rest;
    assert(x[0] == unit_lit(m)[0]);
    lemma_uint_dec(n, x);
    assert(n <= n * m) by (nonlinear_arith)
        requires
            m >= 1,
    ;
    assert(uint64(dec(n) + x) == Some((n as u64, x)));
    law_unit(m, rest);
    assert((n as u64) * m == n * m);
}

/// Every well-formed Format B line is read as exactly the numbers it carries:
/// the corpus size is the size's number times its unit, or 0 without a size,
/// and the counters and elapsed time are 0.
pub proof fn law_job_line(
    prefix: Seq<u8>,
    w: Seq<Seq<u8>>,
    p: Parsed,
    sized: Option<(nat, u64)>,
    middle: Seq<u8>,
    tail: Seq<u8>,
)
    requires
        free_of(prefix, lit_cov()),
        gaps(w, 6),
        free_of(middle, lit_exec_colon()),
        no_digit_first(tail),
        sized matches Some((n, m)) ==> is_unit(m) && n * m <= u64::MAX,
        sized is None && middle.len() > 0 ==> !is_digit(middle[0]) && middle[0] != 47,
        p.corp_size == size_bytes(sized),
        p.oom == 0 && p.timeout == 0 && p.crash == 0 && p.time == 0,
    ensures
        parse_job(job_line(prefix, w, p, sized, middle, tail)) == Some(p),
{
    assert(is_gap(w[0]) && is_gap(w[1]) && is_gap(w[2]) && is_gap(w[3]) && is_gap(w[4]) && is_gap(w[5]));
    let y = lit_exec_colon() + (w[5] + (dec(p.exec_s as nat) + tail));
    let je = job_exec(p, w, middle, tail);
    lemma_skip_to(middle, lit_exec_colon(), w[5] + (dec(p.exec_s as nat) + tail));
    lemma_labeled(lit_exec_colon(), w[5], p.exec_s as nat, tail);
    assert(exec_strict(je) == Some(p.exec_s));
    let js = job_size(sized, je);
    let r4 = w[3] + (lit_corp() + (w[4] + (dec(p.corp as nat) + js)));
    let r1 = w[1] + (lit_ft() + (w[2] + (dec(p.ft as nat) + r4)));
    match sized {
        Some((n, m)) => {
            assert(js[0] == lit_slash()[0]);
            lemma_next_labeled(w[3], lit_corp(), w[4], p.corp as nat, js);
            lemma_tag(lit_slash(), dec(n) + (unit_lit(m) + je));
            law_size(n, m, je);
            assert(corpus(r4) == Some((p.corp, p.corp_size, je)));
        },
        None => {
            if middle.len() > 0 {
                assert(je[0] == middle[0]);
            } else {
                assert(je == y);
                assert(y[0] == lit_exec_colon()[0]);
            }
            lemma_next_labeled(w[3], lit_corp(), w[4], p.corp as nat, je);
            lemma_tag_miss(je, lit_slash());
            assert(corpus(r4) == Some((p.corp, p.corp_size, je)));
        },
    }
    lemma_gap_first(w[3], lit_corp() + (w[4] + (dec(p.corp as nat) + js)));
    lemma_gap_first(w[1], lit_ft() + (w[2] + (dec(p.ft as nat) + r4)));
    lemma_labeled(lit_cov(), w[0], p.cov as nat, r1);
    lemma_next_labeled(w[1], lit_ft(), w[2], p.ft as nat, r4);
    lemma_skip_to(prefix, lit_cov(), w[0] + (dec(p.cov as nat) + r1));
    assert(p == Parsed {
        cov: p.cov,
        ft: p.ft,
        corp: p.corp,
        corp_size: p.corp_size,
        exec_s: p.exec_s,
        oom: 0,
        timeout: 0,
        crash: 0,
        time: 0,
    });
}

/// What is left after a value was read.
spec fn rest_of<T>(r: Option<(T, Seq<u8>)>) -> Seq<u8> {
    match r {
        Some((_, y)) => y,
        None => Seq::empty(),
    }
}

spec fn counts_rest(r: Option<(u32, u32, u32, Seq<u8>)>) -> Seq<u8> {
    match r {
        Some((_, _, _, y)) => y,
        None => Seq::empty(),
    }
}

spec fn corpus_rest(r: Option<(u32, u64, Seq<u8>)>) -> Seq<u8> {
    match r {
        Some((_, _, y)) => y,
        None => Seq::empty(),
    }
}

/// `t` occurs somewhere in `line`.
pub open spec fn occurs(line: Seq<u8>, t: Seq<u8>) -> bool {
    exists|j: int| 0 <= j <= line.len() && #[trigger] tag(line.skip(j), t) is Some
}

pub open spec fn suffix_of(y: Seq<u8>, x: Seq<u8>) -> bool {
    y.len() <= x.len() && y == x.skip(x.len() - y.len())
}

proof fn lemma_suffix_trans(z: Seq<u8>, y: Seq<u8>, x: Seq<u8>)
    requires
        suffix_of(z, y),
        suffix_of(y, x),
    ensures
        suffix_of(z, x),
{
    assert(x.skip(x.len() - y.len()).skip(y.len() - z.len()) =~= x.skip(x.len() - z.len()));
}

proof fn lemma_occurs(line: Seq<u8>, x: Seq<u8>, t: Seq<u8>)
    requires
        suffix_of(x, line),
        tag(x, t) is Some,
    ensures
        occurs(line, t),
{
    let j = line.len() - x.len();
    assert(tag(line.skip(j), t) is Some);
}

proof fn lemma_steps_suffix(x: Seq<u8>, t: Seq<u8>)
    ensures
        tag(x, t) matches Some(y) ==> suffix_of(y, x),
        space1(x) matches Some(y) ==> suffix_of(y, x),
        uint(x) matches Some((_, y)) ==> suffix_of(y, x),
{
    if tag(x, t) is Some {
        assert(x.skip(x.len() - (x.len() - t.len())) =~= x.skip(t.len() as int));
    }
    if space1(x) is Some {
        let k = run(x, blanks());
        crate::scan::lemma_run_covers(x, blanks(), 0);
        assert(x.skip(x.len() - x.skip(k as int).len()) =~= x.skip(k as int));
    }
    if x.len() > 0 && x[0] == 48 {
        assert(x.skip(x.len() - x.skip(1).len()) =~= x.skip(1));
    } else if x.len() > 0 && is_digit(x[0]) {
        let k = run(x, digits());
        crate::scan::lemma_run_covers(x, digits(), 0);
        assert(x.skip(x.len() - x.skip(k as int).len()) =~= x.skip(k as int));
    }
}

proof fn lemma_skip_until_found(x: Seq<u8>, t: Seq<u8>)
    ensures
        skip_until(x, t) matches Some(y) ==> suffix_of(y, x) && tag(y, t) is Some,
    decreases x.len(),
{
    if tag(x, t) is Some {
        assert(x.skip(0) =~= x);
    } else if x.len() > 0 {
        lemma_skip_until_found(x.drop_first(), t);
        if skip_until(x, t) is Some {
            let y = skip_until(x, t)->0;
            assert(x.drop_first() =~= x.skip(1));
            assert(x.skip(1).skip(x.skip(1).len() - y.len()) =~= x.skip(x.len() - y.len()));
        }
    }
}

proof fn lemma_labeled_found(x: Seq<u8>, label: Seq<u8>)
    ensures
        labeled(x, label) matches Some((_, y)) ==> tag(x, label) is Some && suffix_of(y, x),
{
    if labeled(x, label) is Some {
        let a = tag(x, label)->0;
        let b = space1(a)->0;
        let y = rest_of(labeled(x, label));
        lemma_steps_suffix(x, label);
        lemma_steps_suffix(a, label);
        lemma_steps_suffix(b, label);
        lemma_suffix_trans(b, a, x);
        lemma_suffix_trans(y, b, x);
    }
}

proof fn lemma_next_labeled_found(line: Seq<u8>, x: Seq<u8>, label: Seq<u8>)
    requires
        suffix_of(x, line),
    ensures
        next_labeled(x, label) matches Some((_, y)) ==> occurs(line, label) && suffix_of(y, line),
{
    if next_labeled(x, label) is Some {
        let a = space1(x)->0;
        let y = rest_of(next_labeled(x, label));
        lemma_steps_suffix(x, label);
        lemma_suffix_trans(a, x, line);
        lemma_labeled_found(a, label);
        lemma_occurs(line, a, label);
        lemma_suffix_trans(y, a, line);
    }
}

/// Where Format A reads a line, every one of its anchors occurs in the line.
proof fn lemma_fork_anchors(line: Seq<u8>)
    requires
        parse_fork(line) is Some,
    ensures
        occurs(line, lit_cov()),
        occurs(line, lit_ft()),
        occurs(line, lit_corp()),
        occurs(line, lit_exec()),
        occurs(line, lit_counts()),
        occurs(line, lit_time()),
{
    assert(line.skip(0) =~= line);
    lemma_skip_until_found(line, lit_cov());
    let s = skip_until(line, lit_cov())->0;
    lemma_occurs(line, s, lit_cov());
    lemma_labeled_found(s, lit_cov());
    let a = rest_of(labeled(s, lit_cov()));
    lemma_suffix_trans(a, s, line);
    lemma_next_labeled_found(line, a, lit_ft());
    let b = rest_of(next_labeled(a, lit_ft()));
    lemma_next_labeled_found(line, b, lit_corp());
    let c = rest_of(next_labeled(b, lit_corp()));
    let c1 = space1(c)->0;
    lemma_steps_suffix(c, lit_exec());
    lemma_suffix_trans(c1, c, line);
    lemma_occurs(line, c1, lit_exec());
    let e1 = tag(c1, lit_exec())->0;
    lemma_steps_suffix(c1, lit_exec());
    lemma_suffix_trans(e1, c1, line);
    let d = rest_of(exec_loose(c));
    if space1(e1) is Some {
        let e2 = space1(e1)->0;
        lemma_steps_suffix(e1, lit_exec());
        lemma_steps_suffix(e2, lit_exec());
        lemma_suffix_trans(e2, e1, line);
        lemma_suffix_trans(d, e2, line);
    } else {
        lemma_labeled_found(e1, lit_colon());
        lemma_suffix_trans(d, e1, line);
    }
    lemma_next_labeled_found(line, d, lit_counts());
    let g = rest_of(next_labeled(d, lit_counts()));
    let g1 = tag(g, lit_slash())->0;
    lemma_steps_suffix(g, lit_slash());
    lemma_suffix_trans(g1, g, line);
    let g2 = rest_of(uint32(g1));
    lemma_steps_suffix(g1, lit_slash());
    lemma_suffix_trans(g2, g1, line);
    let g3 = tag(g2, lit_slash())->0;
    lemma_steps_suffix(g2, lit_slash());
    lemma_suffix_trans(g3, g2, line);
    let e = counts_rest(counts(d));
    lemma_steps_suffix(g3, lit_slash());
    lemma_suffix_trans(e, g3, line);
    lemma_next_labeled_found(line, e, lit_time());
}

/// Where Format B reads a line, every one of its anchors occurs in the line.
proof fn lemma_job_anchors(line: Seq<u8>)
    requires
        parse_job(line) is Some,
    ensures
        occurs(line, lit_cov()),
        occurs(line, lit_ft()),
        occurs(line, lit_corp()),
        occurs(line, lit_exec_colon()),
{
    lemma_skip_until_found(line, lit_cov());
    let s = skip_until(line, lit_cov())->0;
    lemma_occurs(line, s, lit_cov());
    lemma_labeled_found(s, lit_cov());
    let a = rest_of(labeled(s, lit_cov()));
    lemma_suffix_trans(a, s, line);
    lemma_next_labeled_found(line, a, lit_ft());
    let b = rest_of(next_labeled(a, lit_ft()));
    lemma_next_labeled_found(line, b, lit_corp());
    let c0 = rest_of(next_labeled(b, lit_corp()));
    let c = corpus_rest(corpus(b));
    if tag(c0, lit_slash()) is Some {
        let h = tag(c0, lit_slash())->0;
        lemma_steps_suffix(c0, lit_slash());
        lemma_suffix_trans(h, c0, line);
        let h1 = rest_of(uint64(h));
        lemma_steps_suffix(h, lit_slash());
        lemma_suffix_trans(h1, h, line);
        let kb = tag(h1, lit_kb());
        let mb = tag(h1, lit_mb());
        lemma_steps_suffix(h1, lit_kb());
        let bb = tag(h1, lit_b());
        if kb is Some {
        } else if mb is Some {
            lemma_steps_suffix(h1, lit_mb());
        } else {
            lemma_steps_suffix(h1, lit_b());
        }
        lemma_suffix_trans(c, h1, line);
    }
    lemma_skip_until_found(c, lit_exec_colon());
    let x = skip_until(c, lit_exec_colon())->0;
    lemma_suffix_trans(x, c, line);
    lemma_occurs(line, x, lit_exec_colon());
}

/// A line that lacks one of Format A's anchors is not read as Format A, and
/// one that lacks one of Format B's is not read as Format B; a line that lacks
/// an anchor of both is read as neither.
pub proof fn law_missing_anchor(line: Seq<u8>)
    ensures
        !occurs(line, lit_cov()) || !occurs(line, lit_ft()) || !occurs(line, lit_corp())
            || !occurs(line, lit_exec()) || !occurs(line, lit_counts()) || !occurs(line, lit_time())
            ==> parse_fork(line) is None,
        !occurs(line, lit_cov()) || !occurs(line, lit_ft()) || !occurs(line, lit_corp())
            || !occurs(line, lit_exec_colon()) ==> parse_job(line) is None,
{
    if parse_fork(line) is Some {
        lemma_fork_anchors(line);
    }
    if parse_job(line) is Some {
        lemma_job_anchors(line);
    }
}

} // verus!
