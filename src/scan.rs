//! Byte-level building blocks of the line grammars: literals, runs of
//! blanks, unsigned decimals and forward search, each stated as a function
//! from the remaining input to what is left after it.
use vstd::prelude::*;

verus! {

pub open spec fn is_digit(b: u8) -> bool {
    48 <= b && b <= 57
}

/// A space or a tab.
pub open spec fn is_blank(b: u8) -> bool {
    b == 32 || b == 9
}

/// Length of the longest prefix of `s` whose bytes all satisfy `p`.
pub open spec fn run(s: Seq<u8>, p: spec_fn(u8) -> bool) -> nat
    decreases s.len(),
{
    if s.len() > 0 && p(s[0]) {
        1 + run(s.drop_first(), p)
    } else {
        0
    }
}

pub open spec fn digits() -> spec_fn(u8) -> bool {
    |b: u8| is_digit(b)
}

pub open spec fn blanks() -> spec_fn(u8) -> bool {
    |b: u8| is_blank(b)
}

/// Value of a sequence of decimal digits, most significant first.
pub open spec fn dec_value(d: Seq<u8>) -> nat
    decreases d.len(),
{
    if d.len() == 0 {
        0
    } else {
        dec_value(d.drop_last()) * 10 + (d.last() - 48) as nat
    }
}

/// `s` without the literal `t`, if `s` starts with `t`.
pub open spec fn tag(s: Seq<u8>, t: Seq<u8>) -> Option<Seq<u8>> {
    if t.len() <= s.len() && s.take(t.len() as int) == t {
        Some(s.skip(t.len() as int))
    } else {
        None
    }
}

/// `s` without its leading run of blanks, if that run is not empty.
pub open spec fn space1(s: Seq<u8>) -> Option<Seq<u8>> {
    if run(s, blanks()) > 0 {
        Some(s.skip(run(s, blanks()) as int))
    } else {
        None
    }
}

/// An unsigned decimal at the front of `s`: a lone `0`, or a nonzero digit
/// with every digit that follows it. Gives its value and what follows.
pub open spec fn uint(s: Seq<u8>) -> Option<(nat, Seq<u8>)> {
    if s.len() > 0 && s[0] == 48 {
        Some((0, s.skip(1)))
    } else if s.len() > 0 && is_digit(s[0]) {
        let k = run(s, digits());
        Some((dec_value(s.take(k as int)), s.skip(k as int)))
    } else {
        None
    }
}

/// `uint` whose value fits in a `u64`.
pub open spec fn uint64(s: Seq<u8>) -> Option<(u64, Seq<u8>)> {
    match uint(s) {
        Some((v, r)) => if v <= u64::MAX {
            Some((v as u64, r))
        } else {
            None
        },
        None => None,
    }
}

/// `uint` whose value fits in a `u32`.
pub open spec fn uint32(s: Seq<u8>) -> Option<(u32, Seq<u8>)> {
    match uint(s) {
        Some((v, r)) => if v <= u32::MAX {
            Some((v as u32, r))
        } else {
            None
        },
        None => None,
    }
}

/// `s` from the first place where `t` occurs in it, if it occurs.
pub open spec fn skip_until(s: Seq<u8>, t: Seq<u8>) -> Option<Seq<u8>>
    decreases s.len(),
{
    if tag(s, t) is Some {
        Some(s)
    } else if s.len() == 0 {
        None
    } else {
        skip_until(s.drop_first(), t)
    }
}

/// The suffix of `s` at the position `r`, if there is one.
pub open spec fn rest_at(s: Seq<u8>, r: Option<usize>) -> Option<Seq<u8>> {
    match r {
        Some(j) => Some(s.skip(j as int)),
        None => None,
    }
}

/// A value and the suffix of `s` at the position that comes with it.
pub open spec fn value_at<T>(s: Seq<u8>, r: Option<(T, usize)>) -> Option<(T, Seq<u8>)> {
    match r {
        Some((v, j)) => Some((v, s.skip(j as int))),
        None => None,
    }
}

pub open spec fn within(r: Option<usize>, i: usize, n: nat) -> bool {
    r matches Some(j) ==> i <= j && j <= n
}

proof fn lemma_skip_skip(s: Seq<u8>, i: int, k: int)
    requires
        0 <= i,
        0 <= k,
        i + k <= s.len(),
    ensures
        s.skip(i).skip(k) == s.skip(i + k),
{
    assert(s.skip(i).skip(k) =~= s.skip(i + k));
}

/// A run is exactly the prefix whose bytes satisfy `p`, up to the first that does not.
pub proof fn lemma_run(s: Seq<u8>, p: spec_fn(u8) -> bool, k: int)
    requires
        0 <= k <= s.len(),
        forall|m: int| 0 <= m < k ==> #[trigger] p(s[m]),
        k == s.len() || !p(s[k]),
    ensures
        run(s, p) == k,
    decreases k,
{
    if k > 0 {
        let t = s.drop_first();
        assert forall|m: int| 0 <= m < k - 1 implies #[trigger] p(t[m]) by {
            assert(t[m] == s[m + 1]);
        }
        if k < s.len() {
            assert(t[k - 1] == s[k]);
        }
        lemma_run(t, p, k - 1);
    }
}

/// A run is at least as long as any prefix whose bytes all satisfy `p`.
pub proof fn lemma_run_covers(s: Seq<u8>, p: spec_fn(u8) -> bool, k: int)
    requires
        0 <= k <= s.len(),
        forall|m: int| 0 <= m < k ==> #[trigger] p(s[m]),
    ensures
        k <= run(s, p) <= s.len(),
    decreases s.len(),
{
    if s.len() > 0 && p(s[0]) {
        let t = s.drop_first();
        if k > 0 {
            assert forall|m: int| 0 <= m < k - 1 implies #[trigger] p(t[m]) by {
                assert(t[m] == s[m + 1]);
            }
            lemma_run_covers(t, p, k - 1);
        } else {
            lemma_run_covers(t, p, 0);
        }
    } else if k > 0 {
        assert(p(s[0]));
    }
}

/// The value of a prefix of a digit sequence never exceeds the value of the whole.
proof fn lemma_value_prefix(d: Seq<u8>, k: int)
    requires
        0 <= k <= d.len(),
    ensures
        dec_value(d.take(k)) <= dec_value(d),
    decreases d.len(),
{
    if k < d.len() {
        let e = d.drop_last();
        assert(e.take(k) =~= d.take(k));
        lemma_value_prefix(e, k);
    } else {
        assert(d.take(k) =~= d);
    }
}

/// Where `s[i..]` starts with the literal `t`, the position after it.
pub fn tag_at(s: &[u8], i: usize, t: &[u8]) -> (r: Option<usize>)
    requires
        i <= s@.len(),
    ensures
        rest_at(s@, r) == tag(s@.skip(i as int), t@),
        within(r, i, s@.len()),
{
    if s.len() - i < t.len() {
        return None;
    }
    let mut k: usize = 0;
    while k < t.len()
        invariant
            i + t@.len() <= s@.len(),
            s@.len() <= usize::MAX,
            k <= t@.len(),
            forall|m: int| 0 <= m < k ==> s@[i + m] == t@[m],
        decreases t@.len() - k,
    {
        if s[i + k] != t[k] {
            assert(s@.skip(i as int).take(t@.len() as int)[k as int] != t@[k as int]);
            return None;
        }
        k = k + 1;
    }
    assert(s@.skip(i as int).take(t@.len() as int) =~= t@);
    proof {
        lemma_skip_skip(s@, i as int, t@.len() as int);
    }
    Some(i + t.len())
}

/// Where `s[i..]` starts with a nonempty run of blanks, the position after it.
pub fn space1_at(s: &[u8], i: usize) -> (r: Option<usize>)
    requires
        i <= s@.len(),
    ensures
        rest_at(s@, r) == space1(s@.skip(i as int)),
        within(r, i, s@.len()),
{
    let mut j: usize = i;
    while j < s.len() && (s[j] == 32 || s[j] == 9)
        invariant
            i <= j <= s@.len(),
            forall|m: int| i <= m < j ==> is_blank(s@[m]),
        decreases s@.len() - j,
    {
        j = j + 1;
    }
    let ghost t = s@.skip(i as int);
    proof {
        assert forall|m: int| 0 <= m < j - i implies #[trigger] blanks()(t[m]) by {
            assert(t[m] == s@[i + m]);
        }
        if j < s@.len() {
            assert(t[j - i] == s@[j as int]);
        }
        lemma_run(t, blanks(), j - i);
        lemma_skip_skip(s@, i as int, j - i);
    }
    if j == i {
        None
    } else {
        Some(j)
    }
}

/// Where `s[i..]` starts with an unsigned decimal that fits in a `u64`, its
/// value and the position after it.
pub fn uint64_at(s: &[u8], i: usize) -> (r: Option<(u64, usize)>)
    requires
        i <= s@.len(),
    ensures
        value_at(s@, r) == uint64(s@.skip(i as int)),
        r matches Some((_, j)) ==> i < j <= s@.len(),
{
    let ghost t = s@.skip(i as int);
    if i == s.len() {
        return None;
    }
    assert(t[0] == s@[i as int]);
    if s[i] == 48 {
        proof {
            lemma_skip_skip(s@, i as int, 1);
        }
        return Some((0, i + 1));
    }
    if !(48 <= s[i] && s[i] <= 57) {
        return None;
    }
    let mut v: u64 = 0;
    let mut j: usize = i;
    while j < s.len() && 48 <= s[j] && s[j] <= 57
        invariant
            i <= j <= s@.len(),
            t == s@.skip(i as int),
            i < s@.len(),
            s@[i as int] != 48,
            forall|m: int| i <= m < j ==> is_digit(s@[m]),
            v as nat == dec_value(s@.subrange(i as int, j as int)),
        decreases s@.len() - j,
    {
        assert(j < s@.len() && is_digit(s@[j as int]));
        let d: u64 = (s[j] - 48) as u64;
        assert(s@.subrange(i as int, j + 1).drop_last() =~= s@.subrange(i as int, j as int));
        if v > (u64::MAX - d) / 10 {
            proof {
                assert(v * 10 + d > u64::MAX) by (nonlinear_arith)
                    requires
                        v > (u64::MAX - d) / 10,
                        d <= 9,
                ;
                assert forall|m: int| 0 <= m < j + 1 - i implies #[trigger] digits()(t[m]) by {
                    assert(t[m] == s@[i + m]);
                }
                lemma_run_covers(t, digits(), j + 1 - i);
                let e = i + run(t, digits());
                let w = t.take(e - i);
                assert(w.take(j + 1 - i) =~= s@.subrange(i as int, j + 1));
                lemma_value_prefix(w, j + 1 - i);
                let x = s@.subrange(i as int, j + 1);
                assert(dec_value(x) == dec_value(x.drop_last()) * 10 + (x.last() - 48) as nat);
                assert(t[0] == s@[i as int]);
            }
            return None;
        }
        proof {
            assert(v * 10 + d <= u64::MAX) by (nonlinear_arith)
                requires
                    v <= (u64::MAX - d) / 10,
                    d <= 9,
            ;
        }
        v = v * 10 + d;
        j = j + 1;
    }
    proof {
        assert forall|m: int| 0 <= m < j - i implies #[trigger] digits()(t[m]) by {
            assert(t[m] == s@[i + m]);
        }
        if j < s@.len() {
            assert(t[j - i] == s@[j as int]);
        }
        lemma_run(t, digits(), j - i);
        assert(t.take(j - i) =~= s@.subrange(i as int, j as int));
        lemma_skip_skip(s@, i as int, j - i);
    }
    Some((v, j))
}

/// Where `s[i..]` starts with an unsigned decimal that fits in a `u32`, its
/// value and the position after it.
pub fn uint32_at(s: &[u8], i: usize) -> (r: Option<(u32, usize)>)
    requires
        i <= s@.len(),
    ensures
        value_at(s@, r) == uint32(s@.skip(i as int)),
        r matches Some((_, j)) ==> i < j <= s@.len(),
{
    match uint64_at(s, i) {
        Some((v, j)) => if v <= 0xffff_ffff {
            Some((v as u32, j))
        } else {
            None
        },
        None => None,
    }
}

/// The first position at or after `i` where `t` occurs in `s`.
pub fn skip_until_at(s: &[u8], i: usize, t: &[u8]) -> (r: Option<usize>)
    requires
        i <= s@.len(),
    ensures
        rest_at(s@, r) == skip_until(s@.skip(i as int), t@),
        within(r, i, s@.len()),
{
    let mut j: usize = i;
    loop
        invariant
            i <= j <= s@.len(),
            skip_until(s@.skip(i as int), t@) == skip_until(s@.skip(j as int), t@),
        decreases s@.len() - j,
    {
        if tag_at(s, j, t).is_some() {
            return Some(j);
        }
        if j == s.len() {
            return None;
        }
        assert(s@.skip(j as int).drop_first() =~= s@.skip(j + 1));
        j = j + 1;
    }
}

} // verus!
