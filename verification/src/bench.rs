//! Summaries of benchmark runs.

use vstd::prelude::*;
use vstd::seq_lib::{to_multiset_insert, to_multiset_remove, to_multiset_contains, to_multiset_len};
use crate::error::MiniInferError;
use crate::text::{append_decimal, append_decimal_u64, decimal, digit_char, push_char};
use vstd::string::*;

verus! {

/// An elapsed time as whole seconds and the nanoseconds beyond them.
#[derive(Debug, Clone, Copy, PartialEq, Eq, Structural)]
pub struct Elapsed {
    pub secs: u64,
    pub nanos: u32,
}

/// `a` is no longer than `b`: durations order by seconds, then by
/// nanoseconds.
pub open spec fn elapsed_le(a: Elapsed, b: Elapsed) -> bool {
    a.secs < b.secs || (a.secs == b.secs && a.nanos <= b.nanos)
}

/// `s` is in nondecreasing order.
pub open spec fn sorted_elapsed(s: Seq<Elapsed>) -> bool {
    forall|i: int, j: int| 0 <= i < j < s.len() ==> elapsed_le(#[trigger] s[i], #[trigger] s[j])
}

/// The middle of an odd number of runs, or the two runs around the middle
/// of an even number, whose mean is the median.
#[derive(Debug, Clone, Copy, PartialEq, Eq, Structural)]
pub enum Median {
    Middle(Elapsed),
    Between(Elapsed, Elapsed),
}

/// The shortest, median and longest of a set of elapsed times.
#[derive(Debug, Clone, Copy, PartialEq, Eq, Structural)]
pub struct DurationStats {
    pub min: Elapsed,
    pub median: Median,
    pub max: Elapsed,
}

/// The median of the sorted, nonempty `s`.
pub open spec fn median_of(s: Seq<Elapsed>) -> Median {
    let middle = (s.len() / 2) as int;
    if s.len() % 2 == 0 {
        Median::Between(s[middle - 1], s[middle])
    } else {
        Median::Middle(s[middle])
    }
}

/// The statistics of a sorted, nonempty `s`.
pub open spec fn stats_of(s: Seq<Elapsed>) -> DurationStats {
    DurationStats { min: s[0], median: median_of(s), max: s.last() }
}

fn elapsed_lt(a: Elapsed, b: Elapsed) -> (r: bool)
    ensures
        r == !elapsed_le(b, a),
{
    a.secs < b.secs || (a.secs == b.secs && a.nanos < b.nanos)
}

/// The elapsed times in nondecreasing order.
pub fn sort_elapsed(values: &[Elapsed]) -> (out: Vec<Elapsed>)
    ensures
        sorted_elapsed(out@),
        out@.to_multiset() == values@.to_multiset(),
{
    let mut out: Vec<Elapsed> = Vec::new();
    let mut i: usize = 0;
    assert(values@.take(0) =~= out@);
    while i < values.len()
        invariant
            i <= values@.len(),
            sorted_elapsed(out@),
            out@.to_multiset() == values@.take(i as int).to_multiset(),
        decreases values.len() - i,
    {
        let v = values[i];
        let mut pos: usize = 0;
        while pos < out.len() && !elapsed_lt(v, out[pos])
            invariant
                pos <= out@.len(),
                forall|k: int| 0 <= k < pos ==> elapsed_le(#[trigger] out@[k], v),
            decreases out.len() - pos,
        {
            pos = pos + 1;
        }
        let ghost before = out@;
        out.insert(pos, v);
        proof {
            to_multiset_insert(before, pos as int, v);
            assert(values@.take(i + 1) =~= values@.take(i as int).push(v));
            assert(out@.to_multiset() =~= values@.take(i + 1).to_multiset()) by {
                vstd::seq_lib::to_multiset_build(values@.take(i as int), v);
            }
            assert forall|a: int, b: int| 0 <= a < b < out@.len() implies elapsed_le(
                #[trigger] out@[a],
                #[trigger] out@[b],
            ) by {
                if b < pos {
                    assert(out@[a] == before[a] && out@[b] == before[b]);
                } else if b == pos {
                    assert(out@[a] == before[a]);
                } else if a < pos {
                    assert(out@[a] == before[a] && out@[b] == before[b - 1]);
                    assert(elapsed_le(before[a], v));
                    assert(!elapsed_le(before[pos as int], v));
                    assert(elapsed_le(before[pos as int], before[b - 1]) || pos as int == b - 1);
                } else if a == pos {
                    assert(out@[b] == before[b - 1]);
                    assert(!elapsed_le(before[pos as int], v));
                    assert(elapsed_le(before[pos as int], before[b - 1]) || pos as int == b - 1);
                } else {
                    assert(out@[a] == before[a - 1] && out@[b] == before[b - 1]);
                }
            }
        }
        i = i + 1;
    }
    assert(values@.take(values@.len() as int) =~= values@);
    out
}

/// Elapsed times have one sorted order: two sorted sequences that hold the
/// same elapsed times are equal, so the statistics of a set of runs are
/// determined by the runs.
pub proof fn lemma_sorted_order_unique(s1: Seq<Elapsed>, s2: Seq<Elapsed>)
    requires
        sorted_elapsed(s1),
        sorted_elapsed(s2),
        s1.to_multiset() == s2.to_multiset(),
    ensures
        s1 == s2,
    decreases s1.len(),
{
    to_multiset_len(s1);
    to_multiset_len(s2);
    if s1.len() == 0 {
        assert(s1 =~= s2);
    } else {
        let a = s1[0];
        let b = s2[0];
        to_multiset_contains(s1, a);
        to_multiset_contains(s1, b);
        to_multiset_contains(s2, a);
        to_multiset_contains(s2, b);
        assert(s1[0] == a);
        assert(s2[0] == b);
        assert(s1.contains(a));
        assert(s2.contains(b));
        let i = choose|i: int| 0 <= i < s1.len() && s1[i] == b;
        let j = choose|j: int| 0 <= j < s2.len() && s2[j] == a;
        if i > 0 {
            assert(elapsed_le(s1[0], s1[i]));
        }
        if j > 0 {
            assert(elapsed_le(s2[0], s2[j]));
        }
        assert(a == b);
        to_multiset_remove(s1, 0);
        to_multiset_remove(s2, 0);
        assert(s1.remove(0) =~= s1.drop_first());
        assert(s2.remove(0) =~= s2.drop_first());
        let t1 = s1.drop_first();
        let t2 = s2.drop_first();
        assert(sorted_elapsed(t1)) by {
            assert forall|x: int, y: int| 0 <= x < y < t1.len() implies elapsed_le(#[trigger] t1[x], #[trigger] t1[y]) by {
                assert(t1[x] == s1[x + 1] && t1[y] == s1[y + 1]);
            }
        }
        assert(sorted_elapsed(t2)) by {
            assert forall|x: int, y: int| 0 <= x < y < t2.len() implies elapsed_le(#[trigger] t2[x], #[trigger] t2[y]) by {
                assert(t2[x] == s2[x + 1] && t2[y] == s2[y + 1]);
            }
        }
        lemma_sorted_order_unique(t1, t2);
        assert(s1 =~= s2) by {
            assert forall|k: int| 0 <= k < s1.len() implies s1[k] == s2[k] by {
                if k > 0 {
                    assert(s1[k] == t1[k - 1] && s2[k] == t2[k - 1]);
                }
            }
        }
    }
}

/// The shortest, median and longest of the elapsed times; there must be at
/// least one.
pub fn duration_stats(values: &[Elapsed]) -> (r: Result<DurationStats, MiniInferError>)
    ensures
        values@.len() == 0 ==> r == Err::<DurationStats, MiniInferError>(MiniInferError::EmptyInput),
        values@.len() > 0 ==> exists|s: Seq<Elapsed>|
            s.to_multiset() == values@.to_multiset() && sorted_elapsed(s) && r == Ok::<
                DurationStats,
                MiniInferError,
            >(#[trigger] stats_of(s)),
{
    if values.len() == 0 {
        return Err(MiniInferError::EmptyInput);
    }
    let sorted = sort_elapsed(values);
    proof {
        vstd::seq_lib::to_multiset_len(sorted@);
        vstd::seq_lib::to_multiset_len(values@);
    }
    let n = sorted.len();
    let stats = DurationStats { min: sorted[0], median: median_duration(&sorted), max: sorted[n - 1] };
    assert(stats == stats_of(sorted@));
    Ok(stats)
}

/// The statistics when there is at least one elapsed time.
pub fn optional_duration_stats(values: &[Elapsed]) -> (r: Option<DurationStats>)
    ensures
        values@.len() == 0 ==> r is None,
        values@.len() > 0 ==> exists|s: Seq<Elapsed>|
            s.to_multiset() == values@.to_multiset() && sorted_elapsed(s) && r == Some(
                #[trigger] stats_of(s),
            ),
{
    match duration_stats(values) {
        Ok(stats) => Some(stats),
        Err(_) => None,
    }
}

/// The median splits the runs evenly: for an odd number of runs it is the
/// run with as many runs before it as after it; for an even number it is the
/// pair of runs with as many runs before the first as after the second.
pub proof fn lemma_median_balanced(s: Seq<Elapsed>)
    requires
        s.len() > 0,
    ensures
        s.len() % 2 == 1 ==> exists|k: int|
            0 <= k < s.len() && k == s.len() - 1 - k && median_of(s) == Median::Middle(#[trigger] s[k]),
        s.len() % 2 == 0 ==> exists|k: int|
            1 <= k < s.len() && k - 1 == s.len() - 1 - k && median_of(s) == Median::Between(
                s[k - 1],
                #[trigger] s[k],
            ),
{
    let k = (s.len() / 2) as int;
    if s.len() % 2 == 1 {
        assert(k == s.len() - 1 - k);
        assert(median_of(s) == Median::Middle(s[k]));
    } else {
        assert(k - 1 == s.len() - 1 - k);
        assert(median_of(s) == Median::Between(s[k - 1], s[k]));
    }
}

/// The median of sorted elapsed times.
pub fn median_duration(values: &Vec<Elapsed>) -> (m: Median)
    requires
        values@.len() > 0,
    ensures
        m == median_of(values@),
        values@.len() % 2 == 1 ==> m == Median::Middle(values@[(values@.len() - 1) / 2]),
        values@.len() % 2 == 0 ==> m == Median::Between(
            values@[values@.len() / 2 - 1],
            values@[(values@.len() / 2) as int],
        ),
{
    proof {
        lemma_median_balanced(values@);
    }
    let middle = values.len() / 2;
    if values.len() % 2 == 0 {
        Median::Between(values[middle - 1], values[middle])
    } else {
        Median::Middle(values[middle])
    }
}

/// A benchmark needs at least one run.
pub fn validate_runs(runs: usize) -> (r: Result<(), MiniInferError>)
    ensures
        runs > 0 ==> r is Ok,
        runs == 0 ==> (r matches Err(MiniInferError::InvalidConfig { message })
            && message@ == "runs must be greater than zero"@),
{
    if runs == 0 {
        return Err(MiniInferError::InvalidConfig { message: String::from_str("runs must be greater than zero") });
    }
    Ok(())
}

/// Whether two series of runs decoded the same texts, run by run.
pub fn comparison_outputs_match(no_cache: &[String], kv_cache: &[String]) -> (r: bool)
    ensures
        r == (no_cache@.len() == kv_cache@.len() && forall|i: int|
            0 <= i < no_cache@.len() ==> #[trigger] no_cache@[i]@ == kv_cache@[i]@),
{
    if no_cache.len() != kv_cache.len() {
        return false;
    }
    let mut i: usize = 0;
    while i < no_cache.len()
        invariant
            i <= no_cache@.len() == kv_cache@.len(),
            forall|j: int| 0 <= j < i ==> #[trigger] no_cache@[j]@ == kv_cache@[j]@,
        decreases no_cache.len() - i,
    {
        if no_cache[i] != kv_cache[i] {
            return false;
        }
        i = i + 1;
    }
    true
}

/// The unit a byte count is shown in.
#[derive(Debug, Clone, Copy, PartialEq, Eq, Structural)]
pub enum ByteScale {
    Bytes,
    KiB,
    MiB,
}

/// Byte counts of at least 1 MiB are shown in MiB, of at least 1 KiB in
/// KiB, smaller ones as a plain count.
pub fn byte_scale(bytes: usize) -> (s: ByteScale)
    ensures
        bytes >= 1048576 ==> s == ByteScale::MiB,
        1024 <= bytes < 1048576 ==> s == ByteScale::KiB,
        bytes < 1024 ==> s == ByteScale::Bytes,
{
    if bytes >= 1048576 {
        ByteScale::MiB
    } else if bytes >= 1024 {
        ByteScale::KiB
    } else {
        ByteScale::Bytes
    }
}

/// `bytes` in thousandths of `unit`, rounded to the nearest thousandth, a
/// tie going to the even one.
pub open spec fn rounded_thousandths(bytes: nat, unit: nat) -> nat {
    let q = (bytes * 1000) / unit;
    let r = (bytes * 1000) % unit;
    if 2 * r > unit || (2 * r == unit && q % 2 == 1) {
        q + 1
    } else {
        q
    }
}

/// A count of thousandths written with three decimal places.
pub open spec fn three_places(t: nat) -> Seq<char> {
    decimal(t / 1000) + "."@ + seq![digit_char((t / 100) % 10), digit_char((t / 10) % 10), digit_char(t % 10)]
}

/// How a byte count is shown: the count, and from 1 KiB on its size in the
/// unit `byte_scale` picks, to three decimal places.
pub open spec fn bytes_text(bytes: nat) -> Seq<char> {
    if bytes >= 1048576 {
        decimal(bytes) + " bytes ("@ + three_places(rounded_thousandths(bytes, 1048576)) + " MiB)"@
    } else if bytes >= 1024 {
        decimal(bytes) + " bytes ("@ + three_places(rounded_thousandths(bytes, 1024)) + " KiB)"@
    } else {
        decimal(bytes) + " bytes"@
    }
}

fn thousandths_of(bytes: usize, unit: u128) -> (t: u64)
    requires
        unit == 1024 || unit == 1048576,
    ensures
        t == rounded_thousandths(bytes as nat, unit as nat),
{
    let scaled: u128 = (bytes as u128) * 1000;
    let q: u128 = scaled / unit;
    let r: u128 = scaled % unit;
    proof {
        assert(q <= scaled / 1024) by (nonlinear_arith)
            requires
                unit >= 1024,
                q == scaled / unit,
                scaled >= 0,
        ;
        assert(scaled / 1024 < 0xffff_ffff_ffff_ffff) by (nonlinear_arith)
            requires
                scaled == bytes * 1000,
                bytes <= 0xffff_ffff_ffff_ffff,
        ;
    }
    let up = 2 * r > unit || (2 * r == unit && q % 2 == 1);
    let t: u128 = if up {
        q + 1
    } else {
        q
    };
    t as u64
}

fn append_three_places(s: &mut String, t: u64)
    ensures
        final(s)@ == old(s)@ + three_places(t as nat),
{
    append_decimal_u64(s, t / 1000);
    s.append(".");
    push_char(s, (((48 + (t / 100) % 10) as u8) as char));
    push_char(s, (((48 + (t / 10) % 10) as u8) as char));
    push_char(s, (((48 + t % 10) as u8) as char));
    proof {
        assert(s@ =~= old(s)@ + three_places(t as nat));
    }
}

/// A byte count for people to read: the count, and from 1 KiB on its size
/// in KiB or MiB to three decimal places.
pub fn format_bytes(bytes: usize) -> (s: String)
    ensures
        s@ == bytes_text(bytes as nat),
{
    let mut s = String::new();
    append_decimal(&mut s, bytes);
    match byte_scale(bytes) {
        ByteScale::MiB => {
            s.append(" bytes (");
            append_three_places(&mut s, thousandths_of(bytes, 1048576));
            s.append(" MiB)");
        },
        ByteScale::KiB => {
            s.append(" bytes (");
            append_three_places(&mut s, thousandths_of(bytes, 1024));
            s.append(" KiB)");
        },
        ByteScale::Bytes => {
            s.append(" bytes");
        },
    }
    proof {
        assert(s@ =~= bytes_text(bytes as nat));
    }
    s
}

} // verus!
