use vstd::prelude::*;
use vstd::string::StringExecFns;

pub mod digits;
pub mod fill_by_nines;
pub mod fill_by_zeros;

use crate::digits::{pow10, decimal_digits, decimal_chars, num_digits, Base10DigitIterator,
    lemma_pow10_values, lemma_pow10_increases, lemma_decimal_digits_len_bound,
    lemma_num_digits_bounds, lemma_num_digits_monotone};
use crate::fill_by_nines::{nines_fill_spec, lemma_nines_fill_bounds, lemma_nines_fill_mono,
    lemma_nines_fill_small, FillByNinesIterator};
use crate::fill_by_zeros::{zeros_stop_spec, lemma_zeros_stop_le_max, lemma_zeros_stop_mono,
    FillByZerosIterator};

verus! {

/// Relies on String::push: appends the given character to the end of the string.
pub assume_specification[ String::push ](s: &mut String, ch: char)
    ensures
        final(s)@ == old(s)@.push(ch),
;

/// Relies on String::pop: removes and returns the last character, or None
/// when the string is empty.
pub assume_specification[ String::pop ](s: &mut String) -> (r: Option<char>)
    ensures
        old(s)@.len() == 0 ==> (r == Option::<char>::None && final(s)@ == old(s)@),
        old(s)@.len() > 0 ==> (r == Some(old(s)@.last()) && final(s)@ == old(s)@.drop_last()),
;

pub open spec fn strictly_ascending(s: Seq<i64>) -> bool {
    forall|i: int, j: int| 0 <= i < j < s.len() ==> s[i] < s[j]
}

pub open spec fn strictly_descending(s: Seq<i64>) -> bool {
    forall|i: int, j: int| 0 <= i < j < s.len() ==> s[i] > s[j]
}

pub open spec fn descending(s: Seq<i64>) -> bool {
    forall|i: int, j: int| 0 <= i < j < s.len() ==> s[i] >= s[j]
}

/// `v` is a breakpoint produced by the nines stepper inside `[min, max]`.
pub open spec fn is_nines_stop(min: int, max: int, v: int) -> bool {
    exists|k: nat| 1 <= k && v == nines_fill_spec(min, k) && v <= max
}

/// `v` is a breakpoint produced by the zeros stepper inside `(min, max]`.
pub open spec fn is_zeros_stop(min: int, max: int, v: int) -> bool {
    exists|k: nat| 1 <= k && v == zeros_stop_spec(max, k) && min < v
}

/// `v` is the upper endpoint of one of the sub-ranges `[min, max]` splits into.
pub open spec fn is_stop(min: int, max: int, v: int) -> bool {
    v == max || is_nines_stop(min, max, v) || is_zeros_stop(min, max, v)
}

pub open spec fn matches_stops(min: int, max: int, s: Seq<i64>) -> bool {
    strictly_ascending(s) && (forall|v: i64| s.contains(v) <==> is_stop(min, max, v as int))
}

/// The ascending, duplicate-free sequence of sub-range upper endpoints for
/// `[min, max]`: uniquely determined by its membership and its order.
pub open spec fn spec_stops(min: int, max: int) -> Seq<i64> {
    choose|s: Seq<i64>| matches_stops(min, max, s)
}

/// Two strictly ascending runs with the same members are the same run.
pub proof fn lemma_sorted_same_membership(s1: Seq<i64>, s2: Seq<i64>)
    requires
        strictly_ascending(s1),
        strictly_ascending(s2),
        forall|v: i64| s1.contains(v) <==> s2.contains(v),
    ensures
        s1 == s2,
    decreases s1.len(),
{
    if s1.len() == 0 {
        if s2.len() > 0 {
            assert(s2.contains(s2[0]));
            assert(s1.contains(s2[0]));
            assert(false);
        }
        assert(s1 =~= s2);
    } else {
        assert(s1.contains(s1[0]));
        assert(s2.contains(s1[0]));
        assert(s2.len() > 0);
        assert(s2.contains(s2[0]));
        assert(s1.contains(s2[0]));
        let i1 = choose|t: int| 0 <= t < s1.len() && s1[t] == s2[0];
        let i2 = choose|t: int| 0 <= t < s2.len() && s2[t] == s1[0];
        if s2[0] < s1[0] {
            assert(s1[i1] == s2[0]);
            assert(i1 > 0);
            assert(s1[0] < s1[i1]);
            assert(false);
        }
        if s1[0] < s2[0] {
            assert(s2[i2] == s1[0]);
            assert(i2 > 0);
            assert(s2[0] < s2[i2]);
            assert(false);
        }
        let t1 = s1.skip(1);
        let t2 = s2.skip(1);
        assert forall|v: i64| t1.contains(v) implies t2.contains(v) by {
            let t = choose|t: int| 0 <= t < t1.len() && t1[t] == v;
            assert(s1[t + 1] == v);
            assert(s1.contains(v));
            assert(s2.contains(v));
            let u = choose|u: int| 0 <= u < s2.len() && s2[u] == v;
            assert(s1[0] < v);
            assert(u > 0);
            assert(t2[u - 1] == v);
        }
        assert forall|v: i64| t2.contains(v) implies t1.contains(v) by {
            let t = choose|t: int| 0 <= t < t2.len() && t2[t] == v;
            assert(s2[t + 1] == v);
            assert(s2.contains(v));
            assert(s1.contains(v));
            let u = choose|u: int| 0 <= u < s1.len() && s1[u] == v;
            assert(s2[0] < v);
            assert(u > 0);
            assert(t1[u - 1] == v);
        }
        lemma_sorted_same_membership(t1, t2);
        assert(s1.len() == s2.len());
        assert forall|w: int| 0 <= w < s1.len() implies s1[w] == s2[w] by {
            if w > 0 {
                assert(t1[w - 1] == s1[w]);
                assert(t2[w - 1] == s2[w]);
            }
        }
        assert(s1 =~= s2);
    }
}

/// Merges a strictly descending vector with a descending run, leaving in the
/// vector the strictly ascending, duplicate-free union of both.
pub fn merge_desc_to_asc(a: &mut Vec<i64>, b: &Vec<i64>)
    requires
        strictly_descending(old(a)@),
        descending(b@),
    ensures
        strictly_ascending(final(a)@),
        forall|v: i64|
            #![trigger final(a)@.contains(v)]
            #![trigger old(a)@.contains(v)]
            #![trigger b@.contains(v)]
            final(a)@.contains(v) <==> (old(a)@.contains(v) || b@.contains(v)),
{
    let mut out: Vec<i64> = Vec::new();
    let mut i: usize = a.len();
    let mut j: usize = b.len();
    while i > 0 || j > 0
        invariant
            i <= a@.len(),
            j <= b@.len(),
            a@ == old(a)@,
            strictly_descending(a@),
            descending(b@),
            strictly_ascending(out@),
            forall|v: i64| out@.contains(v) <==> ((exists|k: int| i <= k < a@.len() && a@[k] == v)
                || (exists|k: int| j <= k < b@.len() && b@[k] == v)),
            out@.len() > 0 && i > 0 ==> a@[i - 1] >= out@.last(),
            out@.len() > 0 && j > 0 ==> b@[j - 1] >= out@.last(),
        decreases i + j,
    {
        let take_a: bool = if i > 0 && j > 0 {
            a[i - 1] <= b[j - 1]
        } else {
            i > 0
        };
        let ghost i0 = i as int;
        let ghost j0 = j as int;
        let cand: i64;
        if take_a {
            cand = a[i - 1];
            i = i - 1;
        } else {
            cand = b[j - 1];
            j = j - 1;
        }
        let ghost prev_out = out@;
        let push_it: bool = out.len() == 0 || out[out.len() - 1] != cand;
        if push_it {
            proof {
                if out@.len() > 0 {
                    assert(out@.last() <= cand);
                }
            }
            out.push(cand);
        }
        proof {
            if push_it {
                assert(out@ == prev_out.push(cand));
                assert(out@[out@.len() - 1] == cand);
            } else {
                assert(prev_out.len() > 0 && prev_out[prev_out.len() - 1] == cand);
            }
            assert(out@.contains(cand));
            assert forall|x: int, y: int| 0 <= x < y < out@.len() implies out@[x] < out@[y] by {
                if push_it && y == out@.len() - 1 {
                    assert(out@[x] == prev_out[x]);
                    if x < prev_out.len() - 1 {
                        assert(prev_out[x] < prev_out[prev_out.len() - 1]);
                    }
                    assert(prev_out[prev_out.len() - 1] != cand);
                    assert(prev_out[prev_out.len() - 1] <= cand);
                }
            }
            assert forall|v: i64| out@.contains(v) implies ((exists|k: int| i <= k < a@.len()
                && a@[k] == v) || (exists|k: int| j <= k < b@.len() && b@[k] == v)) by {
                let t = choose|t: int| 0 <= t < out@.len() && out@[t] == v;
                if push_it && t == out@.len() - 1 {
                    assert(v == cand);
                    if take_a {
                        assert(a@[i as int] == cand);
                    } else {
                        assert(b@[j as int] == cand);
                    }
                } else {
                    assert(prev_out[t] == v);
                    assert(prev_out.contains(v));
                }
            }
            assert forall|v: i64| ((exists|k: int| i <= k < a@.len() && a@[k] == v) || (exists|
                k: int|
                j <= k < b@.len() && b@[k] == v)) implies out@.contains(v) by {
                if v == cand {
                    assert(out@.contains(cand));
                } else {
                    if exists|k: int| i <= k < a@.len() && a@[k] == v {
                        let k = choose|k: int| i <= k < a@.len() && a@[k] == v;
                        assert(i0 <= k < a@.len());
                        assert(prev_out.contains(v));
                        let t = choose|t: int| 0 <= t < prev_out.len() && prev_out[t] == v;
                        assert(out@[t] == v);
                    } else {
                        let k = choose|k: int| j <= k < b@.len() && b@[k] == v;
                        assert(j0 <= k < b@.len());
                        assert(prev_out.contains(v));
                        let t = choose|t: int| 0 <= t < prev_out.len() && prev_out[t] == v;
                        assert(out@[t] == v);
                    }
                }
            }
        }
    }
    proof {
        assert forall|v: i64| (old(a)@.contains(v) || b@.contains(v)) implies out@.contains(v) by {
            if old(a)@.contains(v) {
                let t = choose|t: int| 0 <= t < old(a)@.len() && old(a)@[t] == v;
                assert(a@[t] == v);
            } else {
                let t = choose|t: int| 0 <= t < b@.len() && b@[t] == v;
            }
        }
        assert forall|v: i64| out@.contains(v) implies (old(a)@.contains(v) || b@.contains(v)) by {
            if exists|k: int| 0 <= k < a@.len() && a@[k] == v {
                let t = choose|t: int| 0 <= t < a@.len() && a@[t] == v;
                assert(old(a)@[t] == v);
            }
        }
    }
    *a = out;
}

/// The complete ascending, duplicate-free list of sub-range upper endpoints
/// that partitions `[min, max]` into digit-aligned blocks.
pub fn split_to_ranges(min: i64, max: i64) -> (r: Vec<i64>)
    requires
        0 <= min <= max,
        (max as int) < pow10(17),
    ensures
        strictly_ascending(r@),
        forall|v: i64| r@.contains(v) <==> is_stop(min as int, max as int, v as int),
        r@ == spec_stops(min as int, max as int),
        r@.len() > 0,
        r@[r@.len() - 1] == max,
        forall|idx: int| 0 <= idx < r@.len() ==> min <= #[trigger] r@[idx] <= max,
{
    let mut stops: Vec<i64> = Vec::new();

    // Ascending breakpoints from the nines stepper, deduplicated.
    let mut nines_iterator = FillByNinesIterator::new(min, max);
    loop
        invariant
            nines_iterator.wf(),
            nines_iterator.min == min,
            nines_iterator.max == max,
            0 <= min <= max,
            (max as int) < pow10(17),
            forall|k: nat| 1 <= k < nines_iterator.nines_count ==> nines_fill_spec(min as int, k)
                <= max,
            forall|v: i64| stops@.contains(v) <==> (exists|k: nat| 1 <= k
                < nines_iterator.nines_count && v == nines_fill_spec(min as int, k)),
            strictly_ascending(stops@),
            stops@.len() > 0 ==> stops@.last() == nines_fill_spec(min as int,
                (nines_iterator.nines_count - 1) as nat),
            stops@.len() == 0 ==> nines_iterator.nines_count == 1,
        ensures
            forall|v: i64| stops@.contains(v) <==> is_nines_stop(min as int, max as int, v as int),
            strictly_ascending(stops@),
            forall|idx: int| 0 <= idx < stops@.len() ==> min <= #[trigger] stops@[idx] <= max,
        decreases 19 - nines_iterator.nines_count,
    {
        let ghost prev_count = nines_iterator.nines_count as nat;
        let next_stop: Option<i64> = nines_iterator.next();
        match next_stop {
            Some(stop) => {
                proof {
                    lemma_nines_fill_bounds(min as int, prev_count);
                }
                let ghost prev_stops = stops@;
                let push_it: bool = stops.len() == 0 || stops[stops.len() - 1] != stop;
                if push_it {
                    proof {
                        if stops@.len() > 0 {
                            lemma_nines_fill_mono(min as int, (prev_count - 1) as nat, prev_count);
                            assert(stops@.last() <= stop);
                        }
                    }
                    stops.push(stop);
                }
                proof {
                    if push_it {
                        assert(stops@ == prev_stops.push(stop));
                        assert(stops@[stops@.len() - 1] == stop);
                    } else {
                        assert(prev_stops.len() > 0 && prev_stops[prev_stops.len() - 1] == stop);
                    }
                    assert(stops@.contains(stop));
                    assert forall|x: int, y: int| 0 <= x < y < stops@.len() implies stops@[x]
                        < stops@[y] by {
                        if push_it && y == stops@.len() - 1 {
                            assert(stops@[x] == prev_stops[x]);
                            if x < prev_stops.len() - 1 {
                                assert(prev_stops[x] < prev_stops[prev_stops.len() - 1]);
                            }
                            assert(prev_stops[prev_stops.len() - 1] != stop);
                            assert(prev_stops[prev_stops.len() - 1] <= stop);
                        }
                    }
                    assert forall|v: i64| stops@.contains(v) implies (exists|k: nat| 1 <= k
                        < nines_iterator.nines_count && v == nines_fill_spec(min as int, k)) by {
                        let t = choose|t: int| 0 <= t < stops@.len() && stops@[t] == v;
                        if push_it && t == stops@.len() - 1 {
                            assert(v == nines_fill_spec(min as int, prev_count));
                        } else {
                            assert(prev_stops[t] == v);
                            assert(prev_stops.contains(v));
                        }
                    }
                    assert forall|v: i64| (exists|k: nat| 1 <= k < nines_iterator.nines_count && v
                        == nines_fill_spec(min as int, k)) implies stops@.contains(v) by {
                        let k = choose|k: nat| 1 <= k < nines_iterator.nines_count && v
                            == nines_fill_spec(min as int, k);
                        if k < prev_count {
                            assert(prev_stops.contains(v));
                            let t = choose|t: int| 0 <= t < prev_stops.len() && prev_stops[t] == v;
                            assert(stops@[t] == v);
                        } else {
                            assert(k == prev_count);
                            assert(v == stop);
                        }
                    }
                }
            },
            None => {
                proof {
                    let cut = nines_iterator.nines_count as nat;
                    assert forall|v: i64| stops@.contains(v) implies is_nines_stop(min as int,
                        max as int, v as int) by {
                        let k = choose|k: nat| 1 <= k < cut && v == nines_fill_spec(min as int, k);
                        assert(nines_fill_spec(min as int, k) <= max);
                    }
                    assert forall|v: i64| is_nines_stop(min as int, max as int, v as int) implies
                        stops@.contains(v) by {
                        let k = choose|k: nat| 1 <= k && v as int == nines_fill_spec(min as int, k)
                            && v <= max;
                        if k >= cut {
                            lemma_nines_fill_mono(min as int, cut, k);
                            assert(false);
                        }
                    }
                    assert forall|idx: int| 0 <= idx < stops@.len() implies min <= #[trigger] stops@[idx]
                        <= max by {
                        assert(stops@.contains(stops@[idx]));
                        let k = choose|k: nat| 1 <= k < cut && stops@[idx] as int
                            == nines_fill_spec(min as int, k);
                        lemma_nines_fill_bounds(min as int, k);
                    }
                }
                break;
            },
        }
    }

    // Append max itself when it is not already the last breakpoint.
    let ghost nines_stops = stops@;
    let stops_len: usize = stops.len();
    let push_max: bool = stops_len == 0 || stops[stops_len - 1] != max;
    if push_max {
        stops.push(max);
    }
    proof {
        if push_max {
            assert(stops@ == nines_stops.push(max));
        } else {
            assert(nines_stops[nines_stops.len() - 1] == max);
        }
        assert(stops@[stops@.len() - 1] == max);
        assert forall|v: i64| stops@.contains(v) implies (is_nines_stop(min as int, max as int,
            v as int) || v == max) by {
            let t = choose|t: int| 0 <= t < stops@.len() && stops@[t] == v;
            if push_max && t == stops@.len() - 1 {
                assert(v == max);
            } else {
                assert(nines_stops[t] == v);
                assert(nines_stops.contains(v));
            }
        }
        assert forall|v: i64| (is_nines_stop(min as int, max as int, v as int) || v == max) implies
            stops@.contains(v) by {
            if v == max {
                assert(stops@[stops@.len() - 1] == max);
            } else {
                assert(nines_stops.contains(v));
                let t = choose|t: int| 0 <= t < nines_stops.len() && nines_stops[t] == v;
                assert(stops@[t] == v);
            }
        }
        assert forall|idx2: int| 0 <= idx2 < stops@.len() implies min <= #[trigger] stops@[idx2]
            <= max by {
            if push_max && idx2 == stops@.len() - 1 {
            } else {
                assert(nines_stops[idx2] == stops@[idx2]);
            }
        }
        assert forall|x: int, y: int| 0 <= x < y < stops@.len() implies stops@[x] < stops@[y] by {
            if push_max && y == stops@.len() - 1 {
                assert(stops@[x] == nines_stops[x]);
                assert(nines_stops[x] <= max);
                if nines_stops[x] == max {
                    if x < nines_stops.len() - 1 {
                        assert(nines_stops[x] < nines_stops[nines_stops.len() - 1]);
                        assert(nines_stops[nines_stops.len() - 1] <= max);
                        assert(false);
                    }
                    assert(false);
                }
            }
        }
        assert(strictly_ascending(stops@));
    }

    // Reverse into descending order.
    let mut reversed: Vec<i64> = Vec::new();
    let mut idx: usize = stops.len();
    while idx > 0
        invariant
            idx <= stops@.len(),
            reversed@.len() == stops@.len() - idx,
            forall|t: int| 0 <= t < reversed@.len() ==> #[trigger] reversed@[t] == stops@[stops@.len() - 1
                - t],
        decreases idx,
    {
        idx = idx - 1;
        let item: i64 = stops[idx];
        reversed.push(item);
    }
    proof {
        assert forall|v: i64| reversed@.contains(v) implies stops@.contains(v) by {
            let t = choose|t: int| 0 <= t < reversed@.len() && reversed@[t] == v;
            assert(stops@[stops@.len() - 1 - t] == v);
        }
        assert forall|v: i64| stops@.contains(v) implies reversed@.contains(v) by {
            let t = choose|t: int| 0 <= t < stops@.len() && stops@[t] == v;
            assert(reversed@[stops@.len() - 1 - t] == v);
        }
        assert(strictly_descending(reversed@));
    }

    // Descending breakpoints from the zeros stepper, duplicates kept.
    let mut zeros_vec: Vec<i64> = Vec::new();
    let mut zeros_iterator = FillByZerosIterator::new(min, max);
    loop
        invariant
            zeros_iterator.wf(),
            zeros_iterator.min == min,
            zeros_iterator.max == max,
            0 <= min <= max,
            (max as int) < pow10(17),
            zeros_vec@.len() == zeros_iterator.zeros_count - 1,
            forall|t: int| 0 <= t < zeros_vec@.len() ==> #[trigger] zeros_vec@[t] == zeros_stop_spec(
                max as int, (t + 1) as nat),
            forall|k: nat| 1 <= k < zeros_iterator.zeros_count ==> zeros_stop_spec(max as int, k)
                > min,
        ensures
            forall|v: i64| zeros_vec@.contains(v) <==> is_zeros_stop(min as int, max as int,
                v as int),
            descending(zeros_vec@),
        decreases 19 - zeros_iterator.zeros_count,
    {
        let ghost prev_count = zeros_iterator.zeros_count as nat;
        let next_stop: Option<i64> = zeros_iterator.next();
        match next_stop {
            Some(stop) => {
                zeros_vec.push(stop);
            },
            None => {
                proof {
                    let cut = zeros_iterator.zeros_count as nat;
                    assert forall|v: i64| zeros_vec@.contains(v) implies is_zeros_stop(min as int,
                        max as int, v as int) by {
                        let t = choose|t: int| 0 <= t < zeros_vec@.len() && zeros_vec@[t] == v;
                        let k = (t + 1) as nat;
                        assert(v == zeros_stop_spec(max as int, k));
                        assert(zeros_stop_spec(max as int, k) > min);
                    }
                    assert forall|v: i64| is_zeros_stop(min as int, max as int, v as int) implies
                        zeros_vec@.contains(v) by {
                        let k = choose|k: nat| 1 <= k && v as int == zeros_stop_spec(max as int, k)
                            && min < v;
                        if k >= cut {
                            lemma_zeros_stop_mono(max as int, cut, k);
                            assert(false);
                        } else {
                            assert(zeros_vec@[k - 1] == v);
                        }
                    }
                    assert forall|i1: int, j1: int| 0 <= i1 < j1 < zeros_vec@.len() implies
                        zeros_vec@[i1] >= zeros_vec@[j1] by {
                        lemma_zeros_stop_mono(max as int, (i1 + 1) as nat, (j1 + 1) as nat);
                    }
                }
                break;
            },
        }
    }

    // Consolidating merge of the two descending runs.
    let ghost pre_merge = reversed@;
    merge_desc_to_asc(&mut reversed, &zeros_vec);
    proof {
        assert(forall|v: i64| reversed@.contains(v) <==> (pre_merge.contains(v)
            || zeros_vec@.contains(v)));
        assert forall|v: i64| reversed@.contains(v) implies is_stop(min as int, max as int,
            v as int) by {
            if pre_merge.contains(v) {
                assert(is_nines_stop(min as int, max as int, v as int) || v == max);
            } else {
                assert(zeros_vec@.contains(v));
                assert(is_zeros_stop(min as int, max as int, v as int));
            }
        }
        assert forall|v: i64| is_stop(min as int, max as int, v as int) implies reversed@.contains(
            v) by {
            if v as int == max as int {
                assert(v == max);
                assert(pre_merge.contains(v));
            } else if is_nines_stop(min as int, max as int, v as int) {
                assert(pre_merge.contains(v));
            } else {
                assert(is_zeros_stop(min as int, max as int, v as int));
                assert(zeros_vec@.contains(v));
            }
        }
        assert(matches_stops(min as int, max as int, reversed@));
        let s = spec_stops(min as int, max as int);
        assert(matches_stops(min as int, max as int, s));
        lemma_sorted_same_membership(reversed@, s);
        // every element lies inside the range, and max is a member
        assert forall|t: int| 0 <= t < reversed@.len() implies min <= #[trigger] reversed@[t] <= max by {
            let v = reversed@[t];
            assert(reversed@.contains(v));
            if is_nines_stop(min as int, max as int, v as int) {
                let k = choose|k: nat| 1 <= k && v as int == nines_fill_spec(min as int, k) && v
                    <= max;
                lemma_nines_fill_bounds(min as int, k);
            } else if is_zeros_stop(min as int, max as int, v as int) {
                let k = choose|k: nat| 1 <= k && v as int == zeros_stop_spec(max as int, k) && min
                    < v;
                lemma_zeros_stop_le_max(max as int, k);
            }
        }
        assert(reversed@.contains(max));
        let t = choose|t: int| 0 <= t < reversed@.len() && reversed@[t] == max;
        assert(reversed@.len() > 0);
        if t < reversed@.len() - 1 {
            assert(reversed@[t] < reversed@[reversed@.len() - 1]);
            assert(false);
        }
        assert(reversed@[reversed@.len() - 1] == max);
    }
    reversed
}

/// Every sub-range the splitter yields is digit-length homogeneous: the stop
/// at position `idx` closes a sub-range whose start (one past the previous
/// stop, or `min` for the first) has the same number of decimal digits.
pub proof fn lemma_subranges_digit_homogeneous(min: int, max: int, s: Seq<i64>, idx: int)
    requires
        0 <= min <= max,
        max < pow10(17),
        matches_stops(min, max, s),
        0 <= idx < s.len(),
    ensures
        num_digits(if idx == 0 { min } else { s[idx - 1] + 1 }) == num_digits(s[idx] as int),
{
    let start = if idx == 0 { min } else { s[idx - 1] + 1 };
    let stop = s[idx] as int;
    lemma_pow10_values();
    assert(s.contains(s[idx]));
    assert(is_stop(min, max, stop));
    assert forall|t: int| 0 <= t < s.len() implies min <= #[trigger] s[t] && s[t] <= max by {
        assert(s.contains(s[t]));
        let v = s[t] as int;
        if v == max {
        } else if is_nines_stop(min, max, v) {
            let k = choose|k: nat| 1 <= k && v == nines_fill_spec(min, k) && v <= max;
            lemma_nines_fill_bounds(min, k);
        } else {
            let k = choose|k: nat| 1 <= k && v == zeros_stop_spec(max, k) && min < v;
            lemma_zeros_stop_le_max(max, k);
        }
    }
    assert(min <= start);
    assert(start <= stop);
    assert(stop <= max);
    lemma_num_digits_monotone(start, stop);
    if num_digits(start) != num_digits(stop) {
        let m = num_digits(start);
        assert(1 <= m);
        if start == 0 {
            assert(pow10(0nat) == 1);
            assert(pow10(1nat) == 10);
        } else {
            lemma_num_digits_bounds(start);
        }
        assert(start < pow10(m));
        if stop == 0 {
            assert(start == 0);
            assert(false);
        }
        lemma_num_digits_bounds(stop);
        lemma_pow10_increases(m, (num_digits(stop) - 1) as nat);
        assert(pow10(m) <= stop);
        let w = pow10(m) - 1;
        assert(start <= w && w < stop);
        lemma_nines_fill_small(min, m);
        assert(nines_fill_spec(min, m) == w);
        assert(w <= max);
        assert(is_nines_stop(min, max, w));
        assert(0 <= w && w < pow10(17));
        let wv = w as i64;
        assert(wv as int == w);
        assert(is_stop(min, max, wv as int));
        assert(s.contains(wv));
        let t = choose|t: int| 0 <= t < s.len() && s[t] == wv;
        if t > idx {
            assert(s[idx] < s[t]);
            assert(false);
        }
        if t == idx {
            assert(false);
        }
        if idx == 0 {
            assert(false);
        } else {
            if t < idx - 1 {
                assert(s[t] < s[idx - 1]);
                assert(false);
            }
            assert(t == idx - 1);
            assert(w == start - 1);
            assert(false);
        }
    }
}

/// The regex fragment characters for one position pair, then the rest.
pub open spec fn pat_body(ds: Seq<char>, dt: Seq<char>) -> Seq<char>
    decreases ds.len(),
{
    if ds.len() == 0 || dt.len() == 0 {
        Seq::<char>::empty()
    } else {
        (if ds[0] == dt[0] {
            seq![ds[0]]
        } else if !(ds[0] == '0' && dt[0] == '9') {
            seq!['[', ds[0], '-', dt[0], ']']
        } else {
            Seq::<char>::empty()
        }) + pat_body(ds.skip(1), dt.skip(1))
    }
}

/// How many position pairs span the full `0`-`9` range.
pub open spec fn free_count(ds: Seq<char>, dt: Seq<char>) -> int
    decreases ds.len(),
{
    if ds.len() == 0 || dt.len() == 0 {
        0
    } else {
        (if ds[0] != dt[0] && ds[0] == '0' && dt[0] == '9' {
            1int
        } else {
            0int
        }) + free_count(ds.skip(1), dt.skip(1))
    }
}

pub proof fn lemma_free_count_bounds(ds: Seq<char>, dt: Seq<char>)
    ensures
        0 <= free_count(ds, dt) <= ds.len(),
    decreases ds.len(),
{
    if ds.len() > 0 && dt.len() > 0 {
        lemma_free_count_bounds(ds.skip(1), dt.skip(1));
    }
}

/// The compact regex fragment for the sub-range `[start, stop]`: literal
/// digits where the bounds agree, digit classes where they differ, and one
/// trailing any-digit token, with a count when more than one position is free.
pub open spec fn pattern_of(start: int, stop: int) -> Seq<char> {
    let ds = decimal_chars(start);
    let dt = decimal_chars(stop);
    let fc = free_count(ds, dt);
    pat_body(ds, dt) + (if fc >= 1 {
        seq!['\\', 'd']
    } else {
        Seq::<char>::empty()
    }) + (if fc >= 2 {
        seq!['{'] + decimal_digits(fc) + seq!['}']
    } else {
        Seq::<char>::empty()
    })
}

/// Writes the regex fragment for the sub-range `[start, stop]` into the
/// reusable buffer, replacing its previous contents.
pub fn range_to_pattern(start: i64, stop: i64, pattern_buffer: &mut String)
    requires
        start > i64::MIN,
        stop > i64::MIN,
    ensures
        final(pattern_buffer)@ == pattern_of(start as int, stop as int),
{
    *pattern_buffer = String::new();
    let mut any_digit_count: i64 = 0;
    let mut start_digits = Base10DigitIterator::new(start);
    let mut stop_digits = Base10DigitIterator::new(stop);
    let ghost ds = decimal_chars(start as int);
    let ghost dt = decimal_chars(stop as int);
    proof {
        lemma_free_count_bounds(ds, dt);
        lemma_pow10_values();
        if start >= 0 {
            lemma_decimal_digits_len_bound(start as int, 19);
        } else {
            lemma_decimal_digits_len_bound(-(start as int), 19);
        }
        assert(ds.len() <= 20);
    }
    loop
        invariant_except_break
            start_digits.wf(),
            stop_digits.wf(),
            pattern_buffer@ + pat_body(start_digits.remaining(), stop_digits.remaining())
                == pat_body(ds, dt),
            any_digit_count + free_count(start_digits.remaining(), stop_digits.remaining())
                == free_count(ds, dt),
            0 <= any_digit_count,
            free_count(ds, dt) <= 20,
            0 <= free_count(start_digits.remaining(), stop_digits.remaining()),
        ensures
            pattern_buffer@ == pat_body(ds, dt),
            any_digit_count == free_count(ds, dt),
            0 <= any_digit_count <= 20,
        decreases start_digits.remaining().len(),
    {
        let ghost r1 = start_digits.remaining();
        let ghost r2 = stop_digits.remaining();
        let a: Option<char> = start_digits.next();
        let b: Option<char> = stop_digits.next();
        match (a, b) {
            (Some(start_digit), Some(stop_digit)) => {
                proof {
                    assert(r1.len() > 0);
                    assert(r2.len() > 0);
                    assert(start_digit == r1[0]);
                    assert(stop_digit == r2[0]);
                    lemma_free_count_bounds(r1.skip(1), r2.skip(1));
                }
                let ghost buffer_before = pattern_buffer@;
                if start_digit == stop_digit {
                    pattern_buffer.push(start_digit);
                    proof {
                        assert(pattern_buffer@ =~= buffer_before + seq![r1[0]]);
                    }
                } else if start_digit != '0' || stop_digit != '9' {
                    pattern_buffer.push('[');
                    pattern_buffer.push(start_digit);
                    pattern_buffer.push('-');
                    pattern_buffer.push(stop_digit);
                    pattern_buffer.push(']');
                    proof {
                        assert(pattern_buffer@ =~= buffer_before + seq!['[', r1[0], '-', r2[0],
                            ']']);
                    }
                } else {
                    any_digit_count = any_digit_count + 1;
                    proof {
                        assert(pattern_buffer@ =~= buffer_before + Seq::<char>::empty());
                    }
                }
                proof {
                    assert(pat_body(r1, r2) == (if r1[0] == r2[0] {
                        seq![r1[0]]
                    } else if !(r1[0] == '0' && r2[0] == '9') {
                        seq!['[', r1[0], '-', r2[0], ']']
                    } else {
                        Seq::<char>::empty()
                    }) + pat_body(r1.skip(1), r2.skip(1)));
                }
            },
            _ => {
                proof {
                    if r1.len() == 0 || r2.len() == 0 {
                        assert(pat_body(r1, r2) =~= Seq::<char>::empty());
                        assert(free_count(r1, r2) == 0);
                    }
                    assert(pattern_buffer@ + Seq::<char>::empty() =~= pattern_buffer@);
                }
                break;
            },
        }
    }
    let ghost body = pat_body(ds, dt);
    let ghost fc = free_count(ds, dt);
    if any_digit_count > 0 {
        pattern_buffer.push('\\');
        pattern_buffer.push('d');
    }
    if any_digit_count > 1 {
        pattern_buffer.push('{');
        let ghost mid = body + seq!['\\', 'd'] + seq!['{'];
        proof {
            assert(pattern_buffer@ =~= mid);
        }
        let mut count_digits = Base10DigitIterator::new(any_digit_count);
        loop
            invariant_except_break
                count_digits.wf(),
                pattern_buffer@ + count_digits.remaining() == mid + decimal_digits(fc),
            ensures
                pattern_buffer@ == mid + decimal_digits(fc),
            decreases count_digits.remaining().len(),
        {
            let c: Option<char> = count_digits.next();
            match c {
                Some(ch) => {
                    let ghost before = pattern_buffer@;
                    let ghost rem = count_digits.remaining();
                    pattern_buffer.push(ch);
                    proof {
                        assert(pattern_buffer@ + count_digits.remaining() =~= before + (seq![ch]
                            + count_digits.remaining()));
                    }
                },
                None => {
                    proof {
                        assert(pattern_buffer@ + Seq::<char>::empty() =~= pattern_buffer@);
                    }
                    break;
                },
            }
        }
        pattern_buffer.push('}');
        proof {
            assert(pattern_buffer@ =~= pattern_of(start as int, stop as int));
        }
    } else {
        proof {
            assert(pattern_buffer@ =~= pattern_of(start as int, stop as int));
        }
    }
}

/// The fragments for successive sub-ranges: each stop closes the sub-range
/// that starts one past the previous stop.
pub open spec fn pats_from(start: int, stops: Seq<i64>) -> Seq<Seq<char>>
    decreases stops.len(),
{
    if stops.len() == 0 {
        Seq::<Seq<char>>::empty()
    } else {
        seq![pattern_of(start, stops[0] as int)] + pats_from(stops[0] as int + 1, stops.skip(1))
    }
}

/// All fragments for `[min, max]`, in ascending sub-range order.
pub open spec fn spec_patterns(min: int, max: int) -> Seq<Seq<char>> {
    pats_from(min, spec_stops(min, max))
}

/// Splits `[min, max]` into sub-ranges and prints each one's fragment.
pub fn split_to_patterns(min: i64, max: i64) -> (r: Vec<String>)
    requires
        0 <= min <= max,
        (max as int) < pow10(17),
    ensures
        r@.map_values(|s: String| s@) == spec_patterns(min as int, max as int),
{
    let mut subpatterns: Vec<String> = Vec::new();
    let mut pattern_buffer = String::new();
    let stops: Vec<i64> = split_to_ranges(min, max);
    let mut start: i64 = min;
    let mut idx: usize = 0;
    proof {
        lemma_pow10_values();
        assert(subpatterns@.map_values(|s: String| s@) =~= Seq::<Seq<char>>::empty());
        assert(stops@.skip(0) =~= stops@);
        assert(Seq::<Seq<char>>::empty() + pats_from(min as int, stops@) =~= pats_from(min as int,
            stops@));
    }
    while idx < stops.len()
        invariant
            idx <= stops@.len(),
            0 <= min <= max,
            (max as int) < pow10(17),
            stops@ == spec_stops(min as int, max as int),
            forall|t: int| 0 <= t < stops@.len() ==> min <= #[trigger] stops@[t] <= max,
            start as int == if idx == 0 {
                min as int
            } else {
                stops@[idx - 1] + 1
            },
            0 <= start,
            subpatterns@.map_values(|s: String| s@) + pats_from(start as int, stops@.skip(
                idx as int)) == pats_from(min as int, stops@),
        decreases stops@.len() - idx,
    {
        let stop: i64 = stops[idx];
        range_to_pattern(start, stop, &mut pattern_buffer);
        let ghost before = subpatterns@.map_values(|s: String| s@);
        subpatterns.push(pattern_buffer.clone());
        proof {
            lemma_pow10_values();
            assert(subpatterns@.map_values(|s: String| s@) =~= before + seq![pattern_of(
                start as int, stop as int)]);
            assert(pats_from(start as int, stops@.skip(idx as int)) == seq![pattern_of(start as int,
                stops@.skip(idx as int)[0] as int)] + pats_from(stops@.skip(idx as int)[0] as int
                + 1, stops@.skip(idx as int).skip(1)));
            assert(stops@.skip(idx as int)[0] == stops@[idx as int]);
            assert(stops@.skip(idx as int).skip(1) =~= stops@.skip(idx as int + 1));
        }
        start = stop + 1;
        idx = idx + 1;
    }
    proof {
        assert(stops@.skip(stops@.len() as int) =~= Seq::<i64>::empty());
        assert(subpatterns@.map_values(|s: String| s@) + Seq::<Seq<char>>::empty()
            =~= subpatterns@.map_values(|s: String| s@));
    }
    subpatterns
}

/// The joined fragments that appear only in the negative list, each with a
/// leading sign, each followed by the separator.
pub open spec fn cat_neg_only(neg: Seq<Seq<char>>, pos: Seq<Seq<char>>) -> Seq<char>
    decreases neg.len(),
{
    if neg.len() == 0 {
        Seq::<char>::empty()
    } else {
        (if !pos.contains(neg[0]) {
            seq!['-'] + neg[0] + seq!['|']
        } else {
            Seq::<char>::empty()
        }) + cat_neg_only(neg.skip(1), pos)
    }
}

/// The joined fragments that appear only in the positive list.
pub open spec fn cat_pos_only(pos: Seq<Seq<char>>, neg: Seq<Seq<char>>) -> Seq<char>
    decreases pos.len(),
{
    if pos.len() == 0 {
        Seq::<char>::empty()
    } else {
        (if !neg.contains(pos[0]) {
            pos[0] + seq!['|']
        } else {
            Seq::<char>::empty()
        }) + cat_pos_only(pos.skip(1), neg)
    }
}

/// The joined fragments shared by both lists, each behind an optional sign.
pub open spec fn cat_shared(neg: Seq<Seq<char>>, pos: Seq<Seq<char>>) -> Seq<char>
    decreases neg.len(),
{
    if neg.len() == 0 {
        Seq::<char>::empty()
    } else {
        (if pos.contains(neg[0]) {
            seq!['-', '?'] + neg[0] + seq!['|']
        } else {
            Seq::<char>::empty()
        }) + cat_shared(neg.skip(1), pos)
    }
}

/// The full pattern for `[min, max]`: the negative-only group, then the
/// positive-only group, then the shared group, joined without a trailing
/// separator.
pub open spec fn spec_regex_for_range(min: int, max: int) -> Seq<char> {
    let neg = if min < 0 {
        spec_patterns(if max < 0 { -max } else { 1 }, -min)
    } else {
        Seq::<Seq<char>>::empty()
    };
    let pos = if max >= 0 {
        spec_patterns(if min < 0 { 0 } else { min }, max)
    } else {
        Seq::<Seq<char>>::empty()
    };
    let all = cat_neg_only(neg, pos) + cat_pos_only(pos, neg) + cat_shared(neg, pos);
    if all.len() == 0 {
        all
    } else {
        all.take(all.len() - 1)
    }
}

/// Whether some entry of `v` holds exactly the characters of `s`.
fn contains_pattern(v: &Vec<String>, s: &String) -> (r: bool)
    ensures
        r == v@.map_values(|t: String| t@).contains(s@),
{
    let mut idx: usize = 0;
    let mut found: bool = false;
    while idx < v.len()
        invariant
            idx <= v@.len(),
            found == exists|t: int| 0 <= t < idx && #[trigger] v@[t]@ == s@,
        decreases v@.len() - idx,
    {
        if v[idx] == *s {
            found = true;
        }
        idx = idx + 1;
    }
    proof {
        let mapped = v@.map_values(|t: String| t@);
        if found {
            let t = choose|t: int| 0 <= t < v@.len() && #[trigger] v@[t]@ == s@;
            assert(mapped[t] == s@);
            assert(mapped.contains(s@));
        } else {
            if mapped.contains(s@) {
                let t = choose|t: int| 0 <= t < mapped.len() && mapped[t] == s@;
                assert(v@[t]@ == s@);
                assert(false);
            }
        }
    }
    found
}

/// Compiles the inclusive range `[min, max]` into a regular expression that
/// matches exactly the decimal forms of the integers in the range.
pub fn regex_for_range(min: i32, max: i32) -> (r: String)
    requires
        min <= max,
    ensures
        r@ == spec_regex_for_range(min as int, max as int),
{
    let mut min64: i64 = min as i64;
    let max64: i64 = max as i64;
    let mut positive_subpatterns: Vec<String> = Vec::new();
    let mut negative_subpatterns: Vec<String> = Vec::new();
    proof {
        lemma_pow10_values();
    }
    if min64 < 0 {
        let min_: i64 = if max64 < 0 {
            -max64
        } else {
            1
        };
        let max_: i64 = -min64;
        negative_subpatterns = split_to_patterns(min_, max_);
        min64 = 0;
    }
    if max64 >= 0 {
        positive_subpatterns = split_to_patterns(min64, max64);
    }
    let ghost neg = if (min as int) < 0 {
        spec_patterns(if (max as int) < 0 { -(max as int) } else { 1int }, -(min as int))
    } else {
        Seq::<Seq<char>>::empty()
    };
    let ghost pos = if (max as int) >= 0 {
        spec_patterns(if (min as int) < 0 { 0int } else { min as int }, max as int)
    } else {
        Seq::<Seq<char>>::empty()
    };
    proof {
        assert(negative_subpatterns@.map_values(|s: String| s@) =~= neg);
        assert(positive_subpatterns@.map_values(|s: String| s@) =~= pos);
    }
    let mut regex = String::new();
    // negative only subpatterns
    let mut idx: usize = 0;
    proof {
        assert(neg.skip(0) =~= neg);
        assert(regex@ + cat_neg_only(neg, pos) =~= cat_neg_only(neg, pos));
    }
    while idx < negative_subpatterns.len()
        invariant
            idx <= negative_subpatterns@.len(),
            neg == negative_subpatterns@.map_values(|s: String| s@),
            pos == positive_subpatterns@.map_values(|s: String| s@),
            regex@ + cat_neg_only(neg.skip(idx as int), pos) == cat_neg_only(neg, pos),
        decreases negative_subpatterns@.len() - idx,
    {
        let ghost before = regex@;
        let shared: bool = contains_pattern(&positive_subpatterns, &negative_subpatterns[idx]);
        if !shared {
            regex.push('-');
            regex.append(negative_subpatterns[idx].as_str());
            regex.push('|');
            proof {
                assert(regex@ =~= before + (seq!['-'] + neg[idx as int] + seq!['|']));
            }
        }
        proof {
            assert(neg.skip(idx as int)[0] == neg[idx as int]);
            assert(neg.skip(idx as int).skip(1) =~= neg.skip(idx as int + 1));
        }
        idx = idx + 1;
    }
    proof {
        assert(neg.skip(neg.len() as int) =~= Seq::<Seq<char>>::empty());
        assert(regex@ =~= cat_neg_only(neg, pos));
    }
    // positive only subpatterns
    let mut idx2: usize = 0;
    proof {
        assert(pos.skip(0) =~= pos);
    }
    while idx2 < positive_subpatterns.len()
        invariant
            idx2 <= positive_subpatterns@.len(),
            neg == negative_subpatterns@.map_values(|s: String| s@),
            pos == positive_subpatterns@.map_values(|s: String| s@),
            regex@ + cat_pos_only(pos.skip(idx2 as int), neg) == cat_neg_only(neg, pos)
                + cat_pos_only(pos, neg),
        decreases positive_subpatterns@.len() - idx2,
    {
        let ghost before = regex@;
        let shared: bool = contains_pattern(&negative_subpatterns, &positive_subpatterns[idx2]);
        if !shared {
            regex.append(positive_subpatterns[idx2].as_str());
            regex.push('|');
            proof {
                assert(regex@ =~= before + (pos[idx2 as int] + seq!['|']));
            }
        }
        proof {
            assert(pos.skip(idx2 as int)[0] == pos[idx2 as int]);
            assert(pos.skip(idx2 as int).skip(1) =~= pos.skip(idx2 as int + 1));
        }
        idx2 = idx2 + 1;
    }
    proof {
        assert(pos.skip(pos.len() as int) =~= Seq::<Seq<char>>::empty());
        assert(regex@ =~= cat_neg_only(neg, pos) + cat_pos_only(pos, neg));
    }
    // intersected subpatterns
    let mut idx3: usize = 0;
    proof {
        assert(neg.skip(0) =~= neg);
    }
    while idx3 < negative_subpatterns.len()
        invariant
            idx3 <= negative_subpatterns@.len(),
            neg == negative_subpatterns@.map_values(|s: String| s@),
            pos == positive_subpatterns@.map_values(|s: String| s@),
            regex@ + cat_shared(neg.skip(idx3 as int), pos) == cat_neg_only(neg, pos)
                + cat_pos_only(pos, neg) + cat_shared(neg, pos),
        decreases negative_subpatterns@.len() - idx3,
    {
        let ghost before = regex@;
        let shared: bool = contains_pattern(&positive_subpatterns, &negative_subpatterns[idx3]);
        if shared {
            regex.push('-');
            regex.push('?');
            regex.append(negative_subpatterns[idx3].as_str());
            regex.push('|');
            proof {
                assert(regex@ =~= before + (seq!['-', '?'] + neg[idx3 as int] + seq!['|']));
            }
        }
        proof {
            assert(neg.skip(idx3 as int)[0] == neg[idx3 as int]);
            assert(neg.skip(idx3 as int).skip(1) =~= neg.skip(idx3 as int + 1));
        }
        idx3 = idx3 + 1;
    }
    proof {
        assert(neg.skip(neg.len() as int) =~= Seq::<Seq<char>>::empty());
        assert(regex@ =~= cat_neg_only(neg, pos) + cat_pos_only(pos, neg) + cat_shared(neg, pos));
    }
    let ghost all = cat_neg_only(neg, pos) + cat_pos_only(pos, neg) + cat_shared(neg, pos);
    regex.pop();
    proof {
        if all.len() == 0 {
            assert(regex@ =~= spec_regex_for_range(min as int, max as int));
        } else {
            assert(regex@ =~= all.take(all.len() - 1));
            assert(regex@ =~= spec_regex_for_range(min as int, max as int));
        }
    }
    regex
}

} // verus!
