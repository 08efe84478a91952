//! Pure aggregation over one window batch: counting the scalar values found
//! at a field, and percentile summaries of the numeric values found there.

use vstd::prelude::*;
use vstd::pervasive::VecAdditionalExecFns;
use vstd::relations::{sorted_by, total_ordering};
use vstd::seq_lib::lemma_sorted_unique;
use crate::record::{Field, FieldShape, canon_of, field_at, lookup_field, values_to_keys};
use crate::decimal::{dec_string, parse_dec, parse_decimal, push_decimal};
use crate::config::Percentiles;

verus! {

/// The character sequences of a batch of record lines.
pub open spec fn lines_of(v: Seq<String>) -> Seq<Seq<char>> {
    Seq::new(v.len(), |i: int| v[i]@)
}

/// The canonical string (or nothing) that each record of a batch contributes
/// at `key`.
pub open spec fn canon_seq(lines: Seq<Seq<char>>, key: Seq<char>) -> Seq<Option<Seq<char>>> {
    Seq::new(lines.len(), |i: int| canon_of(field_at(lines[i], key)))
}

/// How many records contributed exactly the canonical string `s`.
pub open spec fn count_matches(cs: Seq<Option<Seq<char>>>, s: Seq<char>) -> int
    decreases cs.len(),
{
    if cs.len() == 0 {
        0
    } else {
        count_matches(cs.drop_last(), s) + if cs.last() == Some(s) {
            1int
        } else {
            0int
        }
    }
}

/// The distinct canonical strings of a batch, in order of first appearance.
pub open spec fn distinct_keys(cs: Seq<Option<Seq<char>>>) -> Seq<Seq<char>>
    decreases cs.len(),
{
    if cs.len() == 0 {
        Seq::empty()
    } else {
        let rest = distinct_keys(cs.drop_last());
        match cs.last() {
            Some(s) => if rest.contains(s) {
                rest
            } else {
                rest.push(s)
            },
            None => rest,
        }
    }
}

/// The count aggregation of a batch: each distinct canonical string paired
/// with the number of records that contributed it.
pub open spec fn group_counts(cs: Seq<Option<Seq<char>>>) -> Seq<(Seq<char>, int)> {
    Seq::new(
        distinct_keys(cs).len(),
        |i: int| (distinct_keys(cs)[i], count_matches(cs, distinct_keys(cs)[i])),
    )
}

/// How many records of the batch contributed any canonical string at all.
pub open spec fn num_valid(cs: Seq<Option<Seq<char>>>) -> int
    decreases cs.len(),
{
    if cs.len() == 0 {
        0
    } else {
        num_valid(cs.drop_last()) + if cs.last() is Some {
            1int
        } else {
            0int
        }
    }
}

proof fn lemma_count_matches_le_len(cs: Seq<Option<Seq<char>>>, s: Seq<char>)
    ensures
        0 <= count_matches(cs, s) <= cs.len(),
    decreases cs.len(),
{
    if cs.len() > 0 {
        lemma_count_matches_le_len(cs.drop_last(), s);
    }
}

proof fn lemma_not_in_keys_zero(cs: Seq<Option<Seq<char>>>, s: Seq<char>)
    requires
        !distinct_keys(cs).contains(s),
    ensures
        count_matches(cs, s) == 0,
    decreases cs.len(),
{
    if cs.len() > 0 {
        let rest = distinct_keys(cs.drop_last());
        assert(forall|j: int| 0 <= j < rest.len() ==> distinct_keys(cs).contains(#[trigger] rest[j]) || rest[j] == s) by {
            assert forall|j: int| 0 <= j < rest.len() implies distinct_keys(cs).contains(#[trigger] rest[j]) || rest[j] == s by {
                match cs.last() {
                    Some(t) => {
                        if rest.contains(t) {
                            assert(distinct_keys(cs) == rest);
                        } else {
                            assert(distinct_keys(cs) == rest.push(t));
                            assert(rest.push(t)[j] == rest[j]);
                        }
                    },
                    None => {
                        assert(distinct_keys(cs) == rest);
                    },
                }
            }
        }
        assert(!rest.contains(s)) by {
            if rest.contains(s) {
                let j = choose|j: int| 0 <= j < rest.len() && rest[j] == s;
                assert(distinct_keys(cs).contains(rest[j]) || rest[j] == s);
                if distinct_keys(cs).contains(rest[j]) {
                    assert(false);
                }
                // rest[j] == s but then distinct_keys(cs) must also contain it
                match cs.last() {
                    Some(t) => {
                        if rest.contains(t) {
                            assert(distinct_keys(cs)[j] == s);
                            assert(false);
                        } else {
                            assert(distinct_keys(cs)[j] == s);
                            assert(false);
                        }
                    },
                    None => {
                        assert(distinct_keys(cs)[j] == s);
                        assert(false);
                    },
                }
            }
        }
        lemma_not_in_keys_zero(cs.drop_last(), s);
        match cs.last() {
            Some(t) => {
                if !rest.contains(t) {
                    assert(rest.push(t).contains(t)) by {
                        assert(rest.push(t)[rest.len() as int] == t);
                    }
                    assert(t != s);
                }
            },
            None => {},
        }
    }
}

/// Counts the scalar values found at `key_to_count` across the batch `v`:
/// one entry per distinct canonical value string, in order of first
/// appearance, paired with how many records carried it. Records without a
/// scalar at the key are skipped.
pub fn count_agg(v: Vec<String>, key_to_count: String) -> (r: Vec<(String, usize)>)
    ensures
        r@.len() == group_counts(canon_seq(lines_of(v@), key_to_count@)).len(),
        forall|i: int|
            0 <= i < r@.len() ==> (#[trigger] r@[i]).0@ == group_counts(
                canon_seq(lines_of(v@), key_to_count@),
            )[i].0 && r@[i].1 as int == group_counts(canon_seq(lines_of(v@), key_to_count@))[i].1,
{
    let ghost cs = canon_seq(lines_of(v@), key_to_count@);
    let mut out: Vec<(String, usize)> = Vec::new();
    let mut idx: usize = 0;
    while idx < v.len()
        invariant
            idx <= v@.len(),
            cs == canon_seq(lines_of(v@), key_to_count@),
            cs.len() == v@.len(),
            out@.len() == distinct_keys(cs.subrange(0, idx as int)).len(),
            forall|i: int|
                0 <= i < out@.len() ==> (#[trigger] out@[i]).0@ == distinct_keys(
                    cs.subrange(0, idx as int),
                )[i] && out@[i].1 as int == count_matches(
                    cs.subrange(0, idx as int),
                    distinct_keys(cs.subrange(0, idx as int))[i],
                ),
        decreases v@.len() - idx,
    {
        let ghost pre = cs.subrange(0, idx as int);
        let f = lookup_field(v[idx].as_str(), key_to_count.as_str());
        proof {
            assert(lines_of(v@)[idx as int] == v@[idx as int]@);
            assert(cs[idx as int] == canon_of(field_at(v@[idx as int]@, key_to_count@)));
            assert(cs.subrange(0, idx as int + 1) =~= pre.push(cs[idx as int]));
            assert(pre.push(cs[idx as int]).drop_last() =~= pre);
        }
        let ghost post = cs.subrange(0, idx as int + 1);
        match values_to_keys(f) {
            None => {
                proof {
                    assert(cs[idx as int] is None);
                    assert(distinct_keys(post) == distinct_keys(pre));
                    assert forall|i: int| 0 <= i < out@.len() implies count_matches(
                        post,
                        distinct_keys(post)[i],
                    ) == count_matches(pre, distinct_keys(pre)[i]) by {
                        assert(post.drop_last() =~= pre);
                    }
                }
            },
            Some(s) => {
                proof {
                    assert(cs[idx as int] == Some(s@));
                }
                let mut j: usize = 0;
                let mut found = false;
                while j < out.len() && !found
                    invariant
                        j <= out@.len(),
                        !found ==> forall|i: int| 0 <= i < j ==> (#[trigger] out@[i]).0@ != s@,
                        found ==> j < out@.len() && out@[j as int].0@ == s@,
                    decreases out@.len() - j + (if found {
                        0int
                    } else {
                        1int
                    }),
                {
                    if out[j].0 == s {
                        found = true;
                    } else {
                        j = j + 1;
                    }
                }
                if found {
                    proof {
                        assert(distinct_keys(pre).contains(s@)) by {
                            assert(distinct_keys(pre)[j as int] == s@);
                        }
                        assert(distinct_keys(post) == distinct_keys(pre));
                        assert forall|i: int|
                            0 <= i < out@.len() && i != j implies count_matches(
                            post,
                            distinct_keys(post)[i],
                        ) == count_matches(pre, distinct_keys(pre)[i]) by {
                            assert(post.drop_last() =~= pre);
                            assert(distinct_keys(pre)[i] != s@) by {
                                if distinct_keys(pre)[i] == s@ {
                                    lemma_distinct_keys_no_dup(pre);
                                    assert(false);
                                }
                            }
                        }
                        assert(count_matches(post, s@) == count_matches(pre, s@) + 1) by {
                            assert(post.drop_last() =~= pre);
                        }
                        lemma_count_matches_le_len(pre, s@);
                    }
                    let c = out[j].1;
                    let ks = out[j].0.clone();
                    out.set(j, (ks, c + 1));
                } else {
                    proof {
                        assert forall|w: int|
                            0 <= w < distinct_keys(pre).len() implies distinct_keys(pre)[w]
                            != s@ by {
                            assert(out@[w].0@ == distinct_keys(pre)[w]);
                        }
                        assert(!distinct_keys(pre).contains(s@));
                        assert(distinct_keys(post) == distinct_keys(pre).push(s@));
                        assert forall|i: int| 0 <= i < out@.len() implies count_matches(
                            post,
                            distinct_keys(post)[i],
                        ) == count_matches(pre, distinct_keys(pre)[i]) by {
                            assert(post.drop_last() =~= pre);
                            assert(distinct_keys(pre).push(s@)[i] == distinct_keys(pre)[i]);
                            assert(distinct_keys(pre)[i] != s@) by {
                                if distinct_keys(pre)[i] == s@ {
                                    assert(distinct_keys(pre).contains(s@));
                                    assert(false);
                                }
                            }
                        }
                        lemma_not_in_keys_zero(pre, s@);
                        assert(count_matches(post, s@) == 1) by {
                            assert(post.drop_last() =~= pre);
                        }
                        assert(distinct_keys(post)[out@.len() as int] == s@);
                    }
                    out.push((s, 1));
                }
            },
        }
        idx = idx + 1;
    }
    proof {
        assert(cs.subrange(0, idx as int) =~= cs);
    }
    out
}

/// The total of a count aggregation's entries.
pub open spec fn sum_counts(r: Seq<(Seq<char>, int)>) -> int
    decreases r.len(),
{
    if r.len() == 0 {
        0
    } else {
        sum_counts(r.drop_last()) + r.last().1
    }
}

spec fn sum_of(keys: Seq<Seq<char>>, cs: Seq<Option<Seq<char>>>) -> int
    decreases keys.len(),
{
    if keys.len() == 0 {
        0
    } else {
        sum_of(keys.drop_last(), cs) + count_matches(cs, keys.last())
    }
}

proof fn lemma_sum_group(keys: Seq<Seq<char>>, cs: Seq<Option<Seq<char>>>)
    ensures
        sum_counts(Seq::new(keys.len(), |i: int| (keys[i], count_matches(cs, keys[i])))) == sum_of(
            keys,
            cs,
        ),
    decreases keys.len(),
{
    let m = Seq::new(keys.len(), |i: int| (keys[i], count_matches(cs, keys[i])));
    if keys.len() > 0 {
        lemma_sum_group(keys.drop_last(), cs);
        assert(m.drop_last() =~= Seq::new(
            keys.drop_last().len(),
            |i: int| (keys.drop_last()[i], count_matches(cs, keys.drop_last()[i])),
        ));
    }
}

proof fn lemma_sum_of_push_none(keys: Seq<Seq<char>>, cs: Seq<Option<Seq<char>>>)
    ensures
        sum_of(keys, cs.push(None)) == sum_of(keys, cs),
    decreases keys.len(),
{
    if keys.len() > 0 {
        lemma_sum_of_push_none(keys.drop_last(), cs);
        assert(cs.push(None).drop_last() =~= cs);
        assert(count_matches(cs.push(None), keys.last()) == count_matches(cs, keys.last()));
    }
}

proof fn lemma_sum_of_push_some(keys: Seq<Seq<char>>, cs: Seq<Option<Seq<char>>>, s: Seq<char>)
    requires
        forall|a: int, b: int| 0 <= a < b < keys.len() ==> keys[a] != keys[b],
    ensures
        sum_of(keys, cs.push(Some(s))) == sum_of(keys, cs) + (if keys.contains(s) {
            1int
        } else {
            0int
        }),
    decreases keys.len(),
{
    if keys.len() > 0 {
        let rest = keys.drop_last();
        lemma_sum_of_push_some(rest, cs, s);
        assert(cs.push(Some(s)).drop_last() =~= cs);
        if keys.last() == s {
            assert(!rest.contains(s)) by {
                if rest.contains(s) {
                    let w = choose|w: int| 0 <= w < rest.len() && rest[w] == s;
                    assert(keys[w] == s && keys[keys.len() - 1] == s);
                    assert(false);
                }
            }
            assert(count_matches(cs.push(Some(s)), s) == count_matches(cs, s) + 1);
            assert(keys.contains(s)) by {
                assert(keys[keys.len() - 1] == s);
            }
        } else {
            assert(count_matches(cs.push(Some(s)), keys.last()) == count_matches(
                cs,
                keys.last(),
            ));
            assert(keys.contains(s) == rest.contains(s)) by {
                if keys.contains(s) {
                    let w = choose|w: int| 0 <= w < keys.len() && keys[w] == s;
                    assert(w < keys.len() - 1);
                    assert(rest[w] == s);
                    assert(rest.contains(s));
                }
                if rest.contains(s) {
                    let w = choose|w: int| 0 <= w < rest.len() && rest[w] == s;
                    assert(keys[w] == s);
                    assert(keys.contains(s));
                }
            }
        }
    }
}

proof fn lemma_sum_of_distinct(cs: Seq<Option<Seq<char>>>)
    ensures
        sum_of(distinct_keys(cs), cs) == num_valid(cs),
    decreases cs.len(),
{
    if cs.len() > 0 {
        let pre = cs.drop_last();
        let dk = distinct_keys(pre);
        lemma_sum_of_distinct(pre);
        lemma_distinct_keys_no_dup(pre);
        assert(pre.push(cs.last()) =~= cs);
        match cs.last() {
            None => {
                lemma_sum_of_push_none(dk, pre);
            },
            Some(s) => {
                lemma_sum_of_push_some(dk, pre, s);
                if dk.contains(s) {
                    assert(distinct_keys(cs) == dk);
                } else {
                    assert(distinct_keys(cs) == dk.push(s));
                    lemma_not_in_keys_zero(pre, s);
                    assert(count_matches(cs, s) == count_matches(pre, s) + 1);
                    assert(sum_of(dk.push(s), cs) == sum_of(dk, cs) + count_matches(cs, s)) by {
                        assert(dk.push(s).drop_last() =~= dk);
                        assert(dk.push(s).last() == s);
                    }
                }
            },
        }
    }
}

/// Law: for any batch and count key, the counts in the aggregation result sum
/// to the number of records that carried a valid scalar at that key.
pub proof fn lemma_count_agg_total(lines: Seq<Seq<char>>, key: Seq<char>)
    ensures
        sum_counts(group_counts(canon_seq(lines, key))) == num_valid(canon_seq(lines, key)),
{
    let cs = canon_seq(lines, key);
    lemma_sum_group(distinct_keys(cs), cs);
    lemma_sum_of_distinct(cs);
}

/// The "at most or equal" order on sample values.
pub open spec fn le_i128() -> spec_fn(i128, i128) -> bool {
    |a: i128, b: i128| a <= b
}

pub proof fn lemma_le_i128_total()
    ensures
        total_ordering(le_i128()),
{
    let r = le_i128();
    assert forall|x: i128| #[trigger] r(x, x) by {}
}

/// The numeric samples a batch contributes at `key`, in arrival order: one
/// value per record whose field is a number within the engine's bounds.
pub open spec fn sample_seq(lines: Seq<Seq<char>>, key: Seq<char>) -> Seq<i128>
    decreases lines.len(),
{
    if lines.len() == 0 {
        Seq::empty()
    } else {
        let rest = sample_seq(lines.drop_last(), key);
        match field_at(lines.last(), key) {
            FieldShape::Number { digits } => match parse_dec(digits) {
                Some(v) => rest.push(v as i128),
                None => rest,
            },
            _ => rest,
        }
    }
}

/// All samples lie strictly within 10^21 nano-units.
pub open spec fn bounded_samples(s: Seq<i128>) -> bool {
    forall|i: int|
        0 <= i < s.len() ==> -1000000000000000000000 < #[trigger] s[i] < 1000000000000000000000
}

/// The linear-interpolation percentile over a sorted, non-empty sample
/// sequence, in units of 10^-14: with `h = p/100000 * (n-1)` the value is
/// `sorted[floor(h)] + (h - floor(h)) * (sorted[ceil(h)] - sorted[floor(h)])`.
pub open spec fn perc_value(sorted: Seq<i128>, p_milli: int) -> int
    recommends
        sorted.len() >= 1,
        0 <= p_milli <= 100000,
{
    let h = p_milli * (sorted.len() - 1);
    let lo = h / 100000;
    let r = h % 100000;
    if r == 0 {
        sorted[lo] * 100000
    } else {
        sorted[lo] * 100000 + r * (sorted[lo + 1] - sorted[lo])
    }
}

/// The percentile aggregation of a batch: one labelled entry per requested
/// percentile, in request order, each valued at the rendered interpolated
/// percentile of the sorted samples; nothing at all when the batch holds no
/// valid sample.
pub open spec fn percentile_entries(samples: Seq<i128>, ps: Seq<u32>) -> Seq<
    (Seq<char>, Seq<char>),
> {
    if samples.len() == 0 {
        Seq::empty()
    } else {
        let sorted = samples.sort_by(le_i128());
        Seq::new(
            ps.len(),
            |i: int|
                (
                    dec_string(ps[i] as int, 3),
                    dec_string(perc_value(sorted, ps[i] as int), 14),
                ),
        )
    }
}

proof fn lemma_bounded_transfer(a: Seq<i128>, b: Seq<i128>)
    requires
        a.to_multiset() == b.to_multiset(),
        bounded_samples(a),
    ensures
        bounded_samples(b),
{
    broadcast use vstd::seq_lib::group_to_multiset_ensures;

    assert forall|i: int|
        0 <= i < b.len() implies -1000000000000000000000 < #[trigger] b[i]
        < 1000000000000000000000 by {
        assert(b.contains(b[i]));
        assert(b.to_multiset().count(b[i]) > 0);
        assert(a.contains(b[i]));
        let w = choose|w: int| 0 <= w < a.len() && a[w] == b[i];
        assert(a[w] == b[i]);
    }
}

/// Sorts the samples ascending by insertion.
fn sort_samples(v: Vec<i128>) -> (r: Vec<i128>)
    ensures
        r@.to_multiset() == v@.to_multiset(),
        sorted_by(r@, le_i128()),
        r@.len() == v@.len(),
{
    broadcast use vstd::seq_lib::group_to_multiset_ensures;
    broadcast use vstd::seq_lib::to_multiset_insert;

    let mut r: Vec<i128> = Vec::new();
    let mut i: usize = 0;
    while i < v.len()
        invariant
            i <= v@.len(),
            r@.len() == i,
            r@.to_multiset() == v@.subrange(0, i as int).to_multiset(),
            sorted_by(r@, le_i128()),
        decreases v@.len() - i,
    {
        broadcast use vstd::seq_lib::group_to_multiset_ensures;
        broadcast use vstd::seq_lib::to_multiset_insert;

        let x = v[i];
        let ghost rold = r@;
        let mut j: usize = 0;
        while j < r.len() && r[j] <= x
            invariant
                j <= r@.len(),
                r@ == rold,
                forall|k: int| 0 <= k < j ==> (#[trigger] r@[k]) <= x,
            decreases r@.len() - j,
        {
            j = j + 1;
        }
        r.insert(j, x);
        proof {
            let t = rold.insert(j as int, x);
            assert(r@ == t);
            let leq = le_i128();
            assert forall|a: int, b: int| 0 <= a < b < t.len() implies #[trigger] leq(
                t[a],
                t[b],
            ) by {
                if b < j {
                    assert(t[a] == rold[a] && t[b] == rold[b]);
                    assert(leq(rold[a], rold[b]));
                } else if a < j && b == j {
                    assert(t[a] == rold[a] && t[b] == x);
                } else if a < j && b > j {
                    assert(t[a] == rold[a] && t[b] == rold[b - 1]);
                    assert(leq(rold[a], rold[b - 1]));
                } else if a == j {
                    assert(t[a] == x && t[b] == rold[b - 1]);
                    assert(x < rold[j as int] || j as int == rold.len());
                    if (j as int) <= b - 1 < rold.len() {
                        if (j as int) < b - 1 {
                            assert(leq(rold[j as int], rold[b - 1]));
                        }
                    }
                } else {
                    assert(t[a] == rold[a - 1] && t[b] == rold[b - 1]);
                    assert(leq(rold[a - 1], rold[b - 1]));
                }
            }
            assert(v@.subrange(0, i as int + 1) =~= v@.subrange(0, i as int).push(v@[i as int]));
        }
        i = i + 1;
    }
    proof {
        assert(v@.subrange(0, i as int) =~= v@);
    }
    r
}

/// Computes the requested percentiles of the numeric values found at the
/// request's key across the batch `v`: one `(label, value)` pair per
/// requested percentile, in request order, empty when no record carries a
/// valid number at the key. Records without one are skipped.
pub fn percentile(v: Vec<String>, request: Percentiles) -> (r: Vec<(String, String)>)
    requires
        request.well_formed(),
    ensures
        r@.len() == percentile_entries(
            sample_seq(lines_of(v@), request.agg_key@),
            request.percentiles@,
        ).len(),
        forall|i: int|
            0 <= i < r@.len() ==> (#[trigger] r@[i]).0@ == percentile_entries(
                sample_seq(lines_of(v@), request.agg_key@),
                request.percentiles@,
            )[i].0 && r@[i].1@ == percentile_entries(
                sample_seq(lines_of(v@), request.agg_key@),
                request.percentiles@,
            )[i].1,
{
    let ghost all = sample_seq(lines_of(v@), request.agg_key@);
    let mut samples: Vec<i128> = Vec::new();
    let mut idx: usize = 0;
    while idx < v.len()
        invariant
            idx <= v@.len(),
            samples@ == sample_seq(lines_of(v@).subrange(0, idx as int), request.agg_key@),
            bounded_samples(samples@),
        decreases v@.len() - idx,
    {
        let ghost lpre = lines_of(v@).subrange(0, idx as int);
        let ghost lpost = lines_of(v@).subrange(0, idx as int + 1);
        proof {
            assert(lpost =~= lpre.push(lines_of(v@)[idx as int]));
            assert(lpost.drop_last() =~= lpre);
            assert(lines_of(v@)[idx as int] == v@[idx as int]@);
        }
        let f = lookup_field(v[idx].as_str(), request.agg_key.as_str());
        match f {
            Field::Number(d) => {
                match parse_decimal(d.as_str()) {
                    Some(x) => {
                        samples.push(x);
                    },
                    None => {},
                }
            },
            _ => {},
        }
        idx = idx + 1;
    }
    proof {
        assert(lines_of(v@).subrange(0, idx as int) =~= lines_of(v@));
        assert(samples@ == all);
    }
    let mut out: Vec<(String, String)> = Vec::new();
    if samples.len() == 0 {
        return out;
    }
    let sorted = sort_samples(samples);
    proof {
        lemma_le_i128_total();
        all.lemma_sort_by_ensures(le_i128());
        lemma_sorted_unique(sorted@, all.sort_by(le_i128()), le_i128());
        assert(sorted@ == all.sort_by(le_i128()));
        lemma_bounded_transfer(all, sorted@);
    }
    let n = sorted.len();
    let mut pi: usize = 0;
    let ghost entries = percentile_entries(all, request.percentiles@);
    while pi < request.percentiles.len()
        invariant
            pi <= request.percentiles@.len(),
            request.well_formed(),
            sorted@ == all.sort_by(le_i128()),
            bounded_samples(sorted@),
            sorted_by(sorted@, le_i128()),
            n == sorted@.len(),
            1 <= n,
            all.len() >= 1,
            entries == percentile_entries(all, request.percentiles@),
            entries.len() == request.percentiles@.len(),
            out@.len() == pi,
            forall|i: int|
                0 <= i < pi ==> (#[trigger] out@[i]).0@ == entries[i].0 && out@[i].1@
                    == entries[i].1,
        decreases request.percentiles@.len() - pi,
    {
        let p = request.percentiles[pi];
        proof {
            assert(request.percentiles@[pi as int] <= 100000);
        }
        let nm1: u128 = (n as u128) - 1;
        proof {
            assert((p as int) * (nm1 as int) <= 100000 * (nm1 as int)) by (nonlinear_arith)
                requires
                    0 <= (p as int) <= 100000,
                    0 <= (nm1 as int),
            ;
        }
        let h: u128 = (p as u128) * nm1;
        proof {
            assert(h as int == p * (n as int - 1));
            assert((h as int) / 100000 <= n as int - 1) by (nonlinear_arith)
                requires
                    (h as int) <= 100000 * (n as int - 1),
                    (h as int) >= 0,
            ;
        }
        let lo: usize = (h / 100000) as usize;
        let rem: u128 = h % 100000;
        let a = sorted[lo];
        proof {
            assert(-1000000000000000000000 < sorted@[lo as int] < 1000000000000000000000);
        }
        let ghost pv = perc_value(sorted@, p as int);
        let value: i128 = if rem == 0 {
            a * 100000
        } else {
            proof {
                assert(h as int % 100000 != 0);
                assert((lo as int) < n as int - 1) by (nonlinear_arith)
                    requires
                        lo as int == (h as int) / 100000,
                        h as int == p * (n as int - 1),
                        h as int % 100000 != 0,
                        0 <= p <= 100000,
                        n >= 1,
                ;
            }
            let b = sorted[lo + 1];
            proof {
                assert(-1000000000000000000000 < sorted@[lo as int + 1]
                    < 1000000000000000000000);
                assert(-200000000000000000000000000 < (rem as int) * ((b as int) - (a as int))
                    < 200000000000000000000000000) by (nonlinear_arith)
                    requires
                        0 <= (rem as int) < 100000,
                        -2000000000000000000000 < (b as int) - (a as int)
                            < 2000000000000000000000,
                ;
            }
            a * 100000 + (rem as i128) * (b - a)
        };
        proof {
            assert(value as int == pv);
        }
        let mut label = String::new();
        push_decimal(&mut label, p as i128, 3);
        let mut vs = String::new();
        push_decimal(&mut vs, value, 14);
        proof {
            assert(label@ == dec_string(p as int, 3));
            assert(vs@ == dec_string(pv, 14));
            assert(entries[pi as int].0 == dec_string(p as int, 3));
            assert(entries[pi as int].1 == dec_string(pv, 14));
        }
        out.push((label, vs));
        pi = pi + 1;
    }
    out
}

/// Sorting a non-empty sample set puts a smallest sample first and a largest
/// sample last: every sample lies between the two, and both are samples.
pub proof fn lemma_sorted_extremes(samples: Seq<i128>)
    requires
        samples.len() >= 1,
    ensures
        samples.sort_by(le_i128()).len() == samples.len(),
        forall|i: int|
            0 <= i < samples.len() ==> samples.sort_by(le_i128())[0] <= #[trigger] samples[i]
                <= samples.sort_by(le_i128())[samples.len() - 1],
        samples.contains(samples.sort_by(le_i128())[0]),
        samples.contains(samples.sort_by(le_i128())[samples.len() - 1]),
{
    broadcast use vstd::seq_lib::group_to_multiset_ensures;

    lemma_le_i128_total();
    samples.lemma_sort_by_ensures(le_i128());
    let sorted = samples.sort_by(le_i128());
    let leq = le_i128();
    assert(sorted.to_multiset().len() == samples.to_multiset().len());
    assert(sorted.len() == samples.len());
    let n = samples.len() as int;
    assert forall|i: int|
        0 <= i < samples.len() implies sorted[0] <= #[trigger] samples[i] <= sorted[n - 1] by {
        assert(samples.contains(samples[i]));
        assert(samples.to_multiset().count(samples[i]) > 0);
        assert(sorted.contains(samples[i]));
        let w = choose|w: int| 0 <= w < sorted.len() && sorted[w] == samples[i];
        if 0 < w {
            assert(leq(sorted[0], sorted[w]));
        }
        if w < n - 1 {
            assert(leq(sorted[w], sorted[n - 1]));
        }
    }
    assert(sorted.contains(sorted[0]));
    assert(samples.contains(sorted[0]));
    assert(sorted.contains(sorted[n - 1]));
    assert(samples.contains(sorted[n - 1]));
}

/// Law: a percentile over a non-empty sample set lies between the smallest
/// and the largest sample; percentile 0 is exactly the smallest and
/// percentile 100 exactly the largest. Values are in units of 10^-14, so
/// the samples' bounds are scaled by 100000.
pub proof fn lemma_percentile_bounds(samples: Seq<i128>, p: int)
    requires
        samples.len() >= 1,
        0 <= p <= 100000,
    ensures
        samples.sort_by(le_i128())[0] * 100000 <= perc_value(samples.sort_by(le_i128()), p)
            <= samples.sort_by(le_i128())[samples.len() - 1] * 100000,
        p == 0 ==> perc_value(samples.sort_by(le_i128()), p) == samples.sort_by(le_i128())[0]
            * 100000,
        p == 100000 ==> perc_value(samples.sort_by(le_i128()), p) == samples.sort_by(
            le_i128(),
        )[samples.len() - 1] * 100000,
{
    lemma_le_i128_total();
    samples.lemma_sort_by_ensures(le_i128());
    broadcast use vstd::seq_lib::group_to_multiset_ensures;

    let sorted = samples.sort_by(le_i128());
    let leq = le_i128();
    assert(sorted.to_multiset().len() == samples.to_multiset().len());
    let n = sorted.len() as int;
    let h = p * (n - 1);
    assert(0 <= h <= 100000 * (n - 1)) by (nonlinear_arith)
        requires
            0 <= p <= 100000,
            n >= 1,
            h == p * (n - 1),
    ;
    let lo = h / 100000;
    let r = h % 100000;
    assert(0 <= lo <= n - 1) by (nonlinear_arith)
        requires
            0 <= h <= 100000 * (n - 1),
            lo == h / 100000,
            n >= 1,
    ;
    let mn = sorted[0];
    let mx = sorted[n - 1];
    assert(mn <= sorted[lo] <= mx) by {
        if 0 < lo {
            assert(leq(sorted[0], sorted[lo]));
        }
        if lo < n - 1 {
            assert(leq(sorted[lo], sorted[n - 1]));
        }
    }
    if r == 0 {
        assert(mn * 100000 <= sorted[lo] * 100000 <= mx * 100000);
    } else {
        assert(lo < n - 1) by (nonlinear_arith)
            requires
                0 <= h <= 100000 * (n - 1),
                h % 100000 != 0,
                lo == h / 100000,
                n >= 1,
        ;
        let a = sorted[lo];
        let b = sorted[lo + 1];
        assert(a <= b) by {
            assert(leq(sorted[lo], sorted[lo + 1]));
        }
        assert(mn <= b <= mx) by {
            if 0 < lo + 1 {
                assert(leq(sorted[0], sorted[lo + 1]));
            }
            if lo + 1 < n - 1 {
                assert(leq(sorted[lo + 1], sorted[n - 1]));
            }
        }
        assert(mn * 100000 <= a * 100000 + r * (b - a) <= mx * 100000) by (nonlinear_arith)
            requires
                mn <= a <= b <= mx,
                0 <= r < 100000,
        ;
    }
    if p == 0 {
        assert(h == 0);
    }
    if p == 100000 {
        assert(h == 100000 * (n - 1));
        assert(lo == n - 1 && r == 0) by (nonlinear_arith)
            requires
                h == 100000 * (n - 1),
                lo == h / 100000,
                r == h % 100000,
                n >= 1,
        ;
    }
}

/// The keys of a count aggregation never repeat: each canonical value
/// string appears in the result exactly once.
pub proof fn lemma_distinct_keys_no_dup(cs: Seq<Option<Seq<char>>>)
    ensures
        forall|a: int, b: int|
            0 <= a < b < distinct_keys(cs).len() ==> distinct_keys(cs)[a] != distinct_keys(cs)[b],
    decreases cs.len(),
{
    if cs.len() > 0 {
        lemma_distinct_keys_no_dup(cs.drop_last());
        let rest = distinct_keys(cs.drop_last());
        match cs.last() {
            Some(t) => {
                if !rest.contains(t) {
                    assert forall|a: int, b: int|
                        0 <= a < b < rest.push(t).len() implies rest.push(t)[a] != rest.push(
                        t,
                    )[b] by {
                        if b < rest.len() {
                            assert(rest.push(t)[a] == rest[a] && rest.push(t)[b] == rest[b]);
                        } else {
                            assert(rest.push(t)[b] == t);
                            assert(rest.push(t)[a] == rest[a]);
                            if rest[a] == t {
                                assert(rest.contains(t));
                                assert(false);
                            }
                        }
                    }
                }
            },
            None => {},
        }
    }
}

} // verus!
