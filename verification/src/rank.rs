//! Rank & Suppress: turns the frozen aggregate into a deterministically
//! sorted ranking, after dropping buckets below the suppression cutoff.
//!
//! The cutoff is `round(total_events * suppress / 100)` with the suppression
//! percentage carried in thousandths of a percent and the division rounded
//! half away from zero. Buckets are ordered by total descending, then by
//! address bytes ascending; nested type counts by count descending, then by
//! the type's canonical rendering ascending, then by first occurrence.

use vstd::prelude::*;
use vstd::string::StrSliceExecFns;
use crate::aggregate::{
    Aggregator, AddressBucket, BucketModel, KcModel, KeyCount, bucket_models, copy_bytes,
    sum_totals,
};
use crate::keys::{key_dup, render_key, tag_to_short_string};
use crate::order::{
    SortKey, SortKeyModel, key_models, key_order_fn, lemma_key_order_total, sort_keys,
};

verus! {

/// One entry of the final ranking: an address, its total, and its per-type
/// counts sorted for the report. Immutable once produced.
#[derive(Debug, PartialEq, Eq)]
pub struct RankedEntry {
    pub address: Vec<u8>,
    pub total: u64,
    pub by_key: Vec<KeyCount>,
}

/// Model of a ranked entry.
#[verifier::ext_equal]
pub struct EntryModel {
    pub address: Seq<u8>,
    pub total: int,
    pub by_key: Seq<KcModel>,
}

impl View for RankedEntry {
    type V = EntryModel;

    open spec fn view(&self) -> EntryModel {
        EntryModel {
            address: self.address@,
            total: self.total as int,
            by_key: self.by_key@.map_values(|kc: KeyCount| kc@),
        }
    }
}

/// The models of a sequence of ranked entries.
pub open spec fn entry_models(s: Seq<RankedEntry>) -> Seq<EntryModel> {
    s.map_values(|e: RankedEntry| e@)
}

/// The suppression cutoff: `total * suppress / 100_000`, rounded half away
/// from zero, with `suppress` in thousandths of a percent.
pub open spec fn spec_cutoff(total: int, suppress_milli: int) -> int {
    (total * suppress_milli + 50_000) / 100_000
}

/// Computes the suppression cutoff from the total event count and the
/// suppression percentage in thousandths of a percent.
pub fn suppression_cutoff(total_events: u64, suppress_milli: u64) -> (r: u64)
    requires
        suppress_milli <= 100_000,
    ensures
        r == spec_cutoff(total_events as int, suppress_milli as int),
        r <= total_events,
{
    proof {
        let t = total_events as int;
        let s = suppress_milli as int;
        assert(t * s <= t * 100_000) by (nonlinear_arith)
            requires
                0 <= t,
                s <= 100_000,
        ;
        assert(t * 100_000 <= 0xffff_ffff_ffff_ffff * 100_000) by (nonlinear_arith)
            requires
                0 <= t <= 0xffff_ffff_ffff_ffff,
        ;
    }
    let p: u128 = (total_events as u128) * (suppress_milli as u128) + 50_000;
    let c: u128 = p / 100_000;
    proof {
        let t = total_events as int;
        let s = suppress_milli as int;
        assert((t * s + 50_000) / 100_000 <= (t * 100_000 + 50_000) / 100_000) by {
            vstd::arithmetic::div_mod::lemma_div_is_ordered(
                t * s + 50_000,
                t * 100_000 + 50_000,
                100_000,
            );
        }
        assert((t * 100_000 + 50_000) / 100_000 == t) by (nonlinear_arith);
        assert(0 <= (t * s + 50_000) / 100_000) by {
            vstd::arithmetic::div_mod::lemma_div_is_ordered(0, t * s + 50_000, 100_000);
        }
    }
    c as u64
}

/// The code points of a rendered type name.
pub open spec fn chars_u32(s: Seq<char>) -> Seq<u32> {
    s.map_values(|c: char| c as u32)
}

/// The bytes of an address, widened to code points.
pub open spec fn bytes_u32(s: Seq<u8>) -> Seq<u32> {
    s.map_values(|b: u8| b as u32)
}

/// The code points of a string.
fn chars_of(s: &String) -> (out: Vec<u32>)
    ensures
        out@ == chars_u32(s@),
{
    let n = s.as_str().unicode_len();
    let mut out: Vec<u32> = Vec::new();
    let mut i: usize = 0;
    while i < n
        invariant
            0 <= i <= n,
            n == s@.len(),
            out@.len() == i,
            forall|k: int| 0 <= k < i ==> out@[k] == (s@[k] as u32),
        decreases n - i,
    {
        let c = s.as_str().get_char(i);
        out.push(c as u32);
        i += 1;
    }
    proof {
        assert(out@ =~= chars_u32(s@));
    }
    out
}

/// The widened bytes of an address.
fn widen_bytes(v: &Vec<u8>) -> (out: Vec<u32>)
    ensures
        out@ == bytes_u32(v@),
{
    let n = v.len();
    let mut out: Vec<u32> = Vec::new();
    let mut i: usize = 0;
    while i < n
        invariant
            0 <= i <= n,
            n == v@.len(),
            out@.len() == i,
            forall|k: int| 0 <= k < i ==> out@[k] == (v@[k] as u32),
        decreases n - i,
    {
        out.push(v[i] as u32);
        i += 1;
    }
    proof {
        assert(out@ =~= bytes_u32(v@));
    }
    out
}

/// The sort keys of a bucket's per-type counts: count, canonical rendering,
/// position.
pub open spec fn inner_sort_keys(m: Seq<KcModel>) -> Seq<SortKeyModel> {
    Seq::new(
        m.len(),
        |i: int| SortKeyModel { count: m[i].count, text: chars_u32(render_key(m[i].key)), pos: i },
    )
}

/// A bucket's per-type counts, sorted for the report: count descending,
/// rendering ascending, first occurrence as the last tie break.
pub open spec fn spec_rank_inner(m: Seq<KcModel>) -> Seq<KcModel> {
    let sorted = inner_sort_keys(m).sort_by(key_order_fn());
    Seq::new(sorted.len(), |j: int| m[sorted[j].pos])
}

/// Each element of the sorted keys is one of the original keys, so its
/// position indexes the original sequence.
proof fn lemma_sorted_positions(skeys: Seq<SortKeyModel>)
    requires
        forall|i: int| 0 <= i < skeys.len() ==> (#[trigger] skeys[i].pos) == i,
    ensures
        skeys.sort_by(key_order_fn()).len() == skeys.len(),
        forall|j: int|
            0 <= j < skeys.len() ==> {
                let e = #[trigger] skeys.sort_by(key_order_fn())[j];
                0 <= e.pos < skeys.len() && skeys[e.pos] == e
            },
{
    broadcast use vstd::seq_lib::group_to_multiset_ensures;

    lemma_key_order_total();
    let sorted = skeys.sort_by(key_order_fn());
    skeys.lemma_sort_by_ensures(key_order_fn());
    assert(sorted.to_multiset().len() == skeys.to_multiset().len());
    assert forall|j: int| 0 <= j < skeys.len() implies {
        let e = #[trigger] sorted[j];
        0 <= e.pos < skeys.len() && skeys[e.pos] == e
    } by {
        let e = sorted[j];
        assert(sorted.contains(e));
        assert(sorted.to_multiset().contains(e));
        assert(skeys.to_multiset().contains(e));
        assert(skeys.contains(e));
        let i = choose|i: int| 0 <= i < skeys.len() && skeys[i] == e;
        assert(skeys[i].pos == i);
    }
}

/// Sorts a bucket's per-type counts for the report.
pub fn rank_inner(ks: &Vec<KeyCount>) -> (out: Vec<KeyCount>)
    ensures
        out@.map_values(|kc: KeyCount| kc@) == spec_rank_inner(
            ks@.map_values(|kc: KeyCount| kc@),
        ),
{
    let ghost m = ks@.map_values(|kc: KeyCount| kc@);
    let n = ks.len();
    let mut sk: Vec<SortKey> = Vec::new();
    let mut i: usize = 0;
    while i < n
        invariant
            0 <= i <= n,
            n == ks@.len(),
            m == ks@.map_values(|kc: KeyCount| kc@),
            sk@.len() == i,
            forall|k: int| 0 <= k < i ==> (#[trigger] sk@[k]@) == inner_sort_keys(m)[k],
        decreases n - i,
    {
        let rendered = tag_to_short_string(&ks[i].key);
        let text = chars_of(&rendered);
        sk.push(SortKey { count: ks[i].count, text, pos: i });
        proof {
            assert(m[i as int] == ks@[i as int]@);
            assert(sk@[i as int]@ =~= inner_sort_keys(m)[i as int]);
        }
        i += 1;
    }
    proof {
        assert(key_models(sk@) =~= inner_sort_keys(m));
    }
    let sorted = sort_keys(sk);
    proof {
        lemma_sorted_positions(inner_sort_keys(m));
    }
    let ghost sorted_spec = inner_sort_keys(m).sort_by(key_order_fn());
    let sn = sorted.len();
    proof {
        assert(key_models(sorted@) == sorted_spec);
        assert(sn == sorted_spec.len());
    }
    let mut out: Vec<KeyCount> = Vec::new();
    let mut j: usize = 0;
    while j < sn
        invariant
            0 <= j <= sn,
            sn == sorted@.len(),
            n == ks@.len(),
            m == ks@.map_values(|kc: KeyCount| kc@),
            key_models(sorted@) == sorted_spec,
            sorted_spec == inner_sort_keys(m).sort_by(key_order_fn()),
            sorted_spec.len() == n,
            forall|j2: int|
                0 <= j2 < n ==> {
                    let e = #[trigger] sorted_spec[j2];
                    0 <= e.pos < n && inner_sort_keys(m)[e.pos] == e
                },
            out@.len() == j,
            forall|k: int| 0 <= k < j ==> (#[trigger] out@[k]@) == spec_rank_inner(m)[k],
        decreases sn - j,
    {
        let p = sorted[j].pos;
        proof {
            assert(key_models(sorted@)[j as int] == sorted@[j as int]@);
            assert(sorted_spec[j as int].pos == p as int);
            assert(0 <= p < n);
            assert(m[p as int] == ks@[p as int]@);
        }
        let kc = KeyCount { key: key_dup(&ks[p].key), count: ks[p].count };
        out.push(kc);
        proof {
            assert(out@[j as int]@ =~= m[sorted_spec[j as int].pos]);
            assert(spec_rank_inner(m)[j as int] == m[sorted_spec[j as int].pos]);
        }
        j += 1;
    }
    proof {
        assert(out@.map_values(|kc: KeyCount| kc@) =~= spec_rank_inner(m));
    }
    out
}

/// The buckets that survive the cutoff, in their original order: a bucket
/// survives exactly when its total reaches the cutoff.
pub open spec fn survivors(bs: Seq<BucketModel>, cutoff: int) -> Seq<BucketModel>
    decreases bs.len(),
{
    if bs.len() == 0 {
        Seq::empty()
    } else {
        let s = survivors(bs.drop_last(), cutoff);
        if bs.last().total >= cutoff {
            s.push(bs.last())
        } else {
            s
        }
    }
}

/// The sort keys of the surviving buckets: total, address bytes, position.
pub open spec fn outer_sort_keys(bs: Seq<BucketModel>) -> Seq<SortKeyModel> {
    Seq::new(
        bs.len(),
        |i: int| SortKeyModel { count: bs[i].total, text: bytes_u32(bs[i].address), pos: i },
    )
}

/// A surviving bucket as a ranked entry.
pub open spec fn entry_of(b: BucketModel) -> EntryModel {
    EntryModel { address: b.address, total: b.total, by_key: spec_rank_inner(b.by_key) }
}

/// The full ranking of a frozen bucket table: keep the buckets whose total
/// reaches the cutoff, order them by total descending with address bytes
/// and first occurrence as tie breaks, and sort each survivor's nested
/// counts.
pub open spec fn spec_finalize(bs: Seq<BucketModel>, suppress_milli: int) -> Seq<EntryModel> {
    let cutoff = spec_cutoff(sum_totals(bs), suppress_milli);
    let surv = survivors(bs, cutoff);
    let sorted = outer_sort_keys(surv).sort_by(key_order_fn());
    Seq::new(sorted.len(), |j: int| entry_of(surv[sorted[j].pos]))
}

/// Rank & Suppress. Reads the frozen aggregate and produces the ranking;
/// the aggregate is not changed. The result is a pure function of the
/// bucket table and the suppression percentage, so two calls on the same
/// frozen aggregate return the same ranking.
pub fn finalize(agg: &Aggregator, suppress_milli: u64) -> (out: Vec<RankedEntry>)
    requires
        agg.wf(),
        suppress_milli <= 100_000,
    ensures
        entry_models(out@) == spec_finalize(bucket_models(agg.buckets@), suppress_milli as int),
{
    let ghost bs = bucket_models(agg.buckets@);
    let cutoff = suppression_cutoff(agg.ingested, suppress_milli);
    let ghost surv = survivors(bs, cutoff as int);
    proof {
        assert(sum_totals(bs) == agg.history@.len());
        assert(survivors(bs.take(0), cutoff as int) =~= Seq::<BucketModel>::empty());
    }
    let n = agg.buckets.len();
    let mut surv_idx: Vec<usize> = Vec::new();
    let mut i: usize = 0;
    while i < n
        invariant
            0 <= i <= n,
            n == agg.buckets@.len(),
            bs == bucket_models(agg.buckets@),
            surv_idx@.len() == survivors(bs.take(i as int), cutoff as int).len(),
            forall|k: int|
                0 <= k < surv_idx@.len() ==> (#[trigger] surv_idx@[k]) < n && bs[surv_idx@[k] as int]
                    == survivors(bs.take(i as int), cutoff as int)[k],
        decreases n - i,
    {
        let ghost prev = survivors(bs.take(i as int), cutoff as int);
        proof {
            assert(bs.take(i as int + 1).drop_last() =~= bs.take(i as int));
            assert(bs.take(i as int + 1).last() == bs[i as int]);
        }
        if agg.buckets[i].total >= cutoff {
            surv_idx.push(i);
            proof {
                assert(bs[i as int].total == agg.buckets@[i as int].total as int);
                assert(survivors(bs.take(i as int + 1), cutoff as int) == prev.push(bs[i as int]));
            }
        } else {
            proof {
                assert(bs[i as int].total == agg.buckets@[i as int].total as int);
                assert(survivors(bs.take(i as int + 1), cutoff as int) == prev);
            }
        }
        i += 1;
    }
    proof {
        assert(bs.take(n as int) =~= bs);
    }
    let sn = surv_idx.len();
    let mut sk: Vec<SortKey> = Vec::new();
    let mut k: usize = 0;
    while k < sn
        invariant
            0 <= k <= sn,
            sn == surv_idx@.len(),
            n == agg.buckets@.len(),
            bs == bucket_models(agg.buckets@),
            surv.len() == sn,
            forall|k2: int|
                0 <= k2 < sn ==> (#[trigger] surv_idx@[k2]) < n && bs[surv_idx@[k2] as int]
                    == surv[k2],
            sk@.len() == k,
            forall|k2: int| 0 <= k2 < k ==> (#[trigger] sk@[k2]@) == outer_sort_keys(surv)[k2],
        decreases sn - k,
    {
        let bi = surv_idx[k];
        let text = widen_bytes(&agg.buckets[bi].address);
        sk.push(SortKey { count: agg.buckets[bi].total, text, pos: k });
        proof {
            assert(bs[bi as int].address == agg.buckets@[bi as int].address@);
            assert(bs[bi as int].total == agg.buckets@[bi as int].total as int);
            assert(sk@[k as int]@ =~= outer_sort_keys(surv)[k as int]);
        }
        k += 1;
    }
    proof {
        assert(key_models(sk@) =~= outer_sort_keys(surv));
    }
    let sorted = sort_keys(sk);
    proof {
        lemma_sorted_positions(outer_sort_keys(surv));
    }
    let ghost sorted_spec = outer_sort_keys(surv).sort_by(key_order_fn());
    let on = sorted.len();
    proof {
        assert(key_models(sorted@) == sorted_spec);
        assert(on == sorted_spec.len());
    }
    let mut out: Vec<RankedEntry> = Vec::new();
    let mut j: usize = 0;
    while j < on
        invariant
            0 <= j <= on,
            on == sorted@.len(),
            sn == surv_idx@.len(),
            n == agg.buckets@.len(),
            bs == bucket_models(agg.buckets@),
            surv.len() == sn,
            forall|k2: int|
                0 <= k2 < sn ==> (#[trigger] surv_idx@[k2]) < n && bs[surv_idx@[k2] as int]
                    == surv[k2],
            key_models(sorted@) == sorted_spec,
            sorted_spec == outer_sort_keys(surv).sort_by(key_order_fn()),
            sorted_spec.len() == sn,
            forall|j2: int|
                0 <= j2 < sn ==> {
                    let e = #[trigger] sorted_spec[j2];
                    0 <= e.pos < sn && outer_sort_keys(surv)[e.pos] == e
                },
            out@.len() == j,
            forall|k2: int|
                0 <= k2 < j ==> (#[trigger] out@[k2]@) == entry_of(surv[sorted_spec[k2].pos]),
        decreases on - j,
    {
        let p = sorted[j].pos;
        proof {
            assert(key_models(sorted@)[j as int] == sorted@[j as int]@);
            assert(sorted_spec[j as int].pos == p as int);
            assert(0 <= p < sn);
        }
        let bi = surv_idx[p];
        let entry = RankedEntry {
            address: copy_bytes(&agg.buckets[bi].address),
            total: agg.buckets[bi].total,
            by_key: rank_inner(&agg.buckets[bi].by_key),
        };
        out.push(entry);
        proof {
            assert(bs[bi as int] == surv[p as int]);
            assert(bs[bi as int].address == agg.buckets@[bi as int].address@);
            assert(bs[bi as int].total == agg.buckets@[bi as int].total as int);
            assert(bs[bi as int].by_key == agg.buckets@[bi as int].by_key@.map_values(
                |kc: KeyCount| kc@,
            ));
            assert(out@[j as int]@ =~= entry_of(surv[sorted_spec[j as int].pos]));
        }
        j += 1;
    }
    proof {
        assert(entry_models(out@) =~= spec_finalize(bs, suppress_milli as int));
    }
    out
}

/// Determinism of a whole run: two aggregators that ingested the same
/// records produce the same ranking under the same suppression setting.
pub proof fn lemma_run_deterministic(a1: Aggregator, a2: Aggregator, suppress_milli: int)
    requires
        a1.wf(),
        a2.wf(),
        a1.history@ == a2.history@,
    ensures
        spec_finalize(bucket_models(a1.buckets@), suppress_milli) == spec_finalize(
            bucket_models(a2.buckets@),
            suppress_milli,
        ),
{
    crate::aggregate::lemma_aggregate_deterministic(a1, a2);
}

/// Rank & Suppress is idempotent: any two rankings produced from the same
/// frozen bucket table with the same suppression setting are equal.
pub proof fn lemma_finalize_idempotent(
    bs: Seq<BucketModel>,
    suppress_milli: int,
    out1: Seq<EntryModel>,
    out2: Seq<EntryModel>,
)
    requires
        out1 == spec_finalize(bs, suppress_milli),
        out2 == spec_finalize(bs, suppress_milli),
    ensures
        out1 == out2,
{
}

} // verus!
