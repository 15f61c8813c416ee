//! The frequency aggregator: folds a stream of event records into a
//! two-level frequency table (address bucket, then event type) and a flat
//! per-package counter.
//!
//! The aggregate state is a pure function of the sequence of records
//! ingested so far, which `wf` states in full: bucket order is first
//! occurrence, every count is the number of matching records, and the
//! conservation invariants tie all sums to the number of records.

use vstd::prelude::*;
use crate::keys::{EventKey, KeyModel, key_dup, key_eq};

verus! {

/// Mathematical model of one event record.
#[verifier::ext_equal]
pub struct RecModel {
    pub address: Seq<u8>,
    pub package: Seq<u8>,
    pub key: KeyModel,
}

/// One typed event: the emitting module's owning account, the package the
/// event is attributed to, and the fully-qualified event type.
pub struct EventRecord {
    pub address: Vec<u8>,
    pub package_id: Vec<u8>,
    pub type_: EventKey,
}

impl View for EventRecord {
    type V = RecModel;

    open spec fn view(&self) -> RecModel {
        RecModel { address: self.address@, package: self.package_id@, key: self.type_@ }
    }
}

/// One element of an event batch: position in the checkpoint, transaction
/// identifier, and the record itself. Only the record enters the aggregate.
pub struct BatchItem {
    pub index: u64,
    pub ident: Vec<u8>,
    pub record: EventRecord,
}

/// Model of a whole batch: the models of its records, in order.
pub open spec fn batch_models(s: Seq<BatchItem>) -> Seq<RecModel> {
    s.map_values(|it: BatchItem| it.record@)
}

/// A per-type running count inside an address bucket.
#[derive(Debug, PartialEq, Eq)]
pub struct KeyCount {
    pub key: EventKey,
    pub count: u64,
}

/// Model of a per-type count.
#[verifier::ext_equal]
pub struct KcModel {
    pub key: KeyModel,
    pub count: int,
}

impl View for KeyCount {
    type V = KcModel;

    open spec fn view(&self) -> KcModel {
        KcModel { key: self.key@, count: self.count as int }
    }
}

/// The bucket for one emitting address: its running total and the nested
/// per-type counts, in first-occurrence order.
#[derive(Debug, PartialEq, Eq)]
pub struct AddressBucket {
    pub address: Vec<u8>,
    pub total: u64,
    pub by_key: Vec<KeyCount>,
}

/// Model of an address bucket.
#[verifier::ext_equal]
pub struct BucketModel {
    pub address: Seq<u8>,
    pub total: int,
    pub by_key: Seq<KcModel>,
}

impl View for AddressBucket {
    type V = BucketModel;

    open spec fn view(&self) -> BucketModel {
        BucketModel {
            address: self.address@,
            total: self.total as int,
            by_key: self.by_key@.map_values(|kc: KeyCount| kc@),
        }
    }
}

/// A per-package running count.
#[derive(Debug, PartialEq, Eq)]
pub struct PackageCount {
    pub package: Vec<u8>,
    pub count: u64,
}

/// Model of a per-package count.
#[verifier::ext_equal]
pub struct PkgModel {
    pub package: Seq<u8>,
    pub count: int,
}

impl View for PackageCount {
    type V = PkgModel;

    open spec fn view(&self) -> PkgModel {
        PkgModel { package: self.package@, count: self.count as int }
    }
}

/// How many records of `h` were emitted by address `a`.
pub open spec fn count_addr(h: Seq<RecModel>, a: Seq<u8>) -> int
    decreases h.len(),
{
    if h.len() == 0 {
        0
    } else {
        count_addr(h.drop_last(), a) + if h.last().address == a {
            1int
        } else {
            0int
        }
    }
}

/// How many records of `h` were emitted by address `a` with event type `k`.
pub open spec fn count_key(h: Seq<RecModel>, a: Seq<u8>, k: KeyModel) -> int
    decreases h.len(),
{
    if h.len() == 0 {
        0
    } else {
        count_key(h.drop_last(), a, k) + if h.last().address == a && h.last().key == k {
            1int
        } else {
            0int
        }
    }
}

/// How many records of `h` are attributed to package `p`.
pub open spec fn count_pkg(h: Seq<RecModel>, p: Seq<u8>) -> int
    decreases h.len(),
{
    if h.len() == 0 {
        0
    } else {
        count_pkg(h.drop_last(), p) + if h.last().package == p {
            1int
        } else {
            0int
        }
    }
}

/// The distinct emitting addresses of `h`, in first-occurrence order.
pub open spec fn addr_firsts(h: Seq<RecModel>) -> Seq<Seq<u8>>
    decreases h.len(),
{
    if h.len() == 0 {
        Seq::empty()
    } else {
        let f = addr_firsts(h.drop_last());
        if f.contains(h.last().address) {
            f
        } else {
            f.push(h.last().address)
        }
    }
}

/// The distinct event types emitted by address `a` in `h`, in
/// first-occurrence order.
pub open spec fn key_firsts(h: Seq<RecModel>, a: Seq<u8>) -> Seq<KeyModel>
    decreases h.len(),
{
    if h.len() == 0 {
        Seq::empty()
    } else {
        let f = key_firsts(h.drop_last(), a);
        if h.last().address == a && !f.contains(h.last().key) {
            f.push(h.last().key)
        } else {
            f
        }
    }
}

/// The distinct packages of `h`, in first-occurrence order.
pub open spec fn pkg_firsts(h: Seq<RecModel>) -> Seq<Seq<u8>>
    decreases h.len(),
{
    if h.len() == 0 {
        Seq::empty()
    } else {
        let f = pkg_firsts(h.drop_last());
        if f.contains(h.last().package) {
            f
        } else {
            f.push(h.last().package)
        }
    }
}

/// Sum of the bucket totals.
pub open spec fn sum_totals(bs: Seq<BucketModel>) -> int
    decreases bs.len(),
{
    if bs.len() == 0 {
        0
    } else {
        sum_totals(bs.drop_last()) + bs.last().total
    }
}

/// Sum of the nested per-type counts of one bucket.
pub open spec fn sum_inner(ks: Seq<KcModel>) -> int
    decreases ks.len(),
{
    if ks.len() == 0 {
        0
    } else {
        sum_inner(ks.drop_last()) + ks.last().count
    }
}

/// Sum of the per-package counts.
pub open spec fn sum_pkgs(ps: Seq<PkgModel>) -> int
    decreases ps.len(),
{
    if ps.len() == 0 {
        0
    } else {
        sum_pkgs(ps.drop_last()) + ps.last().count
    }
}

/// A count never exceeds the number of records.
pub proof fn lemma_count_bounds(h: Seq<RecModel>, a: Seq<u8>, k: KeyModel, p: Seq<u8>)
    ensures
        0 <= count_addr(h, a) <= h.len(),
        0 <= count_key(h, a, k) <= count_addr(h, a),
        0 <= count_pkg(h, p) <= h.len(),
    decreases h.len(),
{
    if h.len() > 0 {
        lemma_count_bounds(h.drop_last(), a, k, p);
    }
}

/// One step: how every count and first-occurrence list changes when one
/// record is appended to the history.
pub proof fn lemma_history_push(h: Seq<RecModel>, r: RecModel)
    ensures
        forall|a: Seq<u8>| #[trigger] count_addr(h.push(r), a) == count_addr(h, a) + if a
            == r.address {
            1int
        } else {
            0int
        },
        forall|a: Seq<u8>, k: KeyModel| #[trigger] count_key(h.push(r), a, k) == count_key(h, a, k)
            + if a == r.address && k == r.key {
            1int
        } else {
            0int
        },
        forall|p: Seq<u8>| #[trigger] count_pkg(h.push(r), p) == count_pkg(h, p) + if p
            == r.package {
            1int
        } else {
            0int
        },
        addr_firsts(h.push(r)) == if addr_firsts(h).contains(r.address) {
            addr_firsts(h)
        } else {
            addr_firsts(h).push(r.address)
        },
        forall|a: Seq<u8>| #[trigger] key_firsts(h.push(r), a) == if a == r.address && !key_firsts(
            h,
            a,
        ).contains(r.key) {
            key_firsts(h, a).push(r.key)
        } else {
            key_firsts(h, a)
        },
        pkg_firsts(h.push(r)) == if pkg_firsts(h).contains(r.package) {
            pkg_firsts(h)
        } else {
            pkg_firsts(h).push(r.package)
        },
{
    let h1 = h.push(r);
    assert(h1.drop_last() =~= h);
    assert(h1.last() == r);
}

/// Membership in a sequence extended by one element.
pub proof fn lemma_push_contains<A>(s: Seq<A>, x: A)
    ensures
        forall|a: A| #[trigger] s.push(x).contains(a) <==> s.contains(a) || a == x,
{
    assert forall|a: A| #[trigger] s.push(x).contains(a) <==> s.contains(a) || a == x by {
        if a == x {
            assert(s.push(x)[s.len() as int] == a);
        }
        if s.contains(a) {
            let i = choose|i: int| 0 <= i < s.len() && s[i] == a;
            assert(s.push(x)[i] == a);
        }
        if s.push(x).contains(a) {
            let i = choose|i: int| 0 <= i < s.push(x).len() && s.push(x)[i] == a;
            if i < s.len() {
                assert(s[i] == a);
            }
        }
    }
}

/// First-occurrence lists hold each element once, and hold exactly the
/// elements that occur.
pub proof fn lemma_addr_firsts(h: Seq<RecModel>)
    ensures
        forall|i: int, j: int|
            0 <= i < j < addr_firsts(h).len() ==> addr_firsts(h)[i] != addr_firsts(h)[j],
        forall|a: Seq<u8>| addr_firsts(h).contains(a) <==> #[trigger] count_addr(h, a) > 0,
    decreases h.len(),
{
    if h.len() > 0 {
        lemma_addr_firsts(h.drop_last());
        lemma_push_contains(addr_firsts(h.drop_last()), h.last().address);
        assert forall|a: Seq<u8>| addr_firsts(h).contains(a) <==> #[trigger] count_addr(h, a)
            > 0 by {
            lemma_count_bounds(h.drop_last(), a, arbitrary(), arbitrary());
            if a != h.last().address {
                assert(addr_firsts(h).contains(a) <==> addr_firsts(h.drop_last()).contains(a));
            }
        }
    }
}

/// Same facts for the per-address event type lists.
pub proof fn lemma_key_firsts(h: Seq<RecModel>, a: Seq<u8>)
    ensures
        forall|i: int, j: int|
            0 <= i < j < key_firsts(h, a).len() ==> key_firsts(h, a)[i] != key_firsts(h, a)[j],
        forall|k: KeyModel| key_firsts(h, a).contains(k) <==> #[trigger] count_key(h, a, k) > 0,
    decreases h.len(),
{
    if h.len() > 0 {
        lemma_key_firsts(h.drop_last(), a);
        lemma_push_contains(key_firsts(h.drop_last(), a), h.last().key);
        assert forall|k: KeyModel| key_firsts(h, a).contains(k) <==> #[trigger] count_key(h, a, k)
            > 0 by {
            lemma_count_bounds(h.drop_last(), a, k, arbitrary());
            if !(h.last().address == a && h.last().key == k) {
                assert(key_firsts(h, a).contains(k) <==> key_firsts(h.drop_last(), a).contains(k));
            }
        }
    }
}

/// Same facts for the package list.
pub proof fn lemma_pkg_firsts(h: Seq<RecModel>)
    ensures
        forall|i: int, j: int|
            0 <= i < j < pkg_firsts(h).len() ==> pkg_firsts(h)[i] != pkg_firsts(h)[j],
        forall|p: Seq<u8>| pkg_firsts(h).contains(p) <==> #[trigger] count_pkg(h, p) > 0,
    decreases h.len(),
{
    if h.len() > 0 {
        lemma_pkg_firsts(h.drop_last());
        lemma_push_contains(pkg_firsts(h.drop_last()), h.last().package);
        assert forall|p: Seq<u8>| pkg_firsts(h).contains(p) <==> #[trigger] count_pkg(h, p)
            > 0 by {
            lemma_count_bounds(h.drop_last(), arbitrary(), arbitrary(), p);
            if p != h.last().package {
                assert(pkg_firsts(h).contains(p) <==> pkg_firsts(h.drop_last()).contains(p));
            }
        }
    }
}

/// Updating one element changes a sum by the difference.
pub proof fn lemma_sum_totals_update(bs: Seq<BucketModel>, i: int, b: BucketModel)
    requires
        0 <= i < bs.len(),
    ensures
        sum_totals(bs.update(i, b)) == sum_totals(bs) - bs[i].total + b.total,
    decreases bs.len(),
{
    let u = bs.update(i, b);
    assert(u.len() == bs.len());
    if i == bs.len() - 1 {
        assert(u.drop_last() =~= bs.drop_last());
        assert(u.last() == b);
    } else {
        assert(u.drop_last() =~= bs.drop_last().update(i, b));
        assert(u.last() == bs.last());
        lemma_sum_totals_update(bs.drop_last(), i, b);
    }
}

/// Updating one element changes a sum by the difference.
pub proof fn lemma_sum_inner_update(ks: Seq<KcModel>, i: int, kc: KcModel)
    requires
        0 <= i < ks.len(),
    ensures
        sum_inner(ks.update(i, kc)) == sum_inner(ks) - ks[i].count + kc.count,
    decreases ks.len(),
{
    let u = ks.update(i, kc);
    if i == ks.len() - 1 {
        assert(u.drop_last() =~= ks.drop_last());
        assert(u.last() == kc);
    } else {
        assert(u.drop_last() =~= ks.drop_last().update(i, kc));
        assert(u.last() == ks.last());
        lemma_sum_inner_update(ks.drop_last(), i, kc);
    }
}

/// Updating one element changes a sum by the difference.
pub proof fn lemma_sum_pkgs_update(ps: Seq<PkgModel>, i: int, p: PkgModel)
    requires
        0 <= i < ps.len(),
    ensures
        sum_pkgs(ps.update(i, p)) == sum_pkgs(ps) - ps[i].count + p.count,
    decreases ps.len(),
{
    let u = ps.update(i, p);
    if i == ps.len() - 1 {
        assert(u.drop_last() =~= ps.drop_last());
        assert(u.last() == p);
    } else {
        assert(u.drop_last() =~= ps.drop_last().update(i, p));
        assert(u.last() == ps.last());
        lemma_sum_pkgs_update(ps.drop_last(), i, p);
    }
}

/// The models of a sequence of buckets.
pub open spec fn bucket_models(bs: Seq<AddressBucket>) -> Seq<BucketModel> {
    bs.map_values(|b: AddressBucket| b@)
}

/// The models of a sequence of package counters.
pub open spec fn pkg_models(ps: Seq<PackageCount>) -> Seq<PkgModel> {
    ps.map_values(|p: PackageCount| p@)
}

/// One bucket agrees with the history: its total counts the records from
/// its address, its per-type list is the first-occurrence list of that
/// address's event types with their exact counts, and the nested counts sum
/// to the total.
pub open spec fn bucket_wf(b: BucketModel, h: Seq<RecModel>) -> bool {
    &&& b.total == count_addr(h, b.address)
    &&& b.by_key.len() == key_firsts(h, b.address).len()
    &&& forall|j: int|
        0 <= j < b.by_key.len() ==> (#[trigger] b.by_key[j].key) == key_firsts(h, b.address)[j]
    &&& forall|j: int|
        0 <= j < b.by_key.len() ==> (#[trigger] b.by_key[j].count) == count_key(
            h,
            b.address,
            b.by_key[j].key,
        )
    &&& sum_inner(b.by_key) == b.total
}

/// The bucket table agrees with the history: one bucket per distinct
/// address in first-occurrence order, each well formed, totals summing to
/// the record count.
pub open spec fn buckets_wf(bs: Seq<BucketModel>, h: Seq<RecModel>) -> bool {
    &&& bs.len() == addr_firsts(h).len()
    &&& forall|i: int| 0 <= i < bs.len() ==> (#[trigger] bs[i].address) == addr_firsts(h)[i]
    &&& forall|i: int| 0 <= i < bs.len() ==> bucket_wf(#[trigger] bs[i], h)
    &&& sum_totals(bs) == h.len()
}

/// The package table agrees with the history.
pub open spec fn pkgs_wf(ps: Seq<PkgModel>, h: Seq<RecModel>) -> bool {
    &&& ps.len() == pkg_firsts(h).len()
    &&& forall|i: int| 0 <= i < ps.len() ==> (#[trigger] ps[i].package) == pkg_firsts(h)[i]
    &&& forall|i: int|
        0 <= i < ps.len() ==> (#[trigger] ps[i].count) == count_pkg(h, ps[i].package)
    &&& sum_pkgs(ps) == h.len()
}

/// Byte-for-byte equality of two byte strings.
pub fn bytes_eq(a: &Vec<u8>, b: &Vec<u8>) -> (r: bool)
    ensures
        r == (a@ == b@),
{
    if a.len() != b.len() {
        return false;
    }
    let n = a.len();
    let mut i: usize = 0;
    while i < n
        invariant
            0 <= i <= n,
            n == a@.len() == b@.len(),
            forall|k: int| 0 <= k < i ==> a@[k] == b@[k],
        decreases n - i,
    {
        if a[i] != b[i] {
            return false;
        }
        i += 1;
    }
    proof {
        assert(a@ =~= b@);
    }
    true
}

/// A fresh copy of a byte string.
pub fn copy_bytes(v: &Vec<u8>) -> (r: Vec<u8>)
    ensures
        r@ == v@,
{
    let n = v.len();
    let mut out: Vec<u8> = Vec::new();
    let mut i: usize = 0;
    while i < n
        invariant
            0 <= i <= n,
            n == v@.len(),
            out@ =~= v@.take(i as int),
        decreases n - i,
    {
        out.push(v[i]);
        proof {
            assert(out@ =~= v@.take(i as int + 1));
        }
        i += 1;
    }
    proof {
        assert(v@.take(n as int) =~= v@);
    }
    out
}

/// Finds the bucket of an address, if one exists.
fn find_addr(buckets: &Vec<AddressBucket>, addr: &Vec<u8>) -> (r: Option<usize>)
    ensures
        match r {
            Some(i) => i < buckets@.len() && buckets@[i as int].address@ == addr@,
            None => forall|k: int|
                0 <= k < buckets@.len() ==> (#[trigger] buckets@[k].address@) != addr@,
        },
{
    let n = buckets.len();
    let mut i: usize = 0;
    while i < n
        invariant
            0 <= i <= n,
            n == buckets@.len(),
            forall|k: int| 0 <= k < i ==> (#[trigger] buckets@[k].address@) != addr@,
        decreases n - i,
    {
        if bytes_eq(&buckets[i].address, addr) {
            return Some(i);
        }
        i += 1;
    }
    None
}

/// Finds the entry of an event type, if one exists.
fn find_key(ks: &Vec<KeyCount>, key: &EventKey) -> (r: Option<usize>)
    ensures
        match r {
            Some(j) => j < ks@.len() && ks@[j as int].key@ == key@,
            None => forall|k: int| 0 <= k < ks@.len() ==> (#[trigger] ks@[k].key@) != key@,
        },
{
    let n = ks.len();
    let mut i: usize = 0;
    while i < n
        invariant
            0 <= i <= n,
            n == ks@.len(),
            forall|k: int| 0 <= k < i ==> (#[trigger] ks@[k].key@) != key@,
        decreases n - i,
    {
        if key_eq(&ks[i].key, key) {
            return Some(i);
        }
        i += 1;
    }
    None
}

/// Finds the counter of a package, if one exists.
fn find_pkg(ps: &Vec<PackageCount>, pkg: &Vec<u8>) -> (r: Option<usize>)
    ensures
        match r {
            Some(i) => i < ps@.len() && ps@[i as int].package@ == pkg@,
            None => forall|k: int|
                0 <= k < ps@.len() ==> (#[trigger] ps@[k].package@) != pkg@,
        },
{
    let n = ps.len();
    let mut i: usize = 0;
    while i < n
        invariant
            0 <= i <= n,
            n == ps@.len(),
            forall|k: int| 0 <= k < i ==> (#[trigger] ps@[k].package@) != pkg@,
        decreases n - i,
    {
        if bytes_eq(&ps[i].package, pkg) {
            return Some(i);
        }
        i += 1;
    }
    None
}

/// The streaming frequency aggregator. Owned by the single consumer of the
/// event stream; populated monotonically while batches arrive, frozen once
/// the stream ends.
pub struct Aggregator {
    /// One bucket per emitting address, in first-occurrence order.
    pub buckets: Vec<AddressBucket>,
    /// One counter per package, in first-occurrence order.
    pub packages: Vec<PackageCount>,
    /// The number of event records ingested so far.
    pub ingested: u64,
    /// The records ingested so far, oldest first.
    pub history: Ghost<Seq<RecModel>>,
}

impl Aggregator {
    /// The aggregate state is exactly the fold of its history.
    pub open spec fn wf(self) -> bool {
        &&& self.ingested == self.history@.len()
        &&& buckets_wf(bucket_models(self.buckets@), self.history@)
        &&& pkgs_wf(pkg_models(self.packages@), self.history@)
    }

    /// A fresh, empty aggregator.
    pub fn new() -> (r: Aggregator)
        ensures
            r.wf(),
            r.history@ == Seq::<RecModel>::empty(),
            r.ingested == 0,
            r.buckets@.len() == 0,
            r.packages@.len() == 0,
    {
        let r = Aggregator {
            buckets: Vec::new(),
            packages: Vec::new(),
            ingested: 0,
            history: Ghost(Seq::empty()),
        };
        proof {
            assert(bucket_models(r.buckets@) =~= Seq::<BucketModel>::empty());
            assert(pkg_models(r.packages@) =~= Seq::<PkgModel>::empty());
            assert(addr_firsts(r.history@) =~= Seq::<Seq<u8>>::empty());
            assert(pkg_firsts(r.history@) =~= Seq::<Seq<u8>>::empty());
        }
        r
    }

    /// Folds one event record into the aggregate.
    fn note_record(&mut self, rec: &EventRecord)
        requires
            old(self).wf(),
            old(self).ingested < u64::MAX,
        ensures
            final(self).wf(),
            final(self).history@ == old(self).history@.push(rec@),
            final(self).ingested == old(self).ingested + 1,
    {
        let ghost h0 = self.history@;
        let ghost r = rec@;
        let ghost h1 = h0.push(r);
        proof {
            lemma_history_push(h0, r);
            lemma_addr_firsts(h0);
            lemma_pkg_firsts(h0);
            lemma_count_bounds(h0, r.address, r.key, r.package);
        }
        touch_bucket(&mut self.buckets, rec, Ghost(h0));
        touch_pkg(&mut self.packages, rec, Ghost(h0));
        self.ingested = self.ingested + 1;
        self.history = Ghost(h1);
    }

    /// Folds one batch of event records into the aggregate, in order.
    ///
    /// Ingestion raises no errors; the aggregate after the call is the fold
    /// of the old history extended by the batch's records.
    pub fn ingest(&mut self, batch: &Vec<BatchItem>)
        requires
            old(self).wf(),
            old(self).ingested + batch@.len() <= u64::MAX,
        ensures
            final(self).wf(),
            final(self).history@ == old(self).history@ + batch_models(batch@),
            final(self).ingested == old(self).ingested + batch@.len(),
    {
        let n = batch.len();
        let mut i: usize = 0;
        proof {
            assert(self.history@ =~= self.history@ + batch_models(batch@).take(0));
        }
        while i < n
            invariant
                0 <= i <= n,
                n == batch@.len(),
                self.wf(),
                self.history@ == old(self).history@ + batch_models(batch@).take(i as int),
                self.ingested == old(self).ingested + i,
                old(self).ingested + batch@.len() <= u64::MAX,
            decreases n - i,
        {
            self.note_record(&batch[i].record);
            proof {
                assert(batch_models(batch@)[i as int] == batch@[i as int].record@);
                assert((old(self).history@ + batch_models(batch@).take(i as int)).push(
                    batch@[i as int].record@,
                ) =~= old(self).history@ + batch_models(batch@).take(i as int + 1));
            }
            i += 1;
        }
        proof {
            assert(batch_models(batch@).take(n as int) =~= batch_models(batch@));
        }
    }
}

/// Conservation: however many batches were ingested, the bucket totals sum
/// to the number of records ingested, the package counts sum to the same
/// number, and inside every bucket the nested per-type counts sum to that
/// bucket's total.
pub proof fn lemma_conservation(agg: Aggregator)
    requires
        agg.wf(),
    ensures
        sum_totals(bucket_models(agg.buckets@)) == agg.ingested,
        sum_pkgs(pkg_models(agg.packages@)) == agg.ingested,
        forall|i: int|
            0 <= i < agg.buckets@.len() ==> sum_inner(#[trigger] bucket_models(agg.buckets@)[i].by_key)
                == bucket_models(agg.buckets@)[i].total,
{
}

/// Determinism: two aggregators that ingested the same records are in the
/// same state, whatever order their internal tables were probed in. With
/// `finalize`'s and the renderer's exact contracts, byte-identical reports
/// follow.
pub proof fn lemma_aggregate_deterministic(a1: Aggregator, a2: Aggregator)
    requires
        a1.wf(),
        a2.wf(),
        a1.history@ == a2.history@,
    ensures
        bucket_models(a1.buckets@) == bucket_models(a2.buckets@),
        pkg_models(a1.packages@) == pkg_models(a2.packages@),
        a1.ingested == a2.ingested,
{
    let h = a1.history@;
    let bs1 = bucket_models(a1.buckets@);
    let bs2 = bucket_models(a2.buckets@);
    assert forall|i: int| 0 <= i < bs1.len() implies bs1[i] == bs2[i] by {
        assert(bs1[i].address == addr_firsts(h)[i]);
        assert(bs2[i].address == addr_firsts(h)[i]);
        assert(bucket_wf(bs1[i], h));
        assert(bucket_wf(bs2[i], h));
        assert forall|j: int| 0 <= j < bs1[i].by_key.len() implies bs1[i].by_key[j]
            == bs2[i].by_key[j] by {
            assert(bs1[i].by_key[j].key == key_firsts(h, bs1[i].address)[j]);
            assert(bs2[i].by_key[j].key == key_firsts(h, bs2[i].address)[j]);
            assert(bs1[i].by_key[j] =~= bs2[i].by_key[j]);
        }
        assert(bs1[i].by_key =~= bs2[i].by_key);
        assert(bs1[i] =~= bs2[i]);
    }
    assert(bs1 =~= bs2);
    let ps1 = pkg_models(a1.packages@);
    let ps2 = pkg_models(a2.packages@);
    assert forall|i: int| 0 <= i < ps1.len() implies ps1[i] == ps2[i] by {
        assert(ps1[i].package == pkg_firsts(h)[i]);
        assert(ps2[i].package == pkg_firsts(h)[i]);
        assert(ps1[i] =~= ps2[i]);
    }
    assert(ps1 =~= ps2);
}

/// Credits one record to its address bucket, creating the bucket on first
/// occurrence.
fn touch_bucket(buckets: &mut Vec<AddressBucket>, rec: &EventRecord, Ghost(h): Ghost<Seq<RecModel>>)
    requires
        buckets_wf(bucket_models(old(buckets)@), h),
        h.len() < u64::MAX,
    ensures
        buckets_wf(bucket_models(final(buckets)@), h.push(rec@)),
{
    let ghost r = rec@;
    let ghost h1 = h.push(r);
    let ghost bs0 = bucket_models(buckets@);
    proof {
        lemma_history_push(h, r);
        lemma_addr_firsts(h);
        lemma_count_bounds(h, r.address, r.key, r.package);
    }
    match find_addr(buckets, &rec.address) {
        Some(i) => {
            proof {
                assert(bs0[i as int].address == r.address);
                assert(addr_firsts(h)[i as int] == r.address);
                assert(addr_firsts(h).contains(r.address));
                assert(addr_firsts(h1) == addr_firsts(h));
            }
            let mut b = buckets.remove(i);
            let ghost bm0 = b@;
            proof {
                assert(bm0 == bs0[i as int]);
                assert(bucket_wf(bm0, h));
                assert(b.total < u64::MAX) by {
                    lemma_count_bounds(h, bm0.address, r.key, r.package);
                }
            }
            bump_bucket(&mut b, rec, Ghost(h));
            let ghost bm1 = b@;
            buckets.insert(i, b);
            proof {
                assert(bucket_models(buckets@) =~= bs0.update(i as int, bm1));
                lemma_sum_totals_update(bs0, i as int, bm1);
                let bs1 = bucket_models(buckets@);
                assert forall|k: int| 0 <= k < bs1.len() implies bucket_wf(
                    #[trigger] bs1[k],
                    h1,
                ) by {
                    if k != i {
                        assert(bs1[k] == bs0[k]);
                        assert(bucket_wf(bs0[k], h));
                        assert(bs0[k].address == addr_firsts(h)[k]);
                        assert(bs0[k].address != r.address);
                        lemma_bucket_wf_other(bs0[k], h, r);
                    }
                }
            }
        },
        None => {
            proof {
                if addr_firsts(h).contains(r.address) {
                    let i = choose|i: int|
                        0 <= i < addr_firsts(h).len() && addr_firsts(h)[i] == r.address;
                    assert(bs0[i].address == r.address);
                }
                assert(!addr_firsts(h).contains(r.address));
                assert(count_addr(h, r.address) == 0);
            }
            let mut by_key: Vec<KeyCount> = Vec::new();
            by_key.push(KeyCount { key: key_dup(&rec.type_), count: 1 });
            let b = AddressBucket { address: copy_bytes(&rec.address), total: 1, by_key };
            let ghost bm = b@;
            buckets.push(b);
            proof {
                lemma_key_firsts(h, r.address);
                if key_firsts(h, r.address).len() > 0 {
                    let k0 = key_firsts(h, r.address)[0];
                    assert(key_firsts(h, r.address).contains(k0));
                    lemma_count_bounds(h, r.address, k0, r.package);
                    assert(false);
                }
                assert(key_firsts(h, r.address) =~= Seq::<KeyModel>::empty());
                assert(key_firsts(h1, r.address) =~= Seq::<KeyModel>::empty().push(r.key));
                assert(bm.by_key =~= Seq::<KcModel>::empty().push(KcModel { key: r.key, count: 1 }));
                assert(count_key(h1, r.address, r.key) == count_key(h, r.address, r.key) + 1);
                lemma_count_bounds(h, r.address, r.key, r.package);
                assert(bm.by_key.drop_last() =~= Seq::<KcModel>::empty());
                assert(sum_inner(Seq::<KcModel>::empty()) == 0);
                assert(bm.by_key.last() == KcModel { key: r.key, count: 1 });
                assert(sum_inner(bm.by_key) == 1);
                assert(bucket_wf(bm, h1));
                assert(bucket_models(buckets@) =~= bs0.push(bm));
                assert(bs0.push(bm).drop_last() =~= bs0);
                assert(sum_totals(bs0.push(bm)) == sum_totals(bs0) + 1);
                let bs1 = bucket_models(buckets@);
                assert forall|k: int| 0 <= k < bs1.len() implies bucket_wf(
                    #[trigger] bs1[k],
                    h1,
                ) by {
                    if k < bs1.len() - 1 {
                        assert(bs1[k] == bs0[k]);
                        assert(bs0[k].address == addr_firsts(h)[k]);
                        assert(addr_firsts(h).contains(bs0[k].address));
                        assert(bs0[k].address != r.address);
                        lemma_bucket_wf_other(bs0[k], h, r);
                    }
                }
                assert(addr_firsts(h1) =~= addr_firsts(h).push(r.address));
            }
        },
    }
}

/// A bucket whose address is not the appended record's keeps its facts.
proof fn lemma_bucket_wf_other(b: BucketModel, h: Seq<RecModel>, r: RecModel)
    requires
        bucket_wf(b, h),
        b.address != r.address,
    ensures
        bucket_wf(b, h.push(r)),
{
    lemma_history_push(h, r);
}

/// Credits one record inside its own bucket: total up by one, and the
/// record's event type entry found or created and bumped.
fn bump_bucket(b: &mut AddressBucket, rec: &EventRecord, Ghost(h): Ghost<Seq<RecModel>>)
    requires
        bucket_wf(old(b)@, h),
        old(b).address@ == rec@.address,
        old(b).total < u64::MAX,
    ensures
        bucket_wf(final(b)@, h.push(rec@)),
        final(b)@.address == old(b)@.address,
        final(b)@.total == old(b)@.total + 1,
{
    let ghost r = rec@;
    let ghost h1 = h.push(r);
    let ghost ks0 = old(b)@.by_key;
    proof {
        lemma_history_push(h, r);
        lemma_key_firsts(h, r.address);
    }
    b.total = b.total + 1;
    match find_key(&b.by_key, &rec.type_) {
        Some(j) => {
            proof {
                assert(ks0[j as int].key == r.key);
                assert(key_firsts(h, r.address)[j as int] == r.key);
                assert(key_firsts(h, r.address).contains(r.key));
                assert(key_firsts(h1, r.address) == key_firsts(h, r.address));
                assert(ks0[j as int].count < u64::MAX) by {
                    lemma_count_bounds(h, r.address, r.key, r.package);
                }
            }
            let mut kc = b.by_key.remove(j);
            kc.count = kc.count + 1;
            let ghost kc1 = kc@;
            b.by_key.insert(j, kc);
            proof {
                assert(b@.by_key =~= ks0.update(j as int, kc1));
                lemma_sum_inner_update(ks0, j as int, kc1);
                assert forall|j2: int| 0 <= j2 < b@.by_key.len() implies (#[trigger] b@.by_key[j2].count)
                    == count_key(h1, r.address, b@.by_key[j2].key) by {
                    if j2 != j {
                        assert(b@.by_key[j2] == ks0[j2]);
                        assert(ks0[j2].key == key_firsts(h, r.address)[j2]);
                        assert(ks0[j2].key != r.key);
                    }
                }
                assert(bucket_wf(b@, h1));
            }
        },
        None => {
            proof {
                if key_firsts(h, r.address).contains(r.key) {
                    let j = choose|j: int|
                        0 <= j < key_firsts(h, r.address).len() && key_firsts(h, r.address)[j]
                            == r.key;
                    assert(ks0[j].key == r.key);
                }
                assert(!key_firsts(h, r.address).contains(r.key));
                lemma_count_bounds(h, r.address, r.key, r.package);
                assert(count_key(h, r.address, r.key) == 0);
                assert(key_firsts(h1, r.address) == key_firsts(h, r.address).push(r.key));
            }
            b.by_key.push(KeyCount { key: key_dup(&rec.type_), count: 1 });
            proof {
                assert(b@.by_key =~= ks0.push(KcModel { key: r.key, count: 1 }));
                assert(ks0.push(KcModel { key: r.key, count: 1 }).drop_last() =~= ks0);
                assert(sum_inner(ks0.push(KcModel { key: r.key, count: 1 })) == sum_inner(ks0)
                    + 1);
                assert forall|j2: int| 0 <= j2 < b@.by_key.len() implies (#[trigger] b@.by_key[j2].count)
                    == count_key(h1, r.address, b@.by_key[j2].key) by {
                    if j2 < b@.by_key.len() - 1 {
                        assert(b@.by_key[j2] == ks0[j2]);
                        assert(ks0[j2].key == key_firsts(h, r.address)[j2]);
                        assert(ks0[j2].key != r.key);
                    }
                }
                assert(bucket_wf(b@, h1));
            }
        },
    }
}

/// Credits one record to its package counter, creating the counter on
/// first occurrence.
fn touch_pkg(packages: &mut Vec<PackageCount>, rec: &EventRecord, Ghost(h): Ghost<Seq<RecModel>>)
    requires
        pkgs_wf(pkg_models(old(packages)@), h),
        h.len() < u64::MAX,
    ensures
        pkgs_wf(pkg_models(final(packages)@), h.push(rec@)),
{
    let ghost r = rec@;
    let ghost h1 = h.push(r);
    let ghost ps0 = pkg_models(packages@);
    proof {
        lemma_history_push(h, r);
        lemma_pkg_firsts(h);
        lemma_count_bounds(h, r.address, r.key, r.package);
    }
    match find_pkg(packages, &rec.package_id) {
        Some(i) => {
            proof {
                assert(ps0[i as int].package == r.package);
                assert(pkg_firsts(h)[i as int] == r.package);
                assert(pkg_firsts(h).contains(r.package));
                assert(pkg_firsts(h1) == pkg_firsts(h));
            }
            let mut p = packages.remove(i);
            proof {
                assert(p@ == ps0[i as int]);
                assert(ps0[i as int].count == count_pkg(h, ps0[i as int].package));
                assert(p.count == count_pkg(h, r.package));
                assert(p.count < u64::MAX);
            }
            p.count = p.count + 1;
            let ghost pm1 = p@;
            packages.insert(i, p);
            proof {
                assert(pkg_models(packages@) =~= ps0.update(i as int, pm1));
                lemma_sum_pkgs_update(ps0, i as int, pm1);
                let ps1 = pkg_models(packages@);
                assert forall|k: int| 0 <= k < ps1.len() implies (#[trigger] ps1[k].count)
                    == count_pkg(h1, ps1[k].package) by {
                    if k != i {
                        assert(ps1[k] == ps0[k]);
                        assert(ps0[k].package == pkg_firsts(h)[k]);
                        assert(ps0[k].package != r.package);
                    }
                }
            }
        },
        None => {
            proof {
                if pkg_firsts(h).contains(r.package) {
                    let i = choose|i: int|
                        0 <= i < pkg_firsts(h).len() && pkg_firsts(h)[i] == r.package;
                    assert(ps0[i].package == r.package);
                }
                assert(!pkg_firsts(h).contains(r.package));
                assert(count_pkg(h, r.package) == 0);
            }
            packages.push(PackageCount { package: copy_bytes(&rec.package_id), count: 1 });
            proof {
                let ps1 = pkg_models(packages@);
                assert(ps1 =~= ps0.push(PkgModel { package: r.package, count: 1 }));
                assert(ps0.push(PkgModel { package: r.package, count: 1 }).drop_last() =~= ps0);
                assert(sum_pkgs(ps1) == sum_pkgs(ps0) + 1);
                assert(pkg_firsts(h1) =~= pkg_firsts(h).push(r.package));
                assert forall|k: int| 0 <= k < ps1.len() implies (#[trigger] ps1[k].count)
                    == count_pkg(h1, ps1[k].package) by {
                    if k < ps1.len() - 1 {
                        assert(ps1[k] == ps0[k]);
                        assert(ps0[k].package == pkg_firsts(h)[k]);
                        assert(ps0[k].package != r.package);
                    }
                }
            }
        },
    }
}

} // verus!
