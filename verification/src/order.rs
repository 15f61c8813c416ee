//! The deterministic ordering used by the ranking stage: count descending,
//! then a canonical text key ascending, then first-occurrence position.
//! Sorting by it is pinned to `Seq::sort_by`, so the sorted form of any
//! aggregate is unique.

use vstd::prelude::*;
use vstd::multiset::Multiset;
use vstd::relations::{sorted_by, total_ordering};
use vstd::seq_lib::lemma_sorted_unique;

verus! {

/// Strict lexicographic order on sequences of code points.
pub open spec fn lex_lt(a: Seq<u32>, b: Seq<u32>) -> bool
    decreases a.len(),
{
    if b.len() == 0 {
        false
    } else if a.len() == 0 {
        true
    } else if a[0] < b[0] {
        true
    } else if a[0] > b[0] {
        false
    } else {
        lex_lt(a.drop_first(), b.drop_first())
    }
}

/// Lexicographic order is irreflexive.
pub proof fn lemma_lex_lt_irreflexive(a: Seq<u32>)
    ensures
        !lex_lt(a, a),
    decreases a.len(),
{
    if a.len() > 0 {
        lemma_lex_lt_irreflexive(a.drop_first());
    }
}

/// Two sequences neither of which is lexicographically below the other are
/// equal.
pub proof fn lemma_lex_lt_connected(a: Seq<u32>, b: Seq<u32>)
    requires
        !lex_lt(a, b),
        !lex_lt(b, a),
    ensures
        a == b,
    decreases a.len(),
{
    if a.len() == 0 || b.len() == 0 {
        assert(a =~= b);
    } else {
        lemma_lex_lt_connected(a.drop_first(), b.drop_first());
        assert(a =~= seq![a[0]] + a.drop_first());
        assert(b =~= seq![b[0]] + b.drop_first());
    }
}

/// Lexicographic order is transitive.
pub proof fn lemma_lex_lt_transitive(a: Seq<u32>, b: Seq<u32>, c: Seq<u32>)
    requires
        lex_lt(a, b),
        lex_lt(b, c),
    ensures
        lex_lt(a, c),
    decreases a.len(),
{
    if a.len() > 0 && b.len() > 0 && c.len() > 0 && a[0] == b[0] && b[0] == c[0] {
        lemma_lex_lt_transitive(a.drop_first(), b.drop_first(), c.drop_first());
    }
}

/// Mathematical sort key of a ranked item: count (heavier first), canonical
/// text (lexicographically earlier first), position (earlier first).
#[verifier::ext_equal]
pub struct SortKeyModel {
    pub count: int,
    pub text: Seq<u32>,
    pub pos: int,
}

/// The ranking order on sort keys.
pub open spec fn key_order(x: SortKeyModel, y: SortKeyModel) -> bool {
    ||| x.count > y.count
    ||| (x.count == y.count && lex_lt(x.text, y.text))
    ||| (x.count == y.count && x.text == y.text && x.pos <= y.pos)
}

/// The ranking order as a first-class relation, for `sort_by`.
pub open spec fn key_order_fn() -> spec_fn(SortKeyModel, SortKeyModel) -> bool {
    |x: SortKeyModel, y: SortKeyModel| key_order(x, y)
}

/// The ranking order is a total ordering, so a sequence of sort keys has
/// exactly one sorted form.
pub proof fn lemma_key_order_total()
    ensures
        total_ordering(key_order_fn()),
{
    let r = key_order_fn();
    assert forall|x: SortKeyModel| #[trigger] r(x, x) by {
        lemma_lex_lt_irreflexive(x.text);
    }
    assert forall|x: SortKeyModel, y: SortKeyModel| #[trigger] r(x, y) && #[trigger] r(y, x)
        implies x == y by {
        if lex_lt(x.text, y.text) && lex_lt(y.text, x.text) {
            lemma_lex_lt_transitive(x.text, y.text, x.text);
            lemma_lex_lt_irreflexive(x.text);
        }
        if lex_lt(x.text, y.text) {
            lemma_lex_lt_irreflexive(x.text);
        }
        if lex_lt(y.text, x.text) {
            lemma_lex_lt_irreflexive(y.text);
        }
        assert(x.count == y.count && x.text == y.text && x.pos == y.pos);
        assert(x =~= y);
    }
    assert forall|x: SortKeyModel, y: SortKeyModel, z: SortKeyModel|
        #[trigger] r(x, y) && #[trigger] r(y, z) implies r(x, z) by {
        if x.count == y.count && y.count == z.count {
            if lex_lt(x.text, y.text) && lex_lt(y.text, z.text) {
                lemma_lex_lt_transitive(x.text, y.text, z.text);
            }
        }
    }
    assert forall|x: SortKeyModel, y: SortKeyModel| #[trigger] r(x, y) || #[trigger] r(y, x) by {
        if x.count == y.count && !lex_lt(x.text, y.text) && !lex_lt(y.text, x.text) {
            lemma_lex_lt_connected(x.text, y.text);
        }
    }
}

/// Executable sort key: count, canonical text as code points, original
/// position.
pub struct SortKey {
    pub count: u64,
    pub text: Vec<u32>,
    pub pos: usize,
}

impl View for SortKey {
    type V = SortKeyModel;

    open spec fn view(&self) -> SortKeyModel {
        SortKeyModel { count: self.count as int, text: self.text@, pos: self.pos as int }
    }
}

/// The models of a sequence of sort keys.
pub open spec fn key_models(s: Seq<SortKey>) -> Seq<SortKeyModel> {
    s.map_values(|k: SortKey| k@)
}

/// Decides the ranking order between two sort keys.
pub fn key_before(a: &SortKey, b: &SortKey) -> (r: bool)
    ensures
        r == key_order(a@, b@),
{
    if a.count > b.count {
        return true;
    }
    if a.count < b.count {
        return false;
    }
    let an = a.text.len();
    let bn = b.text.len();
    let mut i: usize = 0;
    proof {
        assert(a.text@.skip(0) =~= a.text@);
        assert(b.text@.skip(0) =~= b.text@);
    }
    while i < an && i < bn
        invariant
            0 <= i <= an,
            0 <= i <= bn,
            a.count == b.count,
            an == a.text@.len(),
            bn == b.text@.len(),
            forall|k: int| 0 <= k < i ==> a.text@[k] == b.text@[k],
            lex_lt(a.text@, b.text@) == lex_lt(a.text@.skip(i as int), b.text@.skip(i as int)),
            lex_lt(b.text@, a.text@) == lex_lt(b.text@.skip(i as int), a.text@.skip(i as int)),
        decreases an - i,
    {
        let x = a.text[i];
        let y = b.text[i];
        proof {
            assert(a.text@.skip(i as int)[0] == a.text@[i as int]);
            assert(b.text@.skip(i as int)[0] == b.text@[i as int]);
            assert(a.text@.skip(i as int).drop_first() =~= a.text@.skip(i as int + 1));
            assert(b.text@.skip(i as int).drop_first() =~= b.text@.skip(i as int + 1));
        }
        if x < y {
            proof {
                assert(lex_lt(a.text@.skip(i as int), b.text@.skip(i as int)));
                assert(a@.text == a.text@ && b@.text == b.text@);
                assert(a@.count == b@.count);
                assert(lex_lt(a@.text, b@.text));
                assert(key_order(a@, b@));
            }
            return true;
        }
        if x > y {
            proof {
                assert(!lex_lt(a.text@.skip(i as int), b.text@.skip(i as int)));
                assert(a.text@[i as int] != b.text@[i as int]);
                assert(a.text@ != b.text@);
                assert(a@.text == a.text@ && b@.text == b.text@);
                assert(!key_order(a@, b@));
            }
            return false;
        }
        i += 1;
    }
    if an < bn {
        proof {
            assert(a.text@.skip(i as int).len() == 0);
            assert(b.text@.skip(i as int).len() > 0);
        }
        return true;
    }
    if an > bn {
        proof {
            assert(b.text@.skip(i as int).len() == 0);
            assert(a.text@.skip(i as int).len() > 0);
        }
        return false;
    }
    proof {
        assert(a.text@ =~= b.text@);
        lemma_lex_lt_irreflexive(a.text@);
    }
    a.pos <= b.pos
}

/// Sorts the given keys by the ranking order; the result is exactly
/// `sort_by` of the input's models.
pub fn sort_keys(v: Vec<SortKey>) -> (out: Vec<SortKey>)
    ensures
        key_models(out@) == key_models(v@).sort_by(key_order_fn()),
{
    broadcast use vstd::seq_lib::group_to_multiset_ensures;

    let mut src = v;
    let mut out: Vec<SortKey> = Vec::new();
    proof {
        lemma_key_order_total();
        assert(key_models(out@).to_multiset() =~= Multiset::empty());
        assert(key_models(out@).to_multiset().add(key_models(src@).to_multiset()) =~= key_models(
            v@,
        ).to_multiset());
    }
    while src.len() > 0
        invariant
            total_ordering(key_order_fn()),
            key_models(out@).to_multiset().add(key_models(src@).to_multiset()) == key_models(v@)
                .to_multiset(),
            sorted_by(key_models(out@), key_order_fn()),
            forall|i: int, j: int|
                0 <= i < out@.len() && 0 <= j < src@.len() ==> key_order(
                    #[trigger] out@[i]@,
                    #[trigger] src@[j]@,
                ),
        decreases src@.len(),
    {
        broadcast use vstd::seq_lib::group_to_multiset_ensures;

        let n = src.len();
        let mut m: usize = 0;
        let mut j: usize = 1;
        while j < n
            invariant
                0 <= m < j <= n,
                n == src@.len(),
                forall|k: int| 0 <= k < j ==> key_order(src@[m as int]@, #[trigger] src@[k]@),
                total_ordering(key_order_fn()),
            decreases n - j,
        {
            if key_before(&src[j], &src[m]) {
                proof {
                    let r = key_order_fn();
                    assert forall|k: int| 0 <= k < j + 1 implies key_order(
                        src@[j as int]@,
                        #[trigger] src@[k]@,
                    ) by {
                        assert(r(src@[j as int]@, src@[m as int]@));
                        if k < j {
                            assert(r(src@[m as int]@, src@[k]@));
                        }
                    }
                }
                m = j;
            } else {
                proof {
                    let r = key_order_fn();
                    assert(r(src@[j as int]@, src@[m as int]@) || r(
                        src@[m as int]@,
                        src@[j as int]@,
                    ));
                }
            }
            j += 1;
        }
        let ghost old_src = src@;
        let ghost old_out = out@;
        let x = src.remove(m);
        out.push(x);
        proof {
            assert(key_models(old_src).remove(m as int) =~= key_models(src@));
            assert(key_models(old_out).push(x@) =~= key_models(out@));
            assert(key_models(old_src)[m as int] == x@);
            assert(key_models(src@).to_multiset() =~= key_models(old_src).to_multiset().remove(
                x@,
            ));
            assert(key_models(out@).to_multiset() =~= key_models(old_out).to_multiset().insert(
                x@,
            ));
            assert(key_models(out@).to_multiset().add(key_models(src@).to_multiset()) =~= key_models(
                v@,
            ).to_multiset());
            // the pushed key is ordered after everything already emitted and
            // before everything still waiting
            assert forall|i: int, j2: int|
                0 <= i < out@.len() && 0 <= j2 < src@.len() implies key_order(
                #[trigger] out@[i]@,
                #[trigger] src@[j2]@,
            ) by {
                let r = key_order_fn();
                if i < out@.len() - 1 {
                    assert(r(out@[i]@, old_src[if j2 < m { j2 } else { j2 + 1 }]@));
                } else {
                    assert(out@[i]@ == x@);
                    assert(r(x@, old_src[if j2 < m { j2 } else { j2 + 1 }]@));
                }
            }
            assert(sorted_by(key_models(out@), key_order_fn()));
        }
    }
    proof {
        let goal = key_models(v@).sort_by(key_order_fn());
        key_models(v@).lemma_sort_by_ensures(key_order_fn());
        assert(key_models(src@).to_multiset() =~= Multiset::empty());
        assert(key_models(out@).to_multiset() =~= key_models(v@).to_multiset());
        lemma_sorted_unique(key_models(out@), goal, key_order_fn());
        assert(key_models(out@) =~= goal);
    }
    out
}

} // verus!
