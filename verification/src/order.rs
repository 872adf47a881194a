//! The order in which hashed field pairs are laid out in the canonical
//! encoding: lexicographic on the name hash, then on the value hash.
//! The sort here is proved to produce exactly `Seq::sort_by` of its
//! input under that order, so the encoding of a field list is a function
//! of the multiset of its pairs.

use vstd::prelude::*;
use vstd::relations::{sorted_by, total_ordering};
use vstd::seq_lib::lemma_sorted_unique;
use vstd::seq_lib::to_multiset_insert;

verus! {

/// Lexicographic order on byte sequences: a proper prefix comes first,
/// otherwise the first differing byte decides.
pub open spec fn lex_le(a: Seq<u8>, b: Seq<u8>) -> bool
    decreases a.len(),
{
    if a.len() == 0 {
        true
    } else if b.len() == 0 {
        false
    } else if a.first() < b.first() {
        true
    } else if a.first() > b.first() {
        false
    } else {
        lex_le(a.drop_first(), b.drop_first())
    }
}

/// Order on (name hash, value hash) pairs: by the first component,
/// then by the second.
pub open spec fn pair_le(x: (Seq<u8>, Seq<u8>), y: (Seq<u8>, Seq<u8>)) -> bool {
    if x.0 == y.0 {
        lex_le(x.1, y.1)
    } else {
        lex_le(x.0, y.0)
    }
}

/// The pair order as a value, for `Seq::sort_by`.
pub open spec fn pair_order() -> spec_fn((Seq<u8>, Seq<u8>), (Seq<u8>, Seq<u8>)) -> bool {
    |x: (Seq<u8>, Seq<u8>), y: (Seq<u8>, Seq<u8>)| pair_le(x, y)
}

pub proof fn lemma_lex_le_refl(a: Seq<u8>)
    ensures
        lex_le(a, a),
    decreases a.len(),
{
    if a.len() > 0 {
        lemma_lex_le_refl(a.drop_first());
    }
}

pub proof fn lemma_lex_le_total(a: Seq<u8>, b: Seq<u8>)
    ensures
        lex_le(a, b) || lex_le(b, a),
    decreases a.len(),
{
    if a.len() > 0 && b.len() > 0 && a.first() == b.first() {
        lemma_lex_le_total(a.drop_first(), b.drop_first());
    }
}

pub proof fn lemma_lex_le_antisym(a: Seq<u8>, b: Seq<u8>)
    requires
        lex_le(a, b),
        lex_le(b, a),
    ensures
        a == b,
    decreases a.len(),
{
    if a.len() == 0 {
        assert(b.len() == 0);
        assert(a =~= b);
    } else {
        assert(b.len() > 0);
        assert(a.first() == b.first());
        lemma_lex_le_antisym(a.drop_first(), b.drop_first());
        assert(a.len() == b.len());
        assert forall|i: int| 0 <= i < a.len() implies a[i] == b[i] by {
            if i > 0 {
                assert(a[i] == a.drop_first()[i - 1]);
                assert(b[i] == b.drop_first()[i - 1]);
            }
        }
        assert(a =~= b);
    }
}

pub proof fn lemma_lex_le_trans(a: Seq<u8>, b: Seq<u8>, c: Seq<u8>)
    requires
        lex_le(a, b),
        lex_le(b, c),
    ensures
        lex_le(a, c),
    decreases a.len(),
{
    if a.len() > 0 && b.len() > 0 && c.len() > 0 {
        if a.first() == b.first() && b.first() == c.first() {
            lemma_lex_le_trans(a.drop_first(), b.drop_first(), c.drop_first());
        }
    }
}

/// The pair order is reflexive, antisymmetric, transitive and total.
pub proof fn lemma_pair_le_props()
    ensures
        forall|x: (Seq<u8>, Seq<u8>), y: (Seq<u8>, Seq<u8>)|
            #[trigger] pair_le(x, y) || #[trigger] pair_le(y, x),
        forall|x: (Seq<u8>, Seq<u8>), y: (Seq<u8>, Seq<u8>)|
            #[trigger] pair_le(x, y) && #[trigger] pair_le(y, x) ==> x == y,
        forall|x: (Seq<u8>, Seq<u8>), y: (Seq<u8>, Seq<u8>), z: (Seq<u8>, Seq<u8>)|
            #[trigger] pair_le(x, y) && #[trigger] pair_le(y, z) ==> pair_le(x, z),
{
    assert forall|x: (Seq<u8>, Seq<u8>), y: (Seq<u8>, Seq<u8>)|
        #[trigger] pair_le(x, y) || #[trigger] pair_le(y, x) by {
        lemma_lex_le_total(x.0, y.0);
        lemma_lex_le_total(x.1, y.1);
    }
    assert forall|x: (Seq<u8>, Seq<u8>), y: (Seq<u8>, Seq<u8>)|
        #[trigger] pair_le(x, y) && #[trigger] pair_le(y, x) implies x == y by {
        if x.0 == y.0 {
            lemma_lex_le_antisym(x.1, y.1);
        } else {
            lemma_lex_le_antisym(x.0, y.0);
        }
    }
    assert forall|x: (Seq<u8>, Seq<u8>), y: (Seq<u8>, Seq<u8>), z: (Seq<u8>, Seq<u8>)|
        #[trigger] pair_le(x, y) && #[trigger] pair_le(y, z) implies pair_le(x, z) by {
        if x.0 == y.0 && y.0 == z.0 {
            lemma_lex_le_trans(x.1, y.1, z.1);
        } else if x.0 == y.0 {
            assert(pair_le(x, z));
        } else if y.0 == z.0 {
            assert(pair_le(x, z));
        } else {
            lemma_lex_le_trans(x.0, y.0, z.0);
            if x.0 == z.0 {
                lemma_lex_le_antisym(x.0, y.0);
            }
        }
    }
}

/// `pair_order()` is a total ordering in the sense of `vstd::relations`.
pub proof fn lemma_pair_order_total()
    ensures
        total_ordering(pair_order()),
{
    lemma_pair_le_props();
    let r = pair_order();
    assert forall|x: (Seq<u8>, Seq<u8>)| #[trigger] r(x, x) by {
        lemma_lex_le_refl(x.1);
    }
}

/// If two byte sequences agree on their first `i` elements, the
/// lexicographic comparison is decided by the remainders.
proof fn lemma_lex_le_skip(a: Seq<u8>, b: Seq<u8>, i: int)
    requires
        0 <= i <= a.len(),
        i <= b.len(),
        forall|j: int| 0 <= j < i ==> a[j] == b[j],
    ensures
        lex_le(a, b) == lex_le(a.skip(i), b.skip(i)),
    decreases i,
{
    if i == 0 {
        assert(a.skip(0) =~= a);
        assert(b.skip(0) =~= b);
    } else {
        assert(a.first() == b.first());
        assert(a.drop_first() =~= a.skip(1));
        assert(b.drop_first() =~= b.skip(1));
        lemma_lex_le_skip(a.skip(1), b.skip(1), i - 1);
        assert(a.skip(1).skip(i - 1) =~= a.skip(i));
        assert(b.skip(1).skip(i - 1) =~= b.skip(i));
    }
}

/// Three-way lexicographic comparison of two byte vectors.
fn lex_cmp(a: &Vec<u8>, b: &Vec<u8>) -> (r: i8)
    ensures
        r == 0 ==> a@ == b@,
        r == -1 ==> lex_le(a@, b@) && a@ != b@,
        r == 1 ==> lex_le(b@, a@) && a@ != b@,
        -1 <= r <= 1,
{
    let n: usize = if a.len() < b.len() {
        a.len()
    } else {
        b.len()
    };
    let mut i: usize = 0;
    while i < n
        invariant
            0 <= i <= n,
            n <= a@.len(),
            n <= b@.len(),
            n == a@.len() || n == b@.len(),
            forall|j: int| 0 <= j < i ==> a@[j] == b@[j],
        decreases n - i,
    {
        if a[i] < b[i] {
            proof {
                lemma_lex_le_skip(a@, b@, i as int);
                assert(a@.skip(i as int).first() == a@[i as int]);
                assert(b@.skip(i as int).first() == b@[i as int]);
            }
            return -1;
        }
        if a[i] > b[i] {
            proof {
                lemma_lex_le_skip(b@, a@, i as int);
                assert(a@.skip(i as int).first() == a@[i as int]);
                assert(b@.skip(i as int).first() == b@[i as int]);
            }
            return 1;
        }
        i = i + 1;
    }
    if a.len() == b.len() {
        proof {
            assert(a@ =~= b@);
        }
        0
    } else if a.len() < b.len() {
        proof {
            lemma_lex_le_skip(a@, b@, n as int);
            assert(a@.skip(n as int).len() == 0);
        }
        -1
    } else {
        proof {
            lemma_lex_le_skip(b@, a@, n as int);
            assert(b@.skip(n as int).len() == 0);
        }
        1
    }
}

/// The view of one hashed pair.
pub open spec fn pview(p: (Vec<u8>, Vec<u8>)) -> (Seq<u8>, Seq<u8>) {
    (p.0@, p.1@)
}

/// The views of a vector of hashed pairs.
pub open spec fn pviews(s: Seq<(Vec<u8>, Vec<u8>)>) -> Seq<(Seq<u8>, Seq<u8>)> {
    Seq::new(s.len(), |i: int| pview(s[i]))
}

/// Whether one hashed pair sorts no later than another.
fn pair_le_exec(x: &(Vec<u8>, Vec<u8>), y: &(Vec<u8>, Vec<u8>)) -> (r: bool)
    ensures
        r == pair_le(pview(*x), pview(*y)),
{
    let c0 = lex_cmp(&x.0, &y.0);
    if c0 == 0 {
        let c1 = lex_cmp(&x.1, &y.1);
        proof {
            if c1 == 0 {
                lemma_lex_le_refl(x.1@);
            }
            if c1 == 1 {
                if lex_le(x.1@, y.1@) {
                    lemma_lex_le_antisym(x.1@, y.1@);
                }
            }
        }
        c1 <= 0
    } else if c0 == -1 {
        true
    } else {
        proof {
            if lex_le(x.0@, y.0@) {
                lemma_lex_le_antisym(x.0@, y.0@);
            }
        }
        false
    }
}

/// A copy of a byte vector.
pub(crate) fn copy_bytes(v: &Vec<u8>) -> (r: Vec<u8>)
    ensures
        r@ == v@,
{
    let mut r: Vec<u8> = Vec::new();
    let mut i: usize = 0;
    while i < v.len()
        invariant
            0 <= i <= v@.len(),
            r@ =~= v@.take(i as int),
        decreases v@.len() - i,
    {
        r.push(v[i]);
        proof {
            assert(r@ =~= v@.take(i + 1));
        }
        i = i + 1;
    }
    proof {
        assert(v@.take(v@.len() as int) =~= v@);
    }
    r
}

/// Whether a pair sequence is in the canonical order.
pub open spec fn pairs_sorted(s: Seq<(Seq<u8>, Seq<u8>)>) -> bool {
    forall|i: int, j: int| 0 <= i < j < s.len() ==> #[trigger] pair_le(s[i], s[j])
}

/// Sorts hashed pairs into the canonical order: the result is
/// `Seq::sort_by` of the input under `pair_order()`.
#[verifier::rlimit(30)]
pub(crate) fn sort_pairs(pairs: &Vec<(Vec<u8>, Vec<u8>)>) -> (r: Vec<(Vec<u8>, Vec<u8>)>)
    ensures
        pviews(r@) == pviews(pairs@).sort_by(pair_order()),
{
    proof {
        lemma_pair_le_props();
    }
    let mut out: Vec<(Vec<u8>, Vec<u8>)> = Vec::new();
    let mut idx: usize = 0;
    proof {
        assert(pviews(out@) =~= pviews(pairs@.take(0)));
    }
    while idx < pairs.len()
        invariant
            0 <= idx <= pairs@.len(),
            pairs_sorted(pviews(out@)),
            pviews(out@).to_multiset() == pviews(pairs@.take(idx as int)).to_multiset(),
            forall|x: (Seq<u8>, Seq<u8>), y: (Seq<u8>, Seq<u8>)|
                #[trigger] pair_le(x, y) || #[trigger] pair_le(y, x),
            forall|x: (Seq<u8>, Seq<u8>), y: (Seq<u8>, Seq<u8>), z: (Seq<u8>, Seq<u8>)|
                #[trigger] pair_le(x, y) && #[trigger] pair_le(y, z) ==> pair_le(x, z),
        decreases pairs@.len() - idx,
    {
        let p = (copy_bytes(&pairs[idx].0), copy_bytes(&pairs[idx].1));
        let mut k: usize = 0;
        while k < out.len() && pair_le_exec(&out[k], &p)
            invariant
                0 <= k <= out@.len(),
                forall|j: int| 0 <= j < k ==> pair_le(pview(out@[j]), pview(p)),
            decreases out@.len() - k,
        {
            k = k + 1;
        }
        proof {
            let ov = pviews(out@);
            let nv = ov.insert(k as int, pview(p));
            ov.insert_ensures(k as int, pview(p));
            if (k as int) < ov.len() {
                assert(!pair_le(ov[k as int], pview(p)));
                assert(pair_le(pview(p), ov[k as int]));
            }
            assert forall|i2: int, j2: int| 0 <= i2 < j2 < nv.len() implies #[trigger] pair_le(
                nv[i2],
                nv[j2],
            ) by {
                if i2 < k && j2 < k {
                    assert(pair_le(ov[i2], ov[j2]));
                } else if i2 < k && j2 == k {
                    assert(pair_le(pview(out@[i2]), pview(p)));
                } else if i2 < k && j2 > k {
                    assert(pair_le(ov[i2], ov[j2 - 1]));
                } else if i2 == k {
                    assert(pair_le(pview(p), ov[k as int]));
                    if j2 > k + 1 {
                        assert(pair_le(ov[k as int], ov[j2 - 1]));
                    }
                } else {
                    assert(pair_le(ov[i2 - 1], ov[j2 - 1]));
                }
            }
            assert(pairs_sorted(nv));
        }
        let ghost old_out = out@;
        out.insert(k, p);
        proof {
            assert(pviews(out@) =~= pviews(old_out).insert(k as int, pview(p))) by {
                pviews(old_out).insert_ensures(k as int, pview(p));
                old_out.insert_ensures(k as int, p);
            }
            to_multiset_insert(pviews(old_out), k as int, pview(p));
            let taken = pviews(pairs@.take(idx as int));
            let taken1 = pviews(pairs@.take(idx + 1));
            assert(taken1 =~= taken.push(pview(pairs@[idx as int])));
            taken.to_multiset_ensures();
            assert(pview(p) == pview(pairs@[idx as int]));
            assert(pviews(out@).to_multiset() =~= taken1.to_multiset());
        }
        idx = idx + 1;
    }
    proof {
        assert(pairs@.take(pairs@.len() as int) =~= pairs@);
        let s = pviews(pairs@);
        let ov = pviews(out@);
        lemma_pair_order_total();
        s.lemma_sort_by_ensures(pair_order());
        assert(ov.to_multiset() == s.sort_by(pair_order()).to_multiset());
        assert forall|i: int, j: int| 0 <= i < j < ov.len() implies #[trigger] (pair_order())(
            ov[i],
            ov[j],
        ) by {
            assert(pair_le(ov[i], ov[j]));
        }
        assert(sorted_by(ov, pair_order()));
        lemma_sorted_unique(ov, s.sort_by(pair_order()), pair_order());
        assert(ov =~= s.sort_by(pair_order()));
    }
    out
}

} // verus!
