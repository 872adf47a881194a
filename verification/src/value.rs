//! The structured payload type and its canonical encoding, used solely
//! as hash input. Every case of the closed recursive type is encoded
//! deterministically: leaves are hashed directly, a sequence hashes the
//! concatenation of its members' encodings, and a field list hashes its
//! (name hash, value hash) pairs in sorted order, so the encoding does
//! not depend on the order the fields were written in.

use vstd::prelude::*;
use vstd::seq_lib::lemma_sorted_unique;
use vstd::utf8::encode_utf8;
use crate::bytes::{i128_le_bytes, le_bytes_i128, nat_le_bytes};
use crate::hash::{sha256, sha256_of};
use crate::natural::Natural;
use crate::order::{
    copy_bytes, lemma_pair_order_total, pair_order, pview, pviews, sort_pairs,
};

verus! {

/// A structured payload value: a closed recursive tagged union.
pub enum Value {
    Bytes(Vec<u8>),
    Text(String),
    UnsignedInt(Natural),
    SignedInt(i128),
    Sequence(Vec<Value>),
    OrderedFields(Vec<(String, Value)>),
}

/// The mathematical shape of a `Value`: bytes, text and integers as
/// sequences and numbers, with the same recursive structure.
pub enum ValueView {
    Bytes(Seq<u8>),
    Text(Seq<char>),
    UnsignedInt(nat),
    SignedInt(i128),
    Sequence(Seq<ValueView>),
    OrderedFields(Seq<(Seq<char>, ValueView)>),
}

pub open spec fn value_view(v: Value) -> ValueView
    decreases v,
{
    match v {
        Value::Bytes(b) => ValueView::Bytes(b@),
        Value::Text(s) => ValueView::Text(s@),
        Value::UnsignedInt(n) => ValueView::UnsignedInt(n@),
        Value::SignedInt(i) => ValueView::SignedInt(i),
        Value::Sequence(vs) => ValueView::Sequence(seq_view(vs@)),
        Value::OrderedFields(fs) => ValueView::OrderedFields(fields_view(fs@)),
    }
}

pub open spec fn seq_view(s: Seq<Value>) -> Seq<ValueView>
    decreases s,
{
    if s.len() == 0 {
        Seq::empty()
    } else {
        seq![value_view(s.first())] + seq_view(s.drop_first())
    }
}

pub open spec fn fields_view(s: Seq<(String, Value)>) -> Seq<(Seq<char>, ValueView)>
    decreases s,
{
    if s.len() == 0 {
        Seq::empty()
    } else {
        seq![(s.first().0@, value_view(s.first().1))] + fields_view(s.drop_first())
    }
}

impl View for Value {
    type V = ValueView;

    open spec fn view(&self) -> ValueView {
        value_view(*self)
    }
}

pub proof fn lemma_seq_view_basic(s: Seq<Value>)
    ensures
        seq_view(s).len() == s.len(),
        forall|i: int| 0 <= i < s.len() ==> #[trigger] seq_view(s)[i] == value_view(s[i]),
    decreases s.len(),
{
    if s.len() > 0 {
        lemma_seq_view_basic(s.drop_first());
    }
}

pub proof fn lemma_fields_view_basic(s: Seq<(String, Value)>)
    ensures
        fields_view(s).len() == s.len(),
        forall|i: int|
            0 <= i < s.len() ==> #[trigger] fields_view(s)[i] == (s[i].0@, value_view(s[i].1)),
    decreases s.len(),
{
    if s.len() > 0 {
        lemma_fields_view_basic(s.drop_first());
    }
}

/// The hashed form of one field: the name's hash and the value's encoding.
pub open spec fn hpair(f: (Seq<char>, ValueView)) -> (Seq<u8>, Seq<u8>)
    decreases f,
{
    (sha256_of(encode_utf8(f.0)), encode_of(f.1))
}

/// The hashed forms of a field list, in the order given.
pub open spec fn hashed_fields(fs: Seq<(Seq<char>, ValueView)>) -> Seq<(Seq<u8>, Seq<u8>)>
    decreases fs,
{
    if fs.len() == 0 {
        Seq::empty()
    } else {
        seq![hpair(fs.first())] + hashed_fields(fs.drop_first())
    }
}

/// The concatenated encodings of a list of values, in order.
pub open spec fn encode_items(items: Seq<ValueView>) -> Seq<u8>
    decreases items,
{
    if items.len() == 0 {
        Seq::empty()
    } else {
        encode_of(items.first()) + encode_items(items.drop_first())
    }
}

/// The canonical encoding of a value, itself a SHA-256 digest.
pub open spec fn encode_of(v: ValueView) -> Seq<u8>
    decreases v,
{
    match v {
        ValueView::Bytes(b) => sha256_of(b),
        ValueView::Text(s) => sha256_of(encode_utf8(s)),
        ValueView::UnsignedInt(n) => sha256_of(nat_le_bytes(n)),
        ValueView::SignedInt(i) => sha256_of(i128_le_bytes(i)),
        ValueView::Sequence(items) => sha256_of(encode_items(items)),
        ValueView::OrderedFields(fields) => sha256_of(
            concat_pairs(hashed_fields(fields).sort_by(pair_order())),
        ),
    }
}

/// The concatenation of the two hashes of each pair, in order.
pub open spec fn concat_pairs(s: Seq<(Seq<u8>, Seq<u8>)>) -> Seq<u8>
    decreases s.len(),
{
    if s.len() == 0 {
        Seq::empty()
    } else {
        s.first().0 + s.first().1 + concat_pairs(s.drop_first())
    }
}

proof fn lemma_encode_items_concat(a: Seq<ValueView>, b: Seq<ValueView>)
    ensures
        encode_items(a + b) == encode_items(a) + encode_items(b),
    decreases a.len(),
{
    if a.len() == 0 {
        assert(a + b =~= b);
        assert(encode_items(a) + encode_items(b) =~= encode_items(b));
    } else {
        assert((a + b).len() > 0);
        assert((a + b).first() == a.first());
        assert((a + b).drop_first() =~= a.drop_first() + b);
        lemma_encode_items_concat(a.drop_first(), b);
        assert(encode_of(a.first()) + (encode_items(a.drop_first()) + encode_items(b)) =~= (
        encode_of(a.first()) + encode_items(a.drop_first())) + encode_items(b));
    }
}

proof fn lemma_encode_items_take_succ(s: Seq<ValueView>, j: int)
    requires
        0 <= j < s.len(),
    ensures
        encode_items(s.take(j + 1)) == encode_items(s.take(j)) + encode_of(s[j]),
{
    assert(s.take(j + 1) =~= s.take(j) + seq![s[j]]);
    lemma_encode_items_concat(s.take(j), seq![s[j]]);
    let single = seq![s[j]];
    assert(single.drop_first() =~= Seq::<ValueView>::empty());
    assert(encode_items(single) == encode_of(s[j]) + encode_items(Seq::<ValueView>::empty()));
    assert(encode_items(Seq::<ValueView>::empty()) =~= Seq::<u8>::empty());
    assert(encode_of(s[j]) + Seq::<u8>::empty() =~= encode_of(s[j]));
}

proof fn lemma_hashed_fields_basic(s: Seq<(Seq<char>, ValueView)>)
    ensures
        hashed_fields(s).len() == s.len(),
        forall|i: int| 0 <= i < s.len() ==> #[trigger] hashed_fields(s)[i] == hpair(s[i]),
    decreases s.len(),
{
    if s.len() > 0 {
        lemma_hashed_fields_basic(s.drop_first());
    }
}

proof fn lemma_concat_pairs_concat(a: Seq<(Seq<u8>, Seq<u8>)>, b: Seq<(Seq<u8>, Seq<u8>)>)
    ensures
        concat_pairs(a + b) == concat_pairs(a) + concat_pairs(b),
    decreases a.len(),
{
    if a.len() == 0 {
        assert(a + b =~= b);
        assert(concat_pairs(a) + concat_pairs(b) =~= concat_pairs(b));
    } else {
        assert((a + b).first() == a.first());
        assert((a + b).drop_first() =~= a.drop_first() + b);
        lemma_concat_pairs_concat(a.drop_first(), b);
        assert(a.first().0 + a.first().1 + (concat_pairs(a.drop_first()) + concat_pairs(b)) =~= (
        a.first().0 + a.first().1 + concat_pairs(a.drop_first())) + concat_pairs(b));
    }
}

proof fn lemma_concat_pairs_take_succ(s: Seq<(Seq<u8>, Seq<u8>)>, j: int)
    requires
        0 <= j < s.len(),
    ensures
        concat_pairs(s.take(j + 1)) == concat_pairs(s.take(j)) + s[j].0 + s[j].1,
{
    assert(s.take(j + 1) =~= s.take(j) + seq![s[j]]);
    lemma_concat_pairs_concat(s.take(j), seq![s[j]]);
    let single = seq![s[j]];
    assert(single.drop_first() =~= Seq::<(Seq<u8>, Seq<u8>)>::empty());
    assert(concat_pairs(single) == s[j].0 + s[j].1 + concat_pairs(
        Seq::<(Seq<u8>, Seq<u8>)>::empty(),
    ));
    assert(concat_pairs(Seq::<(Seq<u8>, Seq<u8>)>::empty()) =~= Seq::<u8>::empty());
    assert(s[j].0 + s[j].1 + Seq::<u8>::empty() =~= s[j].0 + s[j].1);
    assert(concat_pairs(s.take(j)) + (s[j].0 + s[j].1 + Seq::<u8>::empty()) =~= concat_pairs(
        s.take(j),
    ) + s[j].0 + s[j].1);
}

/// Serializes a value into its canonical byte encoding, the
/// deterministic hash input of the codec.
pub fn serialize_value(value: &Value) -> (r: Vec<u8>)
    ensures
        r@ == encode_of(value@),
    decreases value,
{
    match value {
        Value::Bytes(b) => sha256(b.as_slice()),
        Value::Text(s) => sha256(s.as_str().as_bytes()),
        Value::UnsignedInt(n) => {
            let nb = n.to_le_bytes();
            sha256(nb.as_slice())
        },
        Value::SignedInt(i) => {
            let ib = le_bytes_i128(*i);
            sha256(ib.as_slice())
        },
        Value::Sequence(vs) => {
            let buf = serialize_items(vs);
            sha256(buf.as_slice())
        },
        Value::OrderedFields(fs) => {
            let pairs = serialize_fields(fs);
            let sorted = sort_pairs(&pairs);
            let buf = concat_sorted_pairs(&sorted);
            sha256(buf.as_slice())
        },
    }
}

/// The concatenated canonical encodings of a list of values, in order.
fn serialize_items(vs: &Vec<Value>) -> (r: Vec<u8>)
    ensures
        r@ == encode_items(seq_view(vs@)),
    decreases vs,
{
    let ghost views = seq_view(vs@);
    proof {
        lemma_seq_view_basic(vs@);
    }
    let mut buf: Vec<u8> = Vec::new();
    let mut j: usize = 0;
    proof {
        assert(views.take(0) =~= Seq::<ValueView>::empty());
    }
    while j < vs.len()
        invariant
            0 <= j <= vs@.len(),
            views == seq_view(vs@),
            views.len() == vs@.len(),
            forall|i: int| 0 <= i < vs@.len() ==> #[trigger] views[i] == value_view(vs@[i]),
            buf@ == encode_items(views.take(j as int)),
        decreases vs@.len() - j,
    {
        proof {
            assert(decreases_to!(*vs => vs@));
            assert(decreases_to!(vs@ => vs@[j as int]));
        }
        let mut piece = serialize_value(&vs[j]);
        proof {
            lemma_encode_items_take_succ(views, j as int);
        }
        buf.append(&mut piece);
        j = j + 1;
    }
    proof {
        assert(views.take(views.len() as int) =~= views);
    }
    buf
}

/// The hashed (name, value) pairs of a field list, in the order given.
fn serialize_fields(fs: &Vec<(String, Value)>) -> (r: Vec<(Vec<u8>, Vec<u8>)>)
    ensures
        pviews(r@) == hashed_fields(fields_view(fs@)),
    decreases fs,
{
    let ghost fviews = fields_view(fs@);
    proof {
        lemma_fields_view_basic(fs@);
        lemma_hashed_fields_basic(fviews);
    }
    let mut pairs: Vec<(Vec<u8>, Vec<u8>)> = Vec::new();
    let mut j: usize = 0;
    while j < fs.len()
        invariant
            0 <= j <= fs@.len(),
            fviews == fields_view(fs@),
            fviews.len() == fs@.len(),
            forall|i: int|
                0 <= i < fs@.len() ==> #[trigger] fviews[i] == (fs@[i].0@, value_view(fs@[i].1)),
            forall|i: int|
                0 <= i < fs@.len() ==> #[trigger] hashed_fields(fviews)[i] == hpair(fviews[i]),
            hashed_fields(fviews).len() == fviews.len(),
            pairs@.len() == j,
            forall|i: int| 0 <= i < j ==> #[trigger] pview(pairs@[i]) == hashed_fields(fviews)[i],
        decreases fs@.len() - j,
    {
        let name_hash = sha256(fs[j].0.as_str().as_bytes());
        proof {
            assert(decreases_to!(*fs => fs@));
            assert(decreases_to!(fs@ => fs@[j as int]));
            assert(decreases_to!(fs@[j as int] => fs@[j as int].1));
        }
        let val_bytes = serialize_value(&fs[j].1);
        pairs.push((name_hash, val_bytes));
        j = j + 1;
    }
    proof {
        assert(pviews(pairs@) =~= hashed_fields(fviews));
    }
    pairs
}

/// The concatenation of both hashes of each pair, in order.
fn concat_sorted_pairs(sorted: &Vec<(Vec<u8>, Vec<u8>)>) -> (r: Vec<u8>)
    ensures
        r@ == concat_pairs(pviews(sorted@)),
{
    let ghost sviews = pviews(sorted@);
    let mut buf: Vec<u8> = Vec::new();
    let mut k: usize = 0;
    proof {
        assert(sviews.take(0) =~= Seq::<(Seq<u8>, Seq<u8>)>::empty());
    }
    while k < sorted.len()
        invariant
            0 <= k <= sorted@.len(),
            sviews == pviews(sorted@),
            sviews.len() == sorted@.len(),
            forall|i: int| 0 <= i < sorted@.len() ==> #[trigger] sviews[i] == pview(sorted@[i]),
            buf@ == concat_pairs(sviews.take(k as int)),
        decreases sorted@.len() - k,
    {
        let mut left = copy_bytes(&sorted[k].0);
        let mut right = copy_bytes(&sorted[k].1);
        proof {
            lemma_concat_pairs_take_succ(sviews, k as int);
        }
        buf.append(&mut left);
        buf.append(&mut right);
        k = k + 1;
    }
    proof {
        assert(sviews.take(sviews.len() as int) =~= sviews);
    }
    buf
}

impl Value {
    /// A copy with the same mathematical shape.
    pub fn deep_clone(&self) -> (r: Value)
        ensures
            r@ == self@,
        decreases self,
    {
        match self {
            Value::Bytes(b) => Value::Bytes(copy_bytes(b)),
            Value::Text(s) => Value::Text(s.clone()),
            Value::UnsignedInt(n) => Value::UnsignedInt(n.duplicate()),
            Value::SignedInt(i) => Value::SignedInt(*i),
            Value::Sequence(vs) => Value::Sequence(deep_clone_items(vs)),
            Value::OrderedFields(fs) => Value::OrderedFields(deep_clone_fields(fs)),
        }
    }
}

/// A copy of a value list, member for member.
fn deep_clone_items(vs: &Vec<Value>) -> (r: Vec<Value>)
    ensures
        seq_view(r@) == seq_view(vs@),
    decreases vs,
{
    proof {
        lemma_seq_view_basic(vs@);
    }
    let mut out: Vec<Value> = Vec::new();
    let mut j: usize = 0;
    while j < vs.len()
        invariant
            0 <= j <= vs@.len(),
            out@.len() == j,
            forall|i: int| 0 <= i < j ==> #[trigger] value_view(out@[i]) == value_view(vs@[i]),
        decreases vs@.len() - j,
    {
        proof {
            assert(decreases_to!(*vs => vs@));
            assert(decreases_to!(vs@ => vs@[j as int]));
        }
        let c = vs[j].deep_clone();
        out.push(c);
        j = j + 1;
    }
    proof {
        lemma_seq_view_basic(out@);
        assert(seq_view(out@) =~= seq_view(vs@));
    }
    out
}

/// A copy of a field list, pair for pair.
fn deep_clone_fields(fs: &Vec<(String, Value)>) -> (r: Vec<(String, Value)>)
    ensures
        fields_view(r@) == fields_view(fs@),
    decreases fs,
{
    proof {
        lemma_fields_view_basic(fs@);
    }
    let mut out: Vec<(String, Value)> = Vec::new();
    let mut j: usize = 0;
    while j < fs.len()
        invariant
            0 <= j <= fs@.len(),
            out@.len() == j,
            forall|i: int|
                0 <= i < j ==> #[trigger] out@[i].0@ == fs@[i].0@ && value_view(out@[i].1)
                    == value_view(fs@[i].1),
        decreases fs@.len() - j,
    {
        let name = fs[j].0.clone();
        proof {
            assert(decreases_to!(*fs => fs@));
            assert(decreases_to!(fs@ => fs@[j as int]));
            assert(decreases_to!(fs@[j as int] => fs@[j as int].1));
        }
        let val = fs[j].1.deep_clone();
        out.push((name, val));
        j = j + 1;
    }
    proof {
        lemma_fields_view_basic(out@);
        assert(fields_view(out@) =~= fields_view(fs@));
    }
    out
}

proof fn lemma_map_values_multiset<A, B>(s1: Seq<A>, s2: Seq<A>, f: spec_fn(A) -> B)
    requires
        s1.to_multiset() == s2.to_multiset(),
    ensures
        s1.map_values(f).to_multiset() == s2.map_values(f).to_multiset(),
    decreases s1.len(),
{
    broadcast use vstd::multiset::group_multiset_axioms;

    s1.to_multiset_ensures();
    s2.to_multiset_ensures();
    if s1.len() == 0 {
        assert(s2.len() == 0);
        assert(s1.map_values(f) =~= s2.map_values(f));
    } else {
        let x = s1[0];
        assert(s1.contains(x));
        assert(s2.to_multiset().count(x) > 0);
        assert(s2.contains(x));
        let i = choose|i: int| 0 <= i < s2.len() && s2[i] == x;
        let r1 = s1.remove(0);
        let r2 = s2.remove(i);
        assert(r1.to_multiset() == s1.to_multiset().remove(x));
        assert(r2.to_multiset() == s2.to_multiset().remove(x));
        lemma_map_values_multiset(r1, r2, f);
        let m1 = s1.map_values(f);
        let m2 = s2.map_values(f);
        m1.to_multiset_ensures();
        m2.to_multiset_ensures();
        assert(m1.remove(0) =~= r1.map_values(f));
        assert(m2.remove(i) =~= r2.map_values(f));
        assert(m1.remove(0).to_multiset() == m1.to_multiset().remove(m1[0]));
        assert(m2.remove(i).to_multiset() == m2.to_multiset().remove(m2[i]));
        assert(m1[0] == f(x));
        assert(m2[i] == f(x));
        assert(m1.contains(f(x)));
        assert(m2.contains(f(x)));
        assert(m1.to_multiset().count(f(x)) > 0);
        assert(m2.to_multiset().count(f(x)) > 0);
        assert forall|z: B| m1.to_multiset().count(z) == #[trigger] m2.to_multiset().count(z) by {
            if z == f(x) {
                assert(m1.to_multiset().remove(f(x)).count(z) == m1.to_multiset().count(z) - 1);
                assert(m2.to_multiset().remove(f(x)).count(z) == m2.to_multiset().count(z) - 1);
            } else {
                assert(m1.to_multiset().remove(f(x)).count(z) == m1.to_multiset().count(z));
                assert(m2.to_multiset().remove(f(x)).count(z) == m2.to_multiset().count(z));
            }
        }
        assert(m1.to_multiset() =~= m2.to_multiset());
    }
}

/// The canonical encoding of a field list is invariant under
/// permutation of its (name, value) pairs: any two field lists that
/// hold the same pairs, in any order, encode to the same bytes.
pub proof fn lemma_encode_fields_permutation(
    f1: Seq<(Seq<char>, ValueView)>,
    f2: Seq<(Seq<char>, ValueView)>,
)
    requires
        f1.to_multiset() == f2.to_multiset(),
    ensures
        encode_of(ValueView::OrderedFields(f1)) == encode_of(ValueView::OrderedFields(f2)),
{
    let f = |p: (Seq<char>, ValueView)| hpair(p);
    lemma_hashed_fields_basic(f1);
    lemma_hashed_fields_basic(f2);
    assert(hashed_fields(f1) =~= f1.map_values(f));
    assert(hashed_fields(f2) =~= f2.map_values(f));
    lemma_map_values_multiset(f1, f2, f);
    lemma_pair_order_total();
    let h1 = hashed_fields(f1);
    let h2 = hashed_fields(f2);
    h1.lemma_sort_by_ensures(pair_order());
    h2.lemma_sort_by_ensures(pair_order());
    assert(h1.sort_by(pair_order()).to_multiset() == h2.sort_by(pair_order()).to_multiset());
    lemma_sorted_unique(h1.sort_by(pair_order()), h2.sort_by(pair_order()), pair_order());
    assert(h1.sort_by(pair_order()) == h2.sort_by(pair_order()));
}

} // verus!
