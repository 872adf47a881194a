//! An arbitrary-precision unsigned integer, kept as its minimal-width
//! little-endian bytes (zero as the single byte 0). The stored bytes are
//! exactly `nat_le_bytes` of the value, which is what the canonical codec
//! writes for unsigned payload integers.

use vstd::prelude::*;
use vstd::arithmetic::div_mod::{lemma_fundamental_div_mod, lemma_fundamental_div_mod_converse};
use crate::bytes::{min_le_bytes_u64, nat_le_bytes, pos_le_bytes};
use crate::order::copy_bytes;

verus! {

/// The number a little-endian byte sequence stands for.
pub open spec fn le_val(s: Seq<u8>) -> nat
    decreases s.len(),
{
    if s.len() == 0 {
        0
    } else {
        (s.first() + 256 * le_val(s.drop_first())) as nat
    }
}

/// A canonical little-endian byte form: at least one byte, and no
/// trailing zero byte unless the whole number is the single byte 0.
pub open spec fn canonical_le(s: Seq<u8>) -> bool {
    s.len() >= 1 && (s.len() == 1 || s.last() != 0)
}

pub struct Natural {
    le: Vec<u8>,
}

impl View for Natural {
    type V = nat;

    closed spec fn view(&self) -> nat {
        le_val(self.le@)
    }
}

/// The minimal little-endian bytes of a positive number carry back its
/// value, are non-empty, and end in a non-zero byte.
pub proof fn lemma_pos_le_bytes_val(n: nat)
    ensures
        le_val(pos_le_bytes(n)) == n,
        n > 0 ==> pos_le_bytes(n).len() >= 1 && pos_le_bytes(n).last() != 0,
    decreases n,
{
    if n == 0 {
    } else {
        let rest = pos_le_bytes(n / 256);
        lemma_pos_le_bytes_val(n / 256);
        lemma_fundamental_div_mod(n as int, 256);
        let s = pos_le_bytes(n);
        assert(s == seq![(n % 256) as u8] + rest);
        assert(s.first() == (n % 256) as u8);
        assert(s.drop_first() =~= rest);
        assert(le_val(s) == n % 256 + 256 * le_val(rest));
        if n / 256 == 0 {
            assert(s.len() == 1);
            assert(s.last() == (n % 256) as u8);
            assert(n % 256 == n);
        } else {
            assert(rest.len() >= 1);
            assert(s.last() == rest.last());
        }
    }
}

/// A non-empty byte sequence ending in a non-zero byte stands for a
/// positive number.
proof fn lemma_le_val_pos(s: Seq<u8>)
    requires
        s.len() >= 1,
        s.last() != 0,
    ensures
        le_val(s) > 0,
    decreases s.len(),
{
    if s.len() == 1 {
        assert(s.first() == s.last());
    } else {
        assert(s.drop_first().last() == s.last());
        lemma_le_val_pos(s.drop_first());
        assert(256 * le_val(s.drop_first()) >= 256 * 1) by (nonlinear_arith)
            requires
                le_val(s.drop_first()) >= 1,
        ;
    }
}

/// On canonical byte forms, `nat_le_bytes` inverts `le_val`.
pub proof fn lemma_canonical_le_bytes(s: Seq<u8>)
    requires
        canonical_le(s),
    ensures
        nat_le_bytes(le_val(s)) == s,
    decreases s.len(),
{
    if s.len() == 1 {
        let v = le_val(s);
        assert(v == s.first() + 256 * le_val(s.drop_first()));
        assert(s.drop_first().len() == 0);
        assert(v == s.first());
        if v == 0 {
            assert(nat_le_bytes(0) =~= s);
        } else {
            assert(pos_le_bytes(v) == seq![(v % 256) as u8] + pos_le_bytes(v / 256));
            assert(v % 256 == v && v / 256 == 0) by {
                lemma_fundamental_div_mod_converse(v as int, 256, 0, v as int);
            }
            assert(pos_le_bytes(v) =~= s);
        }
    } else {
        let rest = s.drop_first();
        assert(rest.last() == s.last());
        lemma_canonical_le_bytes(rest);
        lemma_le_val_pos(rest);
        let vr = le_val(rest);
        let v = le_val(s);
        assert(v == s.first() + 256 * vr);
        assert(vr > 0);
        assert(v % 256 == s.first() && v / 256 == vr) by {
            lemma_fundamental_div_mod_converse(v as int, 256, vr as int, s.first() as int);
        }
        assert(v > 0) by {
            assert(256 * vr >= 256 * 1) by (nonlinear_arith)
                requires
                    vr >= 1,
            ;
        }
        assert(nat_le_bytes(vr) == rest);
        assert(pos_le_bytes(vr) == rest);
        assert(pos_le_bytes(v) == seq![(v % 256) as u8] + pos_le_bytes(v / 256));
        assert(pos_le_bytes(v) =~= s);
    }
}

/// Dropping a trailing zero byte keeps the value.
proof fn lemma_le_val_drop_zero(s: Seq<u8>)
    requires
        s.len() >= 1,
        s.last() == 0,
    ensures
        le_val(s.drop_last()) == le_val(s),
    decreases s.len(),
{
    if s.len() == 1 {
        assert(s.first() == s.last());
        assert(s.drop_last().len() == 0);
        assert(le_val(s.drop_last()) == 0);
        assert(s.drop_first().len() == 0);
        assert(le_val(s) == s.first() + 256 * le_val(s.drop_first()));
    } else {
        let rest = s.drop_first();
        assert(rest.last() == s.last());
        lemma_le_val_drop_zero(rest);
        assert(s.drop_last().drop_first() =~= rest.drop_last());
        assert(s.drop_last().first() == s.first());
        assert(s.drop_last().len() >= 1);
        assert(le_val(s.drop_last()) == s.first() + 256 * le_val(rest.drop_last()));
        assert(le_val(s) == s.first() + 256 * le_val(rest));
    }
}

impl Natural {
    #[verifier::type_invariant]
    closed spec fn canonical(self) -> bool {
        canonical_le(self.le@)
    }

    /// The number the given little-endian bytes stand for, brought into
    /// canonical form (trailing zero bytes dropped, zero as one byte).
    pub fn from_le_bytes(bytes: Vec<u8>) -> (r: Natural)
        ensures
            r@ == le_val(bytes@),
    {
        let mut b = bytes;
        let ghost v = le_val(b@);
        while b.len() > 0 && b[b.len() - 1] == 0
            invariant
                le_val(b@) == v,
            decreases b@.len(),
        {
            proof {
                lemma_le_val_drop_zero(b@);
            }
            b.pop();
        }
        if b.len() == 0 {
            b.push(0u8);
            proof {
                assert(b@ =~= seq![0u8]);
                assert(le_val(b@) == 0 + 256 * le_val(b@.drop_first()));
            }
        }
        Natural { le: b }
    }

    /// The number `x`, in canonical form.
    pub fn from_u64(x: u64) -> (r: Natural)
        ensures
            r@ == x as nat,
    {
        let le = min_le_bytes_u64(x);
        proof {
            if x == 0 {
                assert(le@ =~= seq![0u8]);
                assert(le_val(le@) == 0 + 256 * le_val(le@.drop_first()));
            } else {
                lemma_pos_le_bytes_val(x as nat);
            }
        }
        Natural { le }
    }

    /// The canonical little-endian bytes of the number.
    pub fn to_le_bytes(&self) -> (r: Vec<u8>)
        ensures
            r@ == nat_le_bytes(self@),
    {
        proof {
            use_type_invariant(self);
            lemma_canonical_le_bytes(self.le@);
        }
        copy_bytes(&self.le)
    }

    /// A copy standing for the same number.
    pub fn duplicate(&self) -> (r: Natural)
        ensures
            r@ == self@,
    {
        proof {
            use_type_invariant(self);
        }
        Natural { le: copy_bytes(&self.le) }
    }
}

} // verus!
