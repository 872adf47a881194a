//! Operation records, blocks, and the block content hash: SHA-256 over
//! the canonical bytes of a block's defining fields — index, previous
//! hash, block type, timestamp and entries — so the stored hash of a
//! sealed block can be reproduced from those fields alone.

use vstd::prelude::*;
use vstd::utf8::encode_utf8;
use crate::bytes::{be_bytes_u64, min_le_bytes_u64, nat_le_bytes, u64_be_bytes};
use crate::hash::{sha256, sha256_of};
use crate::value::{encode_of, value_view, Value};

verus! {

/// One logged operation: when, what, with which payload, by whom.
pub struct LogEntry {
    pub timestamp: u64,
    pub operation: String,
    pub details: Value,
    pub caller: String,
}

/// A batch of operation records, chained to its predecessor by hash.
pub struct Block {
    pub id: u64,
    pub hash: Vec<u8>,
    pub phash: Vec<u8>,
    pub btype: String,
    pub ts: u64,
    pub entries: Vec<LogEntry>,
    pub finalized: bool,
}

/// Whether two entries carry the same data.
pub open spec fn entry_view_eq(a: LogEntry, b: LogEntry) -> bool {
    &&& a.timestamp == b.timestamp
    &&& a.operation@ == b.operation@
    &&& value_view(a.details) == value_view(b.details)
    &&& a.caller@ == b.caller@
}

/// The bytes one entry contributes to its block's hash input.
pub open spec fn entry_bytes(e: LogEntry) -> Seq<u8> {
    u64_be_bytes(e.timestamp) + encode_utf8(e.operation@) + encode_of(value_view(e.details))
        + encode_utf8(e.caller@)
}

/// The bytes a list of entries contributes, in order.
pub open spec fn entries_bytes(es: Seq<LogEntry>) -> Seq<u8>
    decreases es.len(),
{
    if es.len() == 0 {
        Seq::empty()
    } else {
        entry_bytes(es.first()) + entries_bytes(es.drop_first())
    }
}

/// The full hash input of a block: its defining fields in canonical form.
pub open spec fn block_bytes(b: Block) -> Seq<u8> {
    nat_le_bytes(b.id as nat) + b.phash@ + encode_utf8(b.btype@) + u64_be_bytes(b.ts)
        + entries_bytes(b.entries@)
}

/// The content hash of a block: SHA-256 of its canonical bytes. It
/// depends only on the defining fields, never on `hash` or `finalized`.
pub open spec fn content_hash_of(b: Block) -> Seq<u8> {
    sha256_of(block_bytes(b))
}

impl LogEntry {
    /// A copy carrying the same data.
    pub fn duplicate(&self) -> (r: LogEntry)
        ensures
            entry_view_eq(r, *self),
            entry_view_eq(*self, r),
    {
        LogEntry {
            timestamp: self.timestamp,
            operation: self.operation.clone(),
            details: self.details.deep_clone(),
            caller: self.caller.clone(),
        }
    }
}

proof fn lemma_entries_bytes_concat(a: Seq<LogEntry>, b: Seq<LogEntry>)
    ensures
        entries_bytes(a + b) == entries_bytes(a) + entries_bytes(b),
    decreases a.len(),
{
    if a.len() == 0 {
        assert(a + b =~= b);
        assert(entries_bytes(a) + entries_bytes(b) =~= entries_bytes(b));
    } else {
        assert((a + b).first() == a.first());
        assert((a + b).drop_first() =~= a.drop_first() + b);
        lemma_entries_bytes_concat(a.drop_first(), b);
        assert(entry_bytes(a.first()) + (entries_bytes(a.drop_first()) + entries_bytes(b)) =~= (
        entry_bytes(a.first()) + entries_bytes(a.drop_first())) + entries_bytes(b));
    }
}

proof fn lemma_entries_bytes_take_succ(s: Seq<LogEntry>, j: int)
    requires
        0 <= j < s.len(),
    ensures
        entries_bytes(s.take(j + 1)) == entries_bytes(s.take(j)) + entry_bytes(s[j]),
{
    assert(s.take(j + 1) =~= s.take(j) + seq![s[j]]);
    lemma_entries_bytes_concat(s.take(j), seq![s[j]]);
    let single = seq![s[j]];
    assert(single.drop_first() =~= Seq::<LogEntry>::empty());
    assert(entries_bytes(single) == entry_bytes(s[j]) + entries_bytes(Seq::<LogEntry>::empty()));
    assert(entries_bytes(Seq::<LogEntry>::empty()) =~= Seq::<u8>::empty());
    assert(entry_bytes(s[j]) + Seq::<u8>::empty() =~= entry_bytes(s[j]));
}

/// Appends the bytes of a slice to a buffer.
pub(crate) fn append_bytes(buf: &mut Vec<u8>, s: &[u8])
    ensures
        final(buf)@ == old(buf)@ + s@,
{
    let ghost start = buf@;
    let mut i: usize = 0;
    while i < s.len()
        invariant
            0 <= i <= s@.len(),
            buf@ == start + s@.take(i as int),
        decreases s@.len() - i,
    {
        proof {
            assert((start + s@.take(i as int)).push(s@[i as int]) =~= start + s@.take(i + 1));
        }
        buf.push(s[i]);
        i = i + 1;
    }
    proof {
        assert(start + s@.take(s@.len() as int) =~= start + s@);
    }
}

/// Calculates the content hash of a block from its defining fields:
/// re-encoding and re-hashing a sealed block reproduces its stored hash.
pub fn calculate_hash(block: &Block) -> (r: Vec<u8>)
    ensures
        r@ == content_hash_of(*block),
        r@.len() == 32,
{
    let mut buf: Vec<u8> = Vec::new();
    let idb = min_le_bytes_u64(block.id);
    append_bytes(&mut buf, idb.as_slice());
    append_bytes(&mut buf, block.phash.as_slice());
    append_bytes(&mut buf, block.btype.as_str().as_bytes());
    let tsb = be_bytes_u64(block.ts);
    append_bytes(&mut buf, tsb.as_slice());
    let ghost head = nat_le_bytes(block.id as nat) + block.phash@ + encode_utf8(block.btype@)
        + u64_be_bytes(block.ts);
    proof {
        assert(buf@ =~= head);
        assert(buf@ + Seq::<u8>::empty() =~= buf@);
        assert(block.entries@.take(0) =~= Seq::<LogEntry>::empty());
    }
    let n = block.entries.len();
    let mut j: usize = 0;
    while j < n
        invariant
            0 <= j <= n,
            n == block.entries@.len(),
            head == nat_le_bytes(block.id as nat) + block.phash@ + encode_utf8(block.btype@)
                + u64_be_bytes(block.ts),
            buf@ == head + entries_bytes(block.entries@.take(j as int)),
        decreases n - j,
    {
        let e = &block.entries[j];
        let etsb = be_bytes_u64(e.timestamp);
        append_bytes(&mut buf, etsb.as_slice());
        append_bytes(&mut buf, e.operation.as_str().as_bytes());
        let details = crate::value::serialize_value(&e.details);
        append_bytes(&mut buf, details.as_slice());
        append_bytes(&mut buf, e.caller.as_str().as_bytes());
        proof {
            lemma_entries_bytes_take_succ(block.entries@, j as int);
            assert(head + entries_bytes(block.entries@.take(j as int)) + u64_be_bytes(e.timestamp)
                + encode_utf8(e.operation@) + encode_of(value_view(e.details)) + encode_utf8(
                e.caller@,
            ) =~= head + entries_bytes(block.entries@.take(j + 1)));
        }
        j = j + 1;
    }
    proof {
        assert(block.entries@.take(n as int) =~= block.entries@);
        assert(buf@ =~= block_bytes(*block));
    }
    sha256(buf.as_slice())
}

/// The content hash is a pure function of the defining fields: two
/// blocks that agree on index, previous hash, block type, timestamp and
/// entry data have the same content hash.
pub proof fn lemma_content_hash_pure(a: Block, b: Block)
    requires
        a.id == b.id,
        a.phash@ == b.phash@,
        a.btype@ == b.btype@,
        a.ts == b.ts,
        a.entries@.len() == b.entries@.len(),
        forall|i: int|
            0 <= i < a.entries@.len() ==> entry_view_eq(
                #[trigger] a.entries@[i],
                #[trigger] b.entries@[i],
            ),
    ensures
        content_hash_of(a) == content_hash_of(b),
{
    lemma_entries_bytes_congruence(a.entries@, b.entries@);
    assert(block_bytes(a) == block_bytes(b));
}

proof fn lemma_entries_bytes_congruence(x: Seq<LogEntry>, y: Seq<LogEntry>)
    requires
        x.len() == y.len(),
        forall|i: int| 0 <= i < x.len() ==> entry_view_eq(#[trigger] x[i], #[trigger] y[i]),
    ensures
        entries_bytes(x) == entries_bytes(y),
    decreases x.len(),
{
    if x.len() > 0 {
        assert(entry_view_eq(x[0], y[0]));
        assert(entry_bytes(x.first()) == entry_bytes(y.first()));
        assert forall|i: int|
            0 <= i < x.drop_first().len() implies entry_view_eq(
            #[trigger] x.drop_first()[i],
            #[trigger] y.drop_first()[i],
        ) by {
            assert(x.drop_first()[i] == x[i + 1]);
            assert(y.drop_first()[i] == y[i + 1]);
            assert(entry_view_eq(x[i + 1], y[i + 1]));
        }
        lemma_entries_bytes_congruence(x.drop_first(), y.drop_first());
    }
}

} // verus!
