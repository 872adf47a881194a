//! The append-only ledger and its block-finalization policy. A
//! submission lands in the open block, or opens a new block when none
//! is open; a block that reaches the entry threshold is sealed: its
//! content hash is computed once, and the next block links back to it.
//! Well-formedness ties every block to its position, its predecessor's
//! hash, and the flat submission log.

use vstd::prelude::*;
use vstd::arithmetic::div_mod::{
    lemma_fundamental_div_mod_converse_div, lemma_fundamental_div_mod_converse_mod,
};
use crate::block::{
    calculate_hash, content_hash_of, entry_view_eq, Block, LogEntry,
};
use crate::order::copy_bytes;
use crate::value::{value_view, Value};

verus! {

/// Why a submission was rejected.
#[derive(Clone, Copy, Debug, PartialEq, Eq, Structural)]
pub enum LogError {
    EmptyOperation,
}

/// The previous-hash field of the genesis block: 32 zero bytes.
pub open spec fn zero_hash() -> Seq<u8> {
    Seq::new(32, |i: int| 0u8)
}

fn zero_vec32() -> (r: Vec<u8>)
    ensures
        r@ == zero_hash(),
{
    let mut r: Vec<u8> = Vec::new();
    let mut i: usize = 0;
    while i < 32
        invariant
            0 <= i <= 32,
            r@.len() == i,
            forall|j: int| 0 <= j < i ==> r@[j] == 0u8,
        decreases 32 - i,
    {
        r.push(0u8);
        i = i + 1;
    }
    proof {
        assert(r@ =~= zero_hash());
    }
    r
}

/// What well-formedness asks of the block at position `i`.
pub open spec fn block_at_wf(bs: Seq<Block>, t: nat, i: int) -> bool
    recommends
        0 <= i < bs.len(),
{
    let b = bs[i];
    &&& b.id as int == i
    &&& b.btype@ == "log_entry"@
    &&& 1 <= b.entries@.len() <= t
    &&& (b.finalized <==> b.entries@.len() == t)
    &&& (i < bs.len() - 1 ==> b.finalized)
    &&& b.ts == b.entries@[0].timestamp
    &&& (b.finalized ==> b.hash@ == content_hash_of(b))
    &&& (!b.finalized ==> b.hash@ == Seq::<u8>::empty())
    &&& (i == 0 ==> b.phash@ == zero_hash())
    &&& (i > 0 ==> b.phash@ == bs[i - 1].hash@)
}

/// Well-formedness of a block sequence under threshold `t`: indices
/// match positions, all blocks but the last are sealed with exactly `t`
/// entries, a sealed block's hash is its content hash, and every block
/// links to its predecessor's hash — the genesis block to 32 zero bytes.
pub open spec fn blocks_wf(bs: Seq<Block>, t: nat) -> bool {
    &&& t >= 1
    &&& forall|i: int| 0 <= i < bs.len() ==> #[trigger] block_at_wf(bs, t, i)
}

/// All entries of all blocks, in block order then entry order.
pub open spec fn all_entries(bs: Seq<Block>) -> Seq<LogEntry>
    decreases bs.len(),
{
    if bs.len() == 0 {
        Seq::empty()
    } else {
        all_entries(bs.drop_last()) + bs.last().entries@
    }
}

/// The append-only ordered store of all blocks, the flat submission
/// log, and the entries-per-block threshold.
pub struct Ledger {
    pub blocks: Vec<Block>,
    pub log: Vec<LogEntry>,
    pub threshold: usize,
}

impl Ledger {
    /// Well-formedness: the blocks are chained and the flat log carries
    /// exactly the blocks' entries, in order.
    pub open spec fn wf(self) -> bool {
        &&& blocks_wf(self.blocks@, self.threshold as nat)
        &&& all_entries(self.blocks@).len() == self.log@.len()
        &&& forall|i: int|
            0 <= i < self.log@.len() ==> entry_view_eq(
                #[trigger] all_entries(self.blocks@)[i],
                self.log@[i],
            )
    }

    /// An empty ledger with the default threshold of 2 entries per block.
    pub fn new() -> (r: Ledger)
        ensures
            r.wf(),
            r.blocks@.len() == 0,
            r.log@.len() == 0,
            r.threshold == 2,
    {
        Ledger { blocks: Vec::new(), log: Vec::new(), threshold: 2 }
    }

    /// An empty ledger sealing each block after `threshold` entries.
    pub fn with_threshold(threshold: usize) -> (r: Ledger)
        requires
            threshold >= 1,
        ensures
            r.wf(),
            r.blocks@.len() == 0,
            r.log@.len() == 0,
            r.threshold == threshold,
    {
        Ledger { blocks: Vec::new(), log: Vec::new(), threshold }
    }

    /// Lets the new entry into the open block, or into a fresh block if
    /// none is open; seals the block it landed in once that block holds
    /// `threshold` entries.
    pub fn create_block_if_needed(&mut self, current_time: u64, new_entry: LogEntry)
        requires
            blocks_wf(old(self).blocks@, old(self).threshold as nat),
            new_entry.timestamp == current_time,
        ensures
            blocks_wf(final(self).blocks@, final(self).threshold as nat),
            final(self).threshold == old(self).threshold,
            final(self).log@ == old(self).log@,
            all_entries(final(self).blocks@) == all_entries(old(self).blocks@).push(new_entry),
            final(self).blocks@.len() == if old(self).blocks@.len() == 0 || old(self).blocks@.last().finalized {
                old(self).blocks@.len() + 1
            } else {
                old(self).blocks@.len()
            },
    {
        let ghost t = self.threshold as nat;
        let ghost bs = self.blocks@;
        let n = self.blocks.len();
        let make_new = n == 0 || self.blocks[n - 1].finalized;
        if make_new {
            let phash: Vec<u8> = if n == 0 {
                zero_vec32()
            } else {
                copy_bytes(&self.blocks[n - 1].hash)
            };
            let mut entries: Vec<LogEntry> = Vec::new();
            entries.push(new_entry);
            let mut b = Block {
                id: n as u64,
                hash: Vec::new(),
                phash,
                btype: "log_entry".to_owned(),
                ts: current_time,
                entries,
                finalized: false,
            };
            if self.threshold <= 1 {
                let h = calculate_hash(&b);
                let ghost before = b;
                b.hash = h;
                b.finalized = true;
                proof {
                    assert(content_hash_of(b) == content_hash_of(before));
                }
            }
            self.blocks.push(b);
            proof {
                let nbs = self.blocks@;
                assert(nbs.drop_last() =~= bs);
                assert(nbs.last() == b);
                assert(all_entries(nbs) == all_entries(bs) + b.entries@);
                assert(b.entries@ =~= seq![new_entry]);
                assert(all_entries(nbs) =~= all_entries(bs).push(new_entry));
                assert forall|i: int| 0 <= i < nbs.len() implies #[trigger] block_at_wf(
                    nbs,
                    t,
                    i,
                ) by {
                    if i < n {
                        assert(block_at_wf(bs, t, i));
                        assert(nbs[i] == bs[i]);
                        if i > 0 {
                            assert(nbs[i - 1] == bs[i - 1]);
                        }
                    } else {
                        assert(nbs[i] == b);
                        assert(b.entries@[0] == new_entry);
                        if i > 0 {
                            assert(block_at_wf(bs, t, i - 1));
                            assert(nbs[i - 1] == bs[i - 1]);
                        }
                    }
                }
            }
        } else {
            let popped = self.blocks.pop();
            let mut last = popped.unwrap();
            let ghost old_last = last;
            last.entries.push(new_entry);
            if last.entries.len() >= self.threshold {
                let h = calculate_hash(&last);
                let ghost before = last;
                last.hash = h;
                last.finalized = true;
                proof {
                    assert(content_hash_of(last) == content_hash_of(before));
                }
            }
            self.blocks.push(last);
            proof {
                let nbs = self.blocks@;
                assert(bs.drop_last() =~= nbs.drop_last());
                assert(nbs.last() == last);
                assert(block_at_wf(bs, t, n - 1));
                assert(last.entries@ =~= old_last.entries@.push(new_entry));
                assert(all_entries(nbs) == all_entries(nbs.drop_last()) + last.entries@);
                assert(all_entries(bs) == all_entries(bs.drop_last()) + old_last.entries@);
                assert(all_entries(nbs) =~= all_entries(bs).push(new_entry));
                assert forall|i: int| 0 <= i < nbs.len() implies #[trigger] block_at_wf(
                    nbs,
                    t,
                    i,
                ) by {
                    if i < n - 1 {
                        assert(block_at_wf(bs, t, i));
                        assert(nbs[i] == bs[i]);
                        if i > 0 {
                            assert(nbs[i - 1] == bs[i - 1]);
                        }
                    } else {
                        assert(old_last.entries@.len() >= 1);
                        assert(last.entries@[0] == old_last.entries@[0]);
                        assert(last.ts == old_last.ts);
                        if i > 0 {
                            assert(block_at_wf(bs, t, i - 1));
                            assert(nbs[i - 1] == bs[i - 1]);
                        }
                    }
                }
            }
        }
    }

    /// Records a submission: rejects an empty operation name without
    /// touching any state; otherwise appends the entry to the flat log
    /// and lets it into the block chain.
    pub fn add_entry(
        &mut self,
        timestamp: u64,
        operation: String,
        details: Value,
        caller: String,
    ) -> (r: Result<(), LogError>)
        requires
            old(self).wf(),
        ensures
            final(self).wf(),
            final(self).threshold == old(self).threshold,
            operation@.len() == 0 ==> r == Err::<(), LogError>(LogError::EmptyOperation) && final(self).blocks@ == old(self).blocks@ && final(self).log@ == old(self).log@,
            operation@.len() > 0 ==> {
                &&& r == Ok::<(), LogError>(())
                &&& final(self).log@.len() == old(self).log@.len() + 1
                &&& final(self).log@.drop_last() == old(self).log@
                &&& final(self).log@.last().timestamp == timestamp
                &&& final(self).log@.last().operation@ == operation@
                &&& value_view(final(self).log@.last().details) == value_view(details)
                &&& final(self).log@.last().caller@ == caller@
                &&& final(self).blocks@.len() == if old(self).blocks@.len() == 0 || old(self).blocks@.last().finalized {
                    old(self).blocks@.len() + 1
                } else {
                    old(self).blocks@.len()
                }
            },
    {
        if operation.as_str().is_empty() {
            return Err(LogError::EmptyOperation);
        }
        let entry = LogEntry { timestamp, operation, details, caller };
        let copy = entry.duplicate();
        let ghost old_log = self.log@;
        let ghost old_blocks = self.blocks@;
        self.log.push(copy);
        self.create_block_if_needed(timestamp, entry);
        proof {
            assert(self.log@.drop_last() =~= old_log);
            let ae = all_entries(self.blocks@);
            assert(ae == all_entries(old_blocks).push(entry));
            assert forall|i: int| 0 <= i < self.log@.len() implies entry_view_eq(
                #[trigger] ae[i],
                self.log@[i],
            ) by {
                if i < old_log.len() {
                    assert(ae[i] == all_entries(old_blocks)[i]);
                    assert(self.log@[i] == old_log[i]);
                } else {
                    assert(ae[i] == entry);
                    assert(self.log@[i] == copy);
                }
            }
        }
        Ok(())
    }

    /// All log entries, in submission order.
    pub fn get_logs(&self) -> (r: Vec<LogEntry>)
        ensures
            r@.len() == self.log@.len(),
            forall|i: int|
                0 <= i < self.log@.len() ==> entry_view_eq(#[trigger] r@[i], self.log@[i]),
    {
        let mut r: Vec<LogEntry> = Vec::new();
        let mut i: usize = 0;
        while i < self.log.len()
            invariant
                0 <= i <= self.log@.len(),
                r@.len() == i,
                forall|j: int|
                    0 <= j < i ==> entry_view_eq(#[trigger] r@[j], self.log@[j]),
            decreases self.log@.len() - i,
        {
            let e = self.log[i].duplicate();
            r.push(e);
            i = i + 1;
        }
        r
    }
}

/// A prefix of a well-formed block sequence is well-formed.
proof fn lemma_blocks_wf_drop_last(bs: Seq<Block>, t: nat)
    requires
        blocks_wf(bs, t),
        bs.len() > 0,
    ensures
        blocks_wf(bs.drop_last(), t),
{
    let p = bs.drop_last();
    assert forall|i: int| 0 <= i < p.len() implies #[trigger] block_at_wf(p, t, i) by {
        assert(block_at_wf(bs, t, i));
        assert(p[i] == bs[i]);
        if i > 0 {
            assert(p[i - 1] == bs[i - 1]);
        }
    }
}

/// In a well-formed chain of `k` blocks, the first `k - 1` blocks hold
/// exactly `t` entries each, so the entry count is `(k-1)*t` plus the
/// last block's entries.
proof fn lemma_all_entries_count(bs: Seq<Block>, t: nat)
    requires
        blocks_wf(bs, t),
        bs.len() > 0,
    ensures
        all_entries(bs).len() == (bs.len() - 1) * t + bs.last().entries@.len(),
    decreases bs.len(),
{
    let k = bs.len() as int;
    if k == 1 {
        assert(all_entries(bs.drop_last()).len() == 0) by {
            assert(bs.drop_last().len() == 0);
        }
        assert((k - 1) * t == 0) by (nonlinear_arith)
            requires
                k == 1,
        ;
    } else {
        lemma_blocks_wf_drop_last(bs, t);
        lemma_all_entries_count(bs.drop_last(), t);
        assert(block_at_wf(bs, t, k - 2));
        assert(bs[k - 2].finalized);
        assert(bs.drop_last().last() == bs[k - 2]);
        assert(bs[k - 2].entries@.len() == t);
        assert((k - 2) * t + t == (k - 1) * t) by (nonlinear_arith);
    }
}

/// After `n` accepted submissions under threshold `t`, the ledger holds
/// the round-up of `n / t` blocks, and the last block is still open
/// exactly when `t` does not divide `n`.
pub proof fn lemma_ledger_length(l: Ledger)
    requires
        l.wf(),
    ensures
        l.blocks@.len() == (l.log@.len() as int + l.threshold - 1) / (l.threshold as int),
        l.blocks@.len() > 0 ==> (!l.blocks@.last().finalized <==> (l.log@.len() as int) % (
        l.threshold as int) != 0),
{
    let t = l.threshold as int;
    let k = l.blocks@.len() as int;
    let n = l.log@.len() as int;
    if k == 0 {
        assert(all_entries(l.blocks@).len() == 0);
        assert(n == 0);
        assert((t - 1) / t == 0) by {
            lemma_fundamental_div_mod_converse_div(t - 1, t, 0, t - 1);
        }
    } else {
        lemma_all_entries_count(l.blocks@, l.threshold as nat);
        assert(block_at_wf(l.blocks@, l.threshold as nat, k - 1));
        let r = l.blocks@.last().entries@.len() as int;
        assert(n == (k - 1) * t + r);
        assert(1 <= r <= t);
        if r == t {
            assert(n + t - 1 == k * t + (t - 1)) by (nonlinear_arith)
                requires
                    n == (k - 1) * t + t,
            ;
            lemma_fundamental_div_mod_converse_div(n + t - 1, t, k, t - 1);
            assert(n == k * t + 0) by (nonlinear_arith)
                requires
                    n == (k - 1) * t + t,
            ;
            lemma_fundamental_div_mod_converse_mod(n, t, k, 0);
        } else {
            assert(n + t - 1 == k * t + (r - 1)) by (nonlinear_arith)
                requires
                    n == (k - 1) * t + r,
            ;
            lemma_fundamental_div_mod_converse_div(n + t - 1, t, k, r - 1);
            assert(n == (k - 1) * t + r);
            lemma_fundamental_div_mod_converse_mod(n, t, k - 1, r);
        }
    }
}

/// Every block links to its predecessor: block 0 carries 32 zero bytes,
/// and block `i > 0` carries block `i - 1`'s content hash.
pub proof fn lemma_hash_chain(l: Ledger, i: int)
    requires
        l.wf(),
        0 <= i < l.blocks@.len(),
    ensures
        i == 0 ==> l.blocks@[0].phash@ == zero_hash(),
        i > 0 ==> l.blocks@[i].phash@ == l.blocks@[i - 1].hash@ && l.blocks@[i].phash@
            == content_hash_of(l.blocks@[i - 1]),
{
    assert(block_at_wf(l.blocks@, l.threshold as nat, i));
    if i > 0 {
        assert(block_at_wf(l.blocks@, l.threshold as nat, i - 1));
        assert(l.blocks@[i - 1].finalized);
    }
}

} // verus!
