//! Range retrieval, the tip certificate, and the static capability
//! queries over a ledger. Retrieved blocks are rendered into the
//! structured payload type; the tip certificate commits to the last
//! block's index and stored hash.

use vstd::prelude::*;
use crate::block::{Block, LogEntry};
use crate::bytes::uleb128_of;
use crate::hash::{sha256, sha256_of, uleb128_encode};
use crate::ledger::Ledger;
use crate::natural::Natural;
use crate::value::{fields_view, seq_view, value_view, Value, ValueView};
use crate::block::append_bytes;

verus! {

/// Arguments of the archive listing: an optional identity to start from.
pub struct GetArchivesArgs {
    pub from: Option<String>,
}

/// One archive reference: an identity and the index range it retains.
pub struct ArchiveInfo {
    pub canister_id: String,
    pub start: u64,
    pub end: u64,
}

/// The archive listing.
pub struct GetArchivesResult(pub Vec<ArchiveInfo>);

/// The tip commitment: the certified bytes and their digest.
pub struct DataCertificate {
    pub certificate: Vec<u8>,
    pub hash_tree: Vec<u8>,
}

/// A block range request: first index and count.
pub struct GetBlocksArgs {
    pub start: u64,
    pub length: u64,
}

/// One rendered block with its index.
pub struct BlockInfo {
    pub id: u64,
    pub block: Value,
}

/// A delegated range held by an archive, with its callback name.
pub struct ArchivedBlocksRange {
    pub args: GetBlocksArgs,
    pub callback: String,
}

/// The result of a range request: total length, the rendered blocks in
/// range, and the delegated ranges (always empty here).
pub struct GetBlocksResult {
    pub log_length: u64,
    pub blocks: Vec<BlockInfo>,
    pub archived_blocks: Vec<ArchivedBlocksRange>,
}

/// One supported block type and its documentation reference.
pub struct BlockTypeInfo {
    pub block_type: String,
    pub url: String,
}

/// The rendered form of one entry: a field list of its data.
pub open spec fn render_entry(e: LogEntry) -> ValueView {
    ValueView::OrderedFields(
        seq![
            ("timestamp"@, ValueView::UnsignedInt(e.timestamp as nat)),
            ("operation"@, ValueView::Text(e.operation@)),
            ("details"@, value_view(e.details)),
            ("caller"@, ValueView::Text(e.caller@)),
        ],
    )
}

/// The rendered forms of a list of entries, in order.
pub open spec fn render_entries(es: Seq<LogEntry>) -> Seq<ValueView> {
    Seq::new(es.len(), |i: int| render_entry(es[i]))
}

/// The text form of a truth value.
pub open spec fn bool_text(b: bool) -> Seq<char> {
    if b {
        "true"@
    } else {
        "false"@
    }
}

/// The rendered form of one block: a field list of its fields, with its
/// entries rendered in order.
pub open spec fn render_block(b: Block) -> ValueView {
    ValueView::OrderedFields(
        seq![
            ("id"@, ValueView::UnsignedInt(b.id as nat)),
            ("hash"@, ValueView::Bytes(b.hash@)),
            ("phash"@, ValueView::Bytes(b.phash@)),
            ("btype"@, ValueView::Text(b.btype@)),
            ("ts"@, ValueView::UnsignedInt(b.ts as nat)),
            ("finalized"@, ValueView::Text(bool_text(b.finalized))),
            ("entries"@, ValueView::Sequence(render_entries(b.entries@))),
        ],
    )
}

/// How many blocks a range request yields: none when `start` is past
/// the end, otherwise `length` clamped to the available tail.
pub open spec fn range_count(start: u64, length: u64, n: int) -> int {
    if start as int >= n {
        0
    } else if length as int <= n - start as int {
        length as int
    } else {
        n - start as int
    }
}

fn render_entry_exec(e: &LogEntry) -> (r: Value)
    ensures
        value_view(r) == render_entry(*e),
{
    let mut fields: Vec<(String, Value)> = Vec::new();
    fields.push(("timestamp".to_owned(), Value::UnsignedInt(Natural::from_u64(e.timestamp))));
    fields.push(("operation".to_owned(), Value::Text(e.operation.clone())));
    fields.push(("details".to_owned(), e.details.deep_clone()));
    fields.push(("caller".to_owned(), Value::Text(e.caller.clone())));
    proof {
        crate::value::lemma_fields_view_basic(fields@);
        assert(fields_view(fields@) =~= render_entry(*e)->OrderedFields_0);
    }
    Value::OrderedFields(fields)
}

fn render_block_exec(b: &Block) -> (r: Value)
    ensures
        value_view(r) == render_block(*b),
{
    let mut rendered: Vec<Value> = Vec::new();
    let mut j: usize = 0;
    while j < b.entries.len()
        invariant
            0 <= j <= b.entries@.len(),
            rendered@.len() == j,
            forall|i: int|
                0 <= i < j ==> #[trigger] value_view(rendered@[i]) == render_entry(b.entries@[i]),
        decreases b.entries@.len() - j,
    {
        let e = render_entry_exec(&b.entries[j]);
        rendered.push(e);
        j = j + 1;
    }
    proof {
        crate::value::lemma_seq_view_basic(rendered@);
        assert(seq_view(rendered@) =~= render_entries(b.entries@));
    }
    let finalized_text: String = if b.finalized {
        "true".to_owned()
    } else {
        "false".to_owned()
    };
    let mut fields: Vec<(String, Value)> = Vec::new();
    fields.push(("id".to_owned(), Value::UnsignedInt(Natural::from_u64(b.id))));
    fields.push(("hash".to_owned(), Value::Bytes(crate::order::copy_bytes(&b.hash))));
    fields.push(("phash".to_owned(), Value::Bytes(crate::order::copy_bytes(&b.phash))));
    fields.push(("btype".to_owned(), Value::Text(b.btype.clone())));
    fields.push(("ts".to_owned(), Value::UnsignedInt(Natural::from_u64(b.ts))));
    fields.push(("finalized".to_owned(), Value::Text(finalized_text)));
    fields.push(("entries".to_owned(), Value::Sequence(rendered)));
    proof {
        crate::value::lemma_fields_view_basic(fields@);
        assert(fields_view(fields@) =~= render_block(*b)->OrderedFields_0);
    }
    Value::OrderedFields(fields)
}

impl Ledger {
    /// Retrieves blocks with indices in `[start, start + length)`,
    /// clamped to what the ledger holds: an out-of-range start yields
    /// no blocks, never an error. Delegated archive ranges are always
    /// empty here.
    pub fn icrc3_get_blocks(&self, args: GetBlocksArgs) -> (r: GetBlocksResult)
        ensures
            r.log_length == self.blocks@.len(),
            r.archived_blocks@.len() == 0,
            r.blocks@.len() == range_count(args.start, args.length, self.blocks@.len() as int),
            forall|k: int|
                0 <= k < r.blocks@.len() ==> (#[trigger] r.blocks@[k]).id == args.start + k
                    && value_view(r.blocks@[k].block) == render_block(
                    self.blocks@[args.start + k],
                ),
    {
        let n = self.blocks.len();
        let mut blocks: Vec<BlockInfo> = Vec::new();
        if args.start < n as u64 {
            let s = args.start as usize;
            let avail = (n - s) as u64;
            let cnt = if args.length < avail {
                args.length as usize
            } else {
                n - s
            };
            let mut k: usize = 0;
            while k < cnt
                invariant
                    0 <= k <= cnt,
                    cnt <= n - s,
                    s < n,
                    s == args.start as int,
                    n == self.blocks@.len(),
                    blocks@.len() == k,
                    forall|i: int|
                        0 <= i < k ==> (#[trigger] blocks@[i]).id == args.start + i && value_view(
                            blocks@[i].block,
                        ) == render_block(self.blocks@[args.start + i]),
                decreases cnt - k,
            {
                let rendered = render_block_exec(&self.blocks[s + k]);
                let info = BlockInfo { id: args.start + k as u64, block: rendered };
                blocks.push(info);
                k = k + 1;
            }
        }
        GetBlocksResult {
            log_length: n as u64,
            blocks,
            archived_blocks: Vec::new(),
        }
    }

    /// Builds the tip commitment: none on an empty ledger; otherwise
    /// the last block's index in unsigned LEB128 form followed by its
    /// stored hash, and the SHA-256 digest of those bytes.
    pub fn icrc3_get_tip_certificate(&self) -> (r: Option<DataCertificate>)
        ensures
            r is None <==> self.blocks@.len() == 0,
            r matches Some(c) ==> c.certificate@ == uleb128_of((self.blocks@.len() - 1) as nat)
                + self.blocks@.last().hash@ && c.hash_tree@ == sha256_of(c.certificate@),
    {
        let n = self.blocks.len();
        if n == 0 {
            return None;
        }
        let mut certificate = uleb128_encode((n - 1) as u64);
        append_bytes(&mut certificate, self.blocks[n - 1].hash.as_slice());
        let hash_tree = sha256(certificate.as_slice());
        Some(DataCertificate { certificate, hash_tree })
    }
}

/// Whether the listing holds both placeholder archives.
pub open spec fn both_archives(s: Seq<ArchiveInfo>) -> bool {
    &&& s.len() == 2
    &&& s[0].canister_id@ == "aaaaa-aa"@
    &&& s[0].start == 0
    &&& s[0].end == 999
    &&& s[1].canister_id@ == "bbbbb-bb"@
    &&& s[1].start == 1000
    &&& s[1].end == 1999
}

/// Lists the placeholder archives, skipping those that precede `from`:
/// a `from` naming the first archive yields both, one naming the second
/// yields only it, and any other identity yields none.
pub fn icrc3_get_archives(args: GetArchivesArgs) -> (r: GetArchivesResult)
    ensures
        args.from is None ==> both_archives(r.0@),
        args.from matches Some(f) && f@ == "aaaaa-aa"@ ==> both_archives(r.0@),
        args.from matches Some(f) && f@ != "aaaaa-aa"@ && f@ == "bbbbb-bb"@ ==> r.0@.len() == 1
            && r.0@[0].canister_id@ == "bbbbb-bb"@ && r.0@[0].start == 1000 && r.0@[0].end == 1999,
        args.from matches Some(f) && f@ != "aaaaa-aa"@ && f@ != "bbbbb-bb"@ ==> r.0@.len() == 0,
{
    let first = ArchiveInfo { canister_id: "aaaaa-aa".to_owned(), start: 0, end: 999 };
    let second = ArchiveInfo { canister_id: "bbbbb-bb".to_owned(), start: 1000, end: 1999 };
    match &args.from {
        None => {
            let mut v: Vec<ArchiveInfo> = Vec::new();
            v.push(first);
            v.push(second);
            GetArchivesResult(v)
        },
        Some(f) => {
            let a: String = "aaaaa-aa".to_owned();
            if f.eq(&a) {
                let mut v: Vec<ArchiveInfo> = Vec::new();
                v.push(first);
                v.push(second);
                GetArchivesResult(v)
            } else {
                let b: String = "bbbbb-bb".to_owned();
                if f.eq(&b) {
                    let mut v: Vec<ArchiveInfo> = Vec::new();
                    v.push(second);
                    GetArchivesResult(v)
                } else {
                    GetArchivesResult(Vec::new())
                }
            }
        },
    }
}

/// The single supported block type and its documentation reference.
pub fn icrc3_supported_block_types() -> (r: Vec<BlockTypeInfo>)
    ensures
        r@.len() == 1,
        r@[0].block_type@ == "log_entry"@,
        r@[0].url@ == "https://github.com/dfinity/ICRC-1/blob/main/standards/ICRC-3/README.md"@,
{
    let mut r: Vec<BlockTypeInfo> = Vec::new();
    r.push(
        BlockTypeInfo {
            block_type: "log_entry".to_owned(),
            url: "https://github.com/dfinity/ICRC-1/blob/main/standards/ICRC-3/README.md".to_owned(),
        },
    );
    r
}

} // verus!
