use blocklog::block::calculate_hash;
use blocklog::icrc3::{icrc3_get_archives, icrc3_supported_block_types, GetArchivesArgs, GetBlocksArgs};
use blocklog::ledger::{Ledger, LogError};
use blocklog::natural::Natural;
use blocklog::value::{serialize_value, Value};
use sha2::Digest;

fn sha(data: &[u8]) -> Vec<u8> {
    sha2::Sha256::digest(data).to_vec()
}

fn submit(l: &mut Ledger, ts: u64, op: &str, details: Value, caller: &str) {
    l.add_entry(ts, String::from(op), details, String::from(caller))
        .unwrap();
}

fn unsigned(x: u64) -> Value {
    Value::UnsignedInt(Natural::from_u64(x))
}

#[test]
fn block_count_is_ceiling_of_half() {
    for n in 0u64..8 {
        let mut l = Ledger::new();
        for k in 0..n {
            submit(&mut l, 100 + k, "op", unsigned(k), "caller");
        }
        let expected = ((n + 1) / 2) as usize;
        assert_eq!(l.blocks.len(), expected);
        if n > 0 {
            let last = &l.blocks[l.blocks.len() - 1];
            assert_eq!(!last.finalized, n % 2 == 1);
        }
    }
}

#[test]
fn custom_threshold_three() {
    let mut l = Ledger::with_threshold(3);
    for k in 0u64..4 {
        submit(&mut l, k, "op", unsigned(k), "c");
    }
    assert_eq!(l.blocks.len(), 2);
    assert!(l.blocks[0].finalized);
    assert_eq!(l.blocks[0].entries.len(), 3);
    assert!(!l.blocks[1].finalized);
    assert_eq!(l.blocks[1].entries.len(), 1);
}

#[test]
fn chain_links_previous_hashes() {
    let mut l = Ledger::new();
    for k in 0u64..5 {
        submit(&mut l, k, "op", unsigned(k), "c");
    }
    assert_eq!(l.blocks.len(), 3);
    assert_eq!(l.blocks[0].phash, vec![0u8; 32]);
    assert_eq!(l.blocks[1].phash, l.blocks[0].hash);
    assert_eq!(l.blocks[2].phash, l.blocks[1].hash);
    for b in &l.blocks {
        if b.finalized {
            assert_eq!(b.hash.len(), 32);
        } else {
            assert!(b.hash.is_empty());
        }
    }
}

#[test]
fn rehashing_a_sealed_block_reproduces_its_hash() {
    let mut l = Ledger::new();
    submit(&mut l, 7, "increment", unsigned(1), "A");
    submit(&mut l, 8, "increment", unsigned(2), "A");
    let block = &l.blocks[0];
    assert!(block.finalized);
    assert_eq!(calculate_hash(block), block.hash);

    // The same bytes, assembled independently.
    let mut input: Vec<u8> = Vec::new();
    input.push(0u8); // block index 0, minimal little-endian
    input.extend_from_slice(&block.phash);
    input.extend_from_slice(b"log_entry");
    input.extend_from_slice(&block.ts.to_be_bytes());
    for e in &block.entries {
        input.extend_from_slice(&e.timestamp.to_be_bytes());
        input.extend_from_slice(e.operation.as_bytes());
        input.extend_from_slice(&serialize_value(&e.details));
        input.extend_from_slice(e.caller.as_bytes());
    }
    assert_eq!(block.hash, sha(&input));
}

#[test]
fn empty_operation_is_rejected_without_mutation() {
    let mut l = Ledger::new();
    submit(&mut l, 1, "op", unsigned(1), "c");
    let r = l.add_entry(2, String::new(), unsigned(2), String::from("c"));
    assert_eq!(r, Err(LogError::EmptyOperation));
    assert_eq!(l.blocks.len(), 1);
    assert_eq!(l.log.len(), 1);
    assert_eq!(l.blocks[0].entries.len(), 1);
}

#[test]
fn scenario_two_then_three_submissions() {
    let mut l = Ledger::new();
    submit(&mut l, 10, "increment", unsigned(1), "A");
    submit(&mut l, 11, "increment", unsigned(2), "A");
    assert_eq!(l.blocks.len(), 1);
    let b0 = &l.blocks[0];
    assert!(b0.finalized);
    assert_eq!(b0.id, 0);
    assert_eq!(b0.phash, vec![0u8; 32]);
    assert_eq!(b0.entries.len(), 2);
    for (i, expected) in [1u64, 2].iter().enumerate() {
        match &b0.entries[i].details {
            Value::UnsignedInt(n) => {
                assert_eq!(n.to_le_bytes(), Natural::from_u64(*expected).to_le_bytes())
            },
            _ => panic!("unexpected payload variant"),
        }
    }

    submit(&mut l, 12, "get", unsigned(2), "B");
    assert_eq!(l.blocks.len(), 2);
    assert!(!l.blocks[1].finalized);
    assert_eq!(l.blocks[1].entries.len(), 1);
    assert_eq!(l.blocks[1].phash, l.blocks[0].hash);
}

#[test]
fn get_blocks_past_the_end_is_empty() {
    let mut l = Ledger::new();
    for k in 0u64..4 {
        submit(&mut l, k, "op", unsigned(k), "c");
    }
    assert_eq!(l.blocks.len(), 2);
    let r = l.icrc3_get_blocks(GetBlocksArgs { start: 2, length: 5 });
    assert_eq!(r.log_length, 2);
    assert!(r.blocks.is_empty());
    assert!(r.archived_blocks.is_empty());
    let far = l.icrc3_get_blocks(GetBlocksArgs { start: u64::MAX, length: 1 });
    assert_eq!(far.log_length, 2);
    assert!(far.blocks.is_empty());
}

#[test]
fn get_blocks_clamps_length_to_tail() {
    let mut l = Ledger::new();
    for k in 0u64..6 {
        submit(&mut l, k, "op", unsigned(k), "c");
    }
    assert_eq!(l.blocks.len(), 3);
    let r = l.icrc3_get_blocks(GetBlocksArgs { start: 1, length: 10 });
    assert_eq!(r.log_length, 3);
    assert_eq!(r.blocks.len(), 2);
    assert_eq!(r.blocks[0].id, 1);
    assert_eq!(r.blocks[1].id, 2);
    let one = l.icrc3_get_blocks(GetBlocksArgs { start: 0, length: 1 });
    assert_eq!(one.blocks.len(), 1);
    assert_eq!(one.blocks[0].id, 0);
}

#[test]
fn get_blocks_renders_block_fields() {
    let mut l = Ledger::new();
    submit(&mut l, 42, "increment", unsigned(1), "A");
    submit(&mut l, 43, "increment", unsigned(2), "A");
    let r = l.icrc3_get_blocks(GetBlocksArgs { start: 0, length: 1 });
    assert_eq!(r.blocks.len(), 1);
    match &r.blocks[0].block {
        Value::OrderedFields(fields) => {
            let names: Vec<&str> = fields.iter().map(|(k, _)| k.as_str()).collect();
            assert_eq!(
                names,
                vec!["id", "hash", "phash", "btype", "ts", "finalized", "entries"]
            );
            match &fields[1].1 {
                Value::Bytes(h) => assert_eq!(h, &l.blocks[0].hash),
                _ => panic!("hash field should hold bytes"),
            }
            match &fields[5].1 {
                Value::Text(t) => assert_eq!(t, "true"),
                _ => panic!("finalized field should hold text"),
            }
            match &fields[6].1 {
                Value::Sequence(entries) => assert_eq!(entries.len(), 2),
                _ => panic!("entries field should hold a sequence"),
            }
        },
        _ => panic!("a rendered block should be a field list"),
    }
}

#[test]
fn tip_certificate_none_then_index_zero() {
    let mut l = Ledger::new();
    assert!(l.icrc3_get_tip_certificate().is_none());
    submit(&mut l, 5, "op", unsigned(1), "c");
    let c = l.icrc3_get_tip_certificate().unwrap();
    let mut reader = &c.certificate[..];
    let decoded = leb128::read::unsigned(&mut reader).unwrap();
    assert_eq!(decoded, 0);
    assert_eq!(c.hash_tree, sha(&c.certificate));
}

#[test]
fn tip_certificate_embeds_last_index_and_hash() {
    let mut l = Ledger::new();
    for k in 0u64..260 {
        submit(&mut l, k, "op", unsigned(k), "c");
    }
    assert_eq!(l.blocks.len(), 130);
    let c = l.icrc3_get_tip_certificate().unwrap();
    let mut reader = &c.certificate[..];
    let decoded = leb128::read::unsigned(&mut reader).unwrap();
    assert_eq!(decoded, 129);
    // Two leb128 bytes for 129, then the stored hash of the last block.
    assert_eq!(&c.certificate[2..], &l.blocks[129].hash[..]);
    assert_eq!(c.hash_tree, sha(&c.certificate));
}

#[test]
fn get_logs_keeps_submission_order() {
    let mut l = Ledger::new();
    submit(&mut l, 1, "first", unsigned(1), "A");
    submit(&mut l, 2, "second", unsigned(2), "B");
    submit(&mut l, 3, "third", unsigned(3), "C");
    let logs = l.get_logs();
    assert_eq!(logs.len(), 3);
    assert_eq!(logs[0].operation, "first");
    assert_eq!(logs[1].operation, "second");
    assert_eq!(logs[2].operation, "third");
    assert_eq!(logs[2].caller, "C");
    assert_eq!(logs[2].timestamp, 3);
}

#[test]
fn archives_filter_by_starting_identity() {
    let all = icrc3_get_archives(GetArchivesArgs { from: None });
    assert_eq!(all.0.len(), 2);
    assert_eq!(all.0[0].canister_id, "aaaaa-aa");
    assert_eq!(all.0[0].start, 0);
    assert_eq!(all.0[0].end, 999);
    assert_eq!(all.0[1].canister_id, "bbbbb-bb");

    let from_first = icrc3_get_archives(GetArchivesArgs { from: Some(String::from("aaaaa-aa")) });
    assert_eq!(from_first.0.len(), 2);

    let from_second = icrc3_get_archives(GetArchivesArgs { from: Some(String::from("bbbbb-bb")) });
    assert_eq!(from_second.0.len(), 1);
    assert_eq!(from_second.0[0].canister_id, "bbbbb-bb");
    assert_eq!(from_second.0[0].start, 1000);
    assert_eq!(from_second.0[0].end, 1999);

    let unknown = icrc3_get_archives(GetArchivesArgs { from: Some(String::from("unknown")) });
    assert!(unknown.0.is_empty());
}

#[test]
fn supported_block_types_is_static() {
    let r = icrc3_supported_block_types();
    assert_eq!(r.len(), 1);
    assert_eq!(r[0].block_type, "log_entry");
    assert_eq!(
        r[0].url,
        "https://github.com/dfinity/ICRC-1/blob/main/standards/ICRC-3/README.md"
    );
}

#[test]
fn block_timestamp_is_first_entrys() {
    let mut l = Ledger::new();
    submit(&mut l, 100, "op", unsigned(1), "c");
    submit(&mut l, 200, "op", unsigned(2), "c");
    submit(&mut l, 300, "op", unsigned(3), "c");
    assert_eq!(l.blocks[0].ts, 100);
    assert_eq!(l.blocks[1].ts, 300);
    assert_eq!(l.blocks[0].entries[1].timestamp, 200);
}
