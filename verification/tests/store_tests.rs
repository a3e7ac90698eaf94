//! The log-structured store: writes, reads, removals, reopening,
//! crash recovery and compaction.

use kvs::codec::encode_op;
use kvs::engines::KvStore;
use kvs::engines::KvsEngine;
use kvs::error::KvsErrorType;
use kvs::Operation;

fn reopen(store: &KvStore) -> KvStore {
    let bytes = store.segment_bytes().clone();
    KvStore::open(store.active_segment_id(), bytes).expect("reopen failed")
}

#[test]
fn set_then_get_then_overwrite() {
    let mut kv = KvStore::new();
    kv.set(String::from("a"), String::from("1")).unwrap();
    assert_eq!(kv.get(String::from("a")).unwrap(), Some(String::from("1")));
    kv.set(String::from("a"), String::from("2")).unwrap();
    assert_eq!(kv.get(String::from("a")).unwrap(), Some(String::from("2")));
}

#[test]
fn remove_then_get_then_remove_again() {
    let mut kv = KvStore::new();
    kv.set(String::from("a"), String::from("1")).unwrap();
    kv.remove(String::from("a")).unwrap();
    assert_eq!(kv.get(String::from("a")).unwrap(), None);
    let err = kv.remove(String::from("a")).unwrap_err();
    assert_eq!(err.kind(), KvsErrorType::KeyNotFound);
}

#[test]
fn get_absent_is_none() {
    let kv = KvStore::new();
    assert_eq!(kv.get(String::from("missing")).unwrap(), None);
}

#[test]
fn disk_round_trip() {
    let mut kv = KvStore::new();
    for i in 0..50u32 {
        kv.set(format!("key{}", i), format!("value{}", i)).unwrap();
    }
    kv.remove(String::from("key7")).unwrap();
    kv.set(String::from("key9"), String::from("nine")).unwrap();

    let back = reopen(&kv);
    assert_eq!(back.active_segment_id(), kv.active_segment_id());
    assert_eq!(back.get(String::from("key7")).unwrap(), None);
    assert_eq!(back.get(String::from("key9")).unwrap(), Some(String::from("nine")));
    for i in 0..50u32 {
        if i == 7 || i == 9 {
            continue;
        }
        assert_eq!(
            back.get(format!("key{}", i)).unwrap(),
            Some(format!("value{}", i)),
            "key{} differs after reopen",
            i
        );
    }
    assert_eq!(back.reclaimable_bytes(), kv.reclaimable_bytes());
}

#[test]
fn reopen_of_reopen_is_stable() {
    let mut kv = KvStore::new();
    kv.set(String::from("x"), String::from("y")).unwrap();
    let once = reopen(&kv);
    let twice = reopen(&once);
    assert_eq!(once.segment_bytes(), twice.segment_bytes());
    assert_eq!(twice.get(String::from("x")).unwrap(), Some(String::from("y")));
}

#[test]
fn truncated_tail_drops_only_last_record() {
    let mut kv = KvStore::new();
    kv.set(String::from("first"), String::from("1")).unwrap();
    kv.set(String::from("second"), String::from("2")).unwrap();
    let mut bytes = kv.segment_bytes().clone();
    bytes.pop();
    let back = KvStore::open(kv.active_segment_id(), bytes.clone()).expect("open failed");
    assert_eq!(back.get(String::from("first")).unwrap(), Some(String::from("1")));
    assert_eq!(back.get(String::from("second")).unwrap(), None);
    assert!(back.segment_bytes().len() < bytes.len());
}

#[test]
fn corrupt_tag_is_serde_error() {
    let mut kv = KvStore::new();
    kv.set(String::from("a"), String::from("1")).unwrap();
    let mut bytes = kv.segment_bytes().clone();
    bytes[0] = 0xFF;
    let err = match KvStore::open(0, bytes) {
        Ok(_) => panic!("corrupt log opened"),
        Err(e) => e,
    };
    assert_eq!(err.kind(), KvsErrorType::SerdeError);
}

#[test]
fn compaction_preserves_mapping_and_resets_counter() {
    let mut kv = KvStore::new();
    for i in 0..20u32 {
        kv.set(format!("k{}", i), format!("v{}", i)).unwrap();
    }
    for i in 0..20u32 {
        kv.set(format!("k{}", i), format!("w{}", i)).unwrap();
    }
    kv.remove(String::from("k3")).unwrap();
    assert!(kv.reclaimable_bytes() > 0);
    let id_before = kv.active_segment_id();
    let size_before = kv.segment_bytes().len();

    kv.compact();

    assert_eq!(kv.active_segment_id(), id_before + 1);
    assert_eq!(kv.reclaimable_bytes(), 0);
    assert!(kv.segment_bytes().len() < size_before);
    assert_eq!(kv.get(String::from("k3")).unwrap(), None);
    for i in 0..20u32 {
        if i == 3 {
            continue;
        }
        assert_eq!(kv.get(format!("k{}", i)).unwrap(), Some(format!("w{}", i)));
    }
}

#[test]
fn compaction_triggered_by_threshold() {
    let mut kv = KvStore::new();
    kv.set_compact_threshold(256);
    for round in 0..40u32 {
        for i in 0..4u32 {
            kv.set(format!("k{}", i), format!("value-{}-{}", round, i)).unwrap();
        }
    }
    assert!(kv.active_segment_id() > 0, "no compaction ever ran");
    assert!(kv.reclaimable_bytes() <= 256 + 64);
    for i in 0..4u32 {
        assert_eq!(kv.get(format!("k{}", i)).unwrap(), Some(format!("value-39-{}", i)));
    }
}

#[test]
fn heavy_overwrite_bounded_segment() {
    let mut kv = KvStore::new();
    kv.set_compact_threshold(8 * 1024);
    let filler = "x".repeat(90);
    for round in 0..100u32 {
        for i in 0..100u32 {
            kv.set(format!("key{:03}", i), format!("{}-{:03}-{}", filler, i, round)).unwrap();
        }
    }
    let back = reopen(&kv);
    for i in 0..100u32 {
        assert_eq!(
            back.get(format!("key{:03}", i)).unwrap(),
            Some(format!("{}-{:03}-99", filler, i))
        );
    }
    let mut compacted = reopen(&kv);
    compacted.compact();
    let live = compacted.segment_bytes().len();
    assert!(
        kv.segment_bytes().len() <= 2 * live,
        "active segment {} exceeds twice the live footprint {}",
        kv.segment_bytes().len(),
        live
    );
}

#[test]
fn interleaved_workload_matches_model() {
    let mut kv = KvStore::new();
    kv.set_compact_threshold(4 * 1024);
    let mut model: Vec<Option<String>> = vec![None; 10];
    let mut x: u64 = 0x9E3779B97F4A7C15;
    for step in 0..10_000u64 {
        x ^= x << 13;
        x ^= x >> 7;
        x ^= x << 17;
        let k = (x % 10) as usize;
        let key = format!("k{}", k);
        match x % 3 {
            0 => {
                let value = format!("v{}", step);
                kv.set(key, value.clone()).unwrap();
                model[k] = Some(value);
            }
            1 => {
                let removed = kv.remove(key).is_ok();
                assert_eq!(removed, model[k].is_some());
                model[k] = None;
            }
            _ => {
                assert_eq!(kv.get(key).unwrap(), model[k]);
            }
        }
    }
    for k in 0..10usize {
        assert_eq!(kv.get(format!("k{}", k)).unwrap(), model[k]);
    }
    let back = reopen(&kv);
    for k in 0..10usize {
        assert_eq!(back.get(format!("k{}", k)).unwrap(), model[k]);
    }
}

#[test]
fn empty_store_reopens_empty() {
    let kv = KvStore::new();
    assert_eq!(kv.segment_bytes().len(), 0);
    let back = KvStore::open(0, Vec::new()).unwrap();
    assert_eq!(back.get(String::from("anything")).unwrap(), None);
    assert_eq!(back.reclaimable_bytes(), 0);
}

#[test]
fn kv_store_kind_is_kvs() {
    let kv = KvStore::new();
    assert_eq!(kv.get_type(), "kvs");
}

#[test]
fn set_persists_through_unrelated_ops() {
    let mut kv = KvStore::new();
    kv.set(String::from("a"), String::from("1")).unwrap();
    kv.set(String::from("b"), String::from("2")).unwrap();
    kv.set(String::from("c"), String::from("3")).unwrap();
    kv.remove(String::from("b")).unwrap();
    kv.set(String::from("c"), String::from("4")).unwrap();
    assert_eq!(kv.get(String::from("a")).unwrap(), Some(String::from("1")));
}

#[test]
fn remove_persists_through_unrelated_ops() {
    let mut kv = KvStore::new();
    kv.set(String::from("a"), String::from("1")).unwrap();
    kv.set(String::from("b"), String::from("2")).unwrap();
    kv.remove(String::from("a")).unwrap();
    kv.set(String::from("b"), String::from("3")).unwrap();
    kv.remove(String::from("b")).unwrap();
    assert_eq!(kv.get(String::from("a")).unwrap(), None);
}

#[test]
fn set_appends_exactly_one_frame() {
    let mut kv = KvStore::new();
    let key = String::from("k");
    let frame = encode_op(&Operation::set(&key, String::from("v")));
    kv.set(String::from("k"), String::from("v")).unwrap();
    assert_eq!(kv.segment_bytes(), &frame);
    let frame2 = encode_op(&Operation::remove(&key));
    kv.remove(String::from("k")).unwrap();
    let mut both = frame.clone();
    both.extend_from_slice(&frame2);
    assert_eq!(kv.segment_bytes(), &both);
}

#[test]
fn failed_remove_writes_nothing() {
    let mut kv = KvStore::new();
    kv.set(String::from("a"), String::from("1")).unwrap();
    let before = kv.segment_bytes().clone();
    let reclaim_before = kv.reclaimable_bytes();
    let err = kv.remove(String::from("absent")).unwrap_err();
    assert_eq!(err.kind(), KvsErrorType::KeyNotFound);
    assert_eq!(kv.segment_bytes(), &before);
    assert_eq!(kv.reclaimable_bytes(), reclaim_before);
}

#[test]
fn cut_inside_last_frame_drops_it_whole() {
    let mut kv = KvStore::new();
    kv.set(String::from("first"), String::from("1")).unwrap();
    let boundary = kv.segment_bytes().len();
    kv.set(String::from("second"), String::from("2")).unwrap();
    let mut bytes = kv.segment_bytes().clone();
    bytes.truncate(boundary + 3);
    let back = KvStore::open(kv.active_segment_id(), bytes).expect("open failed");
    assert_eq!(back.segment_bytes().len(), boundary);
    assert_eq!(back.get(String::from("first")).unwrap(), Some(String::from("1")));
    assert_eq!(back.get(String::from("second")).unwrap(), None);
}
