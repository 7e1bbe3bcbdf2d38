//! Shard routing and batch-result merging.

use stract::dht::{merge_batch_results, merge_table_lists, Client};
use stract::dht_store::StateMachineStore;

fn client_with_ids(ids: &[u64]) -> Client {
    let members: Vec<(u64, String)> = ids
        .iter()
        .map(|id| (*id, format!("node-{id}:9000")))
        .collect();
    Client::new(members)
}

#[test]
fn shard_for_key_is_deterministic() {
    let client = client_with_ids(&[0, 1, 2]);
    let key = b"abc".to_vec();
    let first = client.shard_id_for_key(&key).unwrap();
    let second = client.shard_id_for_key(&key).unwrap();
    assert_eq!(first, second);
    assert!(first <= 2);

    // the route only depends on the id set, not on insertion order
    let reordered = client_with_ids(&[2, 0, 1]);
    assert_eq!(reordered.shard_id_for_key(&key).unwrap(), first);

    let with_duplicates = client_with_ids(&[1, 1, 2, 0, 2]);
    assert_eq!(with_duplicates.shard_id_for_key(&key).unwrap(), first);

    let empty = client_with_ids(&[]);
    assert!(empty.shard_id_for_key(&key).is_err());
    assert!(empty.shard_for_key(&key).is_err());
    assert!(client.shard_for_key(&key).is_ok());
}

#[test]
fn batch_results_sorted_and_deduplicated() {
    let pair = |k: &str, v: &str| (k.as_bytes().to_vec(), v.as_bytes().to_vec());
    let results = vec![
        pair("k3", "c"),
        pair("k1", "a"),
        pair("k2", "b"),
        pair("k1", "a-again"),
        pair("k4", "d"),
        pair("k2", "b-again"),
    ];
    let merged = merge_batch_results(results);
    let keys: Vec<Vec<u8>> = merged.iter().map(|(k, _)| k.clone()).collect();
    assert_eq!(
        keys,
        vec![
            b"k1".to_vec(),
            b"k2".to_vec(),
            b"k3".to_vec(),
            b"k4".to_vec()
        ]
    );
    // the first answer of each key wins
    assert_eq!(merged[0].1, b"a".to_vec());
    assert_eq!(merged[1].1, b"b".to_vec());
}

#[test]
fn routed_keys_spread_over_known_shards() {
    let client = client_with_ids(&[10, 20, 30]);
    for key in ["a", "b", "c", "d", "e", "f"] {
        let id = client.shard_id_for_key(&key.as_bytes().to_vec()).unwrap();
        assert!(id == 10 || id == 20 || id == 30);
    }
}

#[test]
fn state_machine_tables() {
    let mut store = StateMachineStore::new();
    let t = b"counts".to_vec();
    // reads of a missing table answer nothing
    assert!(store.get(&t, &b"a".to_vec()).is_none());
    store.create_table(t.clone());
    // creating again changes nothing
    store.create_table(t.clone());
    assert_eq!(store.all_tables().len(), 1);

    store.set(t.clone(), b"a".to_vec(), b"1".to_vec());
    store.set(t.clone(), b"b".to_vec(), b"2".to_vec());
    // a later write to the same key replaces the value
    store.set(t.clone(), b"a".to_vec(), b"3".to_vec());
    assert_eq!(store.get(&t, &b"a".to_vec()), Some(&b"3".to_vec()));
    assert_eq!(store.get(&t, &b"b".to_vec()), Some(&b"2".to_vec()));
    assert!(store.get(&t, &b"c".to_vec()).is_none());

    // a write to an unknown table creates it, as applying a committed
    // entry must succeed
    store.set(b"other".to_vec(), b"x".to_vec(), b"y".to_vec());
    assert_eq!(store.all_tables().len(), 2);

    store.drop_table(&t);
    assert!(store.get(&t, &b"a".to_vec()).is_none());
    assert_eq!(store.all_tables(), vec![b"other".to_vec()]);
    // dropping a missing table changes nothing
    store.drop_table(&t);
    assert_eq!(store.all_tables().len(), 1);
}

#[test]
fn batch_plan_groups_by_shard() {
    let client = client_with_ids(&[0, 1, 2]);
    let keys: Vec<Vec<u8>> = ["k1", "k2", "k3", "k4", "k5", "k1"]
        .iter()
        .map(|k| k.as_bytes().to_vec())
        .collect();
    let groups = client.plan_batch(&keys).unwrap();
    // shard ids ascend and every key sits in the group of its route
    let mut total = 0;
    for w in groups.windows(2) {
        assert!(w[0].0 < w[1].0);
    }
    for (id, ks) in &groups {
        assert!(!ks.is_empty());
        for k in ks {
            assert_eq!(client.shard_id_for_key(k).unwrap(), *id);
        }
        total += ks.len();
    }
    assert_eq!(total, keys.len());

    // no shards but keys to route: the plan fails as a whole
    let empty = client_with_ids(&[]);
    assert!(empty.plan_batch(&keys).is_err());
    // and nothing to route plans nothing
    assert_eq!(empty.plan_batch(&Vec::new()).unwrap().len(), 0);
}

#[test]
fn table_lists_union_sorted_and_deduplicated() {
    let names: Vec<Vec<u8>> = ["pages", "counts", "pages", "edges", "counts"]
        .iter()
        .map(|n| n.as_bytes().to_vec())
        .collect();
    let merged = merge_table_lists(names);
    assert_eq!(
        merged,
        vec![b"counts".to_vec(), b"edges".to_vec(), b"pages".to_vec()]
    );
}
