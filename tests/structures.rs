use kvserver::buffer::{read_le32, Buffer};
use kvserver::heap::{heap_left, heap_parent, heap_right, ExpHeap};
use kvserver::bst::{node_detach, tree_delete, tree_insert, tree_search, Link, Node};
use kvserver::hmap::HMap;
use kvserver::idle::{next_timer_ms, ConnState, DList};
use kvserver::parse::{is_cmd, parse_i64, parse_usize, split_tokens};
use kvserver::reply::{out_arr, out_dbl, out_err, out_int, out_nil, out_str};
use kvserver::server::{score_bits_of, score_key_of_bits};
use kvserver::zset::ZSet;

fn key(i: u32) -> Vec<u8> {
    format!("key{}", i).into_bytes()
}

#[test]
fn hmap_lookup_returns_latest_value() {
    let mut m: HMap<u32> = HMap::new();
    m.insert(b"a".to_vec(), 1);
    m.insert(b"b".to_vec(), 2);
    m.insert(b"a".to_vec(), 3);
    assert_eq!(m.lookup(b"a"), Some(&3));
    assert_eq!(m.lookup(b"b"), Some(&2));
    assert_eq!(m.size(), 2);
    assert_eq!(m.delete(b"a"), Some(3));
    assert_eq!(m.lookup(b"a"), None);
    assert!(!m.delete_entry(b"a"));
    assert!(m.delete_entry(b"b"));
    assert_eq!(m.size(), 0);
}

#[test]
fn hmap_finds_every_key_while_migrating() {
    let mut m: HMap<u32> = HMap::new();
    let mut saw_migration = false;
    for i in 0..5000u32 {
        m.insert(key(i), i);
        saw_migration |= m.is_migrating();
        if i % 97 == 0 {
            for j in (0..=i).step_by(13) {
                assert_eq!(m.lookup(&key(j)), Some(&j));
            }
        }
    }
    assert!(saw_migration);
    assert_eq!(m.size(), 5000);
    for i in (0..5000u32).step_by(2) {
        assert_eq!(m.delete_entry_and_return(&key(i)), Some(i));
    }
    for i in 0..5000u32 {
        let expect = if i % 2 == 0 { None } else { Some(&i) };
        assert_eq!(m.lookup(&key(i)), expect);
    }
    let mut keys = m.keys();
    keys.sort();
    let mut want: Vec<Vec<u8>> = (0..5000u32).filter(|i| i % 2 == 1).map(key).collect();
    want.sort();
    assert_eq!(keys, want);
}

#[test]
fn hmap_capacity_follows_doubling() {
    let mut m: HMap<u32> = HMap::new();
    assert_eq!(m.capacity(), 0);
    let mut want = 4;
    for n in 1..=5000u32 {
        m.insert(key(n), n);
        if n as usize >= 8 * want {
            want *= 2;
        }
        assert_eq!(m.capacity(), want, "after {} keys", n);
    }
    assert_eq!(m.capacity(), 1024);
}

#[test]
fn hmap_migration_finishes() {
    let mut m: HMap<u32> = HMap::new();
    for i in 0..32u32 {
        m.insert(key(i), i);
    }
    // The 32nd key reaches the load factor of four buckets; the resize
    // moves all 32 entries in the same step.
    assert!(!m.is_migrating());
    for i in 32..2048u32 {
        m.insert(key(i), i);
    }
    // 2048 keys: eight times 256 buckets, so a resize has just begun.
    assert!(m.is_migrating());
    for i in 2048..2100u32 {
        m.insert(key(i), i);
    }
    assert!(!m.is_migrating());
    m.maybe_migrate();
    m.hashmap_rehashing();
    assert_eq!(m.size(), 2100);
}

#[test]
fn search_tree_insert_search_delete() {
    let mut root: Link = None;
    for k in [5, 2, 8, 1, 9, 7, 3, 5] {
        tree_insert(&mut root, k);
    }
    assert!(tree_search(&root, 2));
    assert!(!tree_search(&root, 4));
    root = tree_delete(root, 5);
    assert!(!tree_search(&root, 5));
    for k in [1, 2, 3, 7, 8, 9] {
        assert!(tree_search(&root, k));
    }
    root = tree_delete(root, 42);
    assert!(tree_search(&root, 8));
    let leaf = Node::new(4);
    assert_eq!(leaf.key, 4);
    assert!(node_detach(leaf).is_none());
}

#[test]
fn zset_orders_and_offsets() {
    let mut z = ZSet::new();
    for (s, n) in [(5u64, "e"), (1, "a"), (3, "c"), (2, "b"), (4, "d"), (3, "bb")] {
        assert!(z.insert(s, n.as_bytes().to_vec()));
    }
    assert_eq!(z.len(), 6);
    let names: Vec<Vec<u8>> = (0..6).map(|i| z.at(i).1.to_vec()).collect();
    assert_eq!(
        names,
        vec![b"a".to_vec(), b"b".to_vec(), b"bb".to_vec(), b"c".to_vec(), b"d".to_vec(), b"e".to_vec()]
    );
    let first = z.zset_seekge(0, b"").unwrap();
    assert_eq!(first, 0);
    for k in 0..6i64 {
        assert_eq!(z.znode_offset(first, k).map(|(s, _)| s), Some(z.at(k as usize).0));
    }
    assert!(z.znode_offset(first, 6).is_none());
    assert!(z.znode_offset(first, -1).is_none());
    assert_eq!(z.zset_seekge(3, b"c"), Some(3));
    assert_eq!(z.zset_seekge(3, b"ca"), Some(4));
    assert_eq!(z.zset_seekge(9, b""), None);
    assert!(!z.insert(0, b"e".to_vec()));
    assert_eq!(z.at(0).1, b"e");
    assert_eq!(z.lookup(b"e"), Some(0));
    assert!(z.lookup_by_score(0, b"e"));
    assert!(!z.lookup_by_score(5, b"e"));
    z.delete(b"c");
    assert_eq!(z.lookup(b"c"), None);
    assert_eq!(z.len(), 5);
}

#[test]
fn zset_stays_consistent_under_many_updates() {
    let mut z = ZSet::new();
    let mut model: std::collections::BTreeMap<Vec<u8>, u64> = std::collections::BTreeMap::new();
    let mut x: u64 = 12345;
    for _ in 0..3000 {
        x = x.wrapping_mul(6364136223846793005).wrapping_add(1442695040888963407);
        let name = format!("m{}", (x >> 33) % 300).into_bytes();
        let score = (x >> 20) % 50;
        if (x >> 60) % 4 == 0 {
            if model.remove(&name).is_some() {
                z.delete(&name);
            }
        } else {
            let added = z.insert(score, name.clone());
            assert_eq!(added, model.insert(name, score).is_none());
        }
    }
    let mut want: Vec<(u64, Vec<u8>)> = model.iter().map(|(n, s)| (*s, n.clone())).collect();
    want.sort();
    let got: Vec<(u64, Vec<u8>)> = (0..z.len()).map(|i| {
        let (s, n) = z.at(i);
        (s, n.to_vec())
    }).collect();
    assert_eq!(got, want);
}

#[test]
fn heap_keeps_earliest_on_top() {
    let mut h = ExpHeap::new();
    h.heap_upsert(b"a", 50);
    h.heap_upsert(b"b", 10);
    h.heap_upsert(b"c", 30);
    h.heap_upsert(b"d", 20);
    assert_eq!(h.top().map(|(v, k)| (v, k.to_vec())), Some((10, b"b".to_vec())));
    h.heap_upsert(b"a", 5);
    assert_eq!(h.top().map(|(v, k)| (v, k.to_vec())), Some((5, b"a".to_vec())));
    assert_eq!(h.get(b"a"), Some(5));
    let slot = h.slot(b"a").unwrap();
    h.heap_delete(slot);
    assert_eq!(h.get(b"a"), None);
    assert!(h.slot(b"a").is_none());
    assert_eq!(h.top().map(|(v, _)| v), Some(10));
    h.heap_delete(99);
    assert_eq!(h.len_exec(), 3);
    assert!(h.remove_key(b"b"));
    assert!(!h.remove_key(b"b"));
    assert_eq!(h.top().map(|(v, _)| v), Some(20));
    assert_eq!(h.len_exec(), 2);
}

#[test]
fn heap_pops_in_order() {
    let mut h = ExpHeap::new();
    let mut x: u64 = 7;
    for i in 0..500u32 {
        x = x.wrapping_mul(6364136223846793005).wrapping_add(1);
        h.heap_upsert(&key(i), x >> 40);
    }
    let mut last = 0;
    while let Some((v, _)) = h.top() {
        assert!(v >= last);
        last = v;
        h.heap_delete(0);
    }
    assert!(h.is_empty());
}

#[test]
fn heap_index_arithmetic() {
    assert_eq!(heap_left(3), 7);
    assert_eq!(heap_right(3), 8);
    assert_eq!(heap_parent(7), 3);
    assert_eq!(heap_parent(8), 3);
}

#[test]
fn idle_list_orders_by_activity() {
    let mut l = DList::new();
    assert!(l.dlist_empty());
    let h1 = l.dlist_insert_before(1, 100);
    let h2 = l.dlist_insert_before(2, 200);
    let h3 = l.dlist_insert_before(3, 300);
    assert_eq!(l.len(), 3);
    assert_eq!(l.head(), Some((1, 100)));
    assert!(l.has_id(2) && !l.has_id(4));
    let h1 = l.touch(h1, 400);
    assert_eq!(l.head(), Some((2, 200)));
    assert_eq!(l.pop_idle(5199), None);
    assert_eq!(l.pop_idle(5200), Some(2));
    assert!(!l.has_handle(h2));
    assert_eq!(l.pop_idle(5200), None);
    assert!(l.has_handle(h3));
    l.dlist_detach(h3);
    assert!(!l.has_handle(h3));
    assert_eq!(l.head(), Some((1, 400)));
    assert!(l.spare_slots() > 0);
    let h4 = l.dlist_insert_before(4, 50);
    assert!(l.has_handle(h4) && l.has_handle(h1));
    // An earlier time than the tail's counts as the tail's.
    l.dlist_detach(h1);
    assert_eq!(l.head(), Some((4, 400)));
    assert_eq!(l.len(), 1);
}

#[test]
fn idle_sweep_takes_every_expired_connection() {
    let mut l = DList::new();
    l.dlist_insert_before(1, 100);
    l.dlist_insert_before(2, 200);
    let h3 = l.dlist_insert_before(3, 300);
    l.dlist_insert_before(4, 900);
    assert_eq!(l.pop_expired(5200), vec![1, 2]);
    assert_eq!(l.head(), Some((3, 300)));
    assert!(l.has_handle(h3));
    assert_eq!(l.pop_expired(5200), Vec::<u64>::new());
    assert_eq!(l.pop_expired(10_000), vec![3, 4]);
    assert!(l.dlist_empty());
    // A time earlier than the tail's is recorded as the tail's.
    l.dlist_insert_before(5, 700);
    l.dlist_insert_before(6, 600);
    assert_eq!(l.pop_expired(5700), vec![5, 6]);
}

#[test]
fn next_timer_takes_earliest() {
    let mut l = DList::new();
    let mut h = ExpHeap::new();
    assert_eq!(next_timer_ms(&l, &h, 0), -1);
    l.dlist_insert_before(9, 1000);
    assert_eq!(next_timer_ms(&l, &h, 1000), 5000);
    h.heap_upsert(b"k", 3000);
    assert_eq!(next_timer_ms(&l, &h, 1000), 2000);
    assert_eq!(next_timer_ms(&l, &h, 4000), 0);
}

#[test]
fn connection_state_transitions() {
    let mut c = ConnState::new(0);
    c.on_read(b"abc", 5);
    assert_eq!(c.incoming.data(), b"abc");
    c.outgoing.append(b"xyz");
    c.after_requests();
    assert!(!c.want_read && c.want_write);
    c.on_written(2, 6);
    assert_eq!(c.outgoing.data(), b"z");
    assert!(c.want_write);
    c.on_written(1, 7);
    assert!(c.want_read && !c.want_write);
    c.on_read(b"", 8);
    assert!(c.want_close);
}

#[test]
fn buffer_frames_replies() {
    let mut b = Buffer::with_capacity(8);
    let h = b.response_begin();
    out_int(&mut b, -2);
    b.response_end(h);
    let mut want = 9u32.to_le_bytes().to_vec();
    want.push(3);
    want.extend_from_slice(&(-2i64).to_le_bytes());
    assert_eq!(b.data(), &want[..]);
    assert_eq!(b.peek(4), Some(&want[..4]));
    assert!(b.peek(100).is_none());
    assert_eq!(read_le32(b.data()), 9);
    b.consume(4);
    b.drain_front(9);
    assert!(b.is_empty());
    let ctx = b.out_begin_arr();
    out_nil(&mut b);
    out_str(&mut b, b"hi");
    out_dbl(&mut b, 1.5f64.to_bits());
    out_err(&mut b, "e");
    b.out_end_arr(ctx, 4);
    let mut want = vec![5, 4, 0, 0, 0, 0, 2, 2, 0, 0, 0, b'h', b'i', 4];
    want.extend_from_slice(&1.5f64.to_le_bytes());
    want.extend_from_slice(&[1, 1, 0, 0, 0, b'e']);
    assert_eq!(b.data(), &want[..]);
    let mut c = Buffer::new();
    out_arr(&mut c, 2);
    assert_eq!(c.data(), &[5, 2, 0, 0, 0]);
    c.extend_from_slice(b"q");
    c.make_room(10);
    assert_eq!(c.data(), &[5, 2, 0, 0, 0, b'q']);
}

#[test]
fn large_reply_is_replaced() {
    let mut b = Buffer::new();
    b.append(b"keep");
    let h = b.response_begin();
    out_str(&mut b, &vec![b'x'; 5000]);
    b.response_end(h);
    let mut want = b"keep".to_vec();
    want.extend_from_slice(&24u32.to_le_bytes());
    want.push(1);
    want.extend_from_slice(&19u32.to_le_bytes());
    want.extend_from_slice(b"response is too big");
    assert_eq!(b.data(), &want[..]);
}

#[test]
fn tokens_and_numbers() {
    assert_eq!(
        split_tokens(b"  SET\tk \r\n v\0w "),
        vec![b"SET".to_vec(), b"k".to_vec(), b"v".to_vec(), b"w".to_vec()]
    );
    assert!(split_tokens(b" \n ").is_empty());
    assert!(is_cmd(b"zQuErY", b"ZQUERY"));
    assert!(!is_cmd(b"ZQUER", b"ZQUERY"));
    assert_eq!(parse_i64(b"-9223372036854775808"), Some(i64::MIN));
    assert_eq!(parse_i64(b"9223372036854775807"), Some(i64::MAX));
    assert_eq!(parse_i64(b"9223372036854775808"), None);
    assert_eq!(parse_i64(b"+12"), Some(12));
    assert_eq!(parse_i64(b"-"), None);
    assert_eq!(parse_i64(b"1x"), None);
    assert_eq!(parse_i64(b""), None);
    assert_eq!(parse_usize(b"+7"), Some(7));
    assert_eq!(parse_usize(b"-0"), None);
    assert_eq!(parse_usize(b"18446744073709551616"), None);
}

#[test]
fn score_keys_follow_double_order() {
    let vals = [-1e300, -2.5, -0.0, 0.0, 1e-300, 2.0, 3.5, f64::INFINITY];
    let keys: Vec<u64> = vals.iter().map(|v| score_key_of_bits(v.to_bits()).unwrap()).collect();
    for w in keys.windows(2) {
        assert!(w[0] <= w[1]);
    }
    assert_eq!(keys[2], keys[3]);
    for v in vals.iter().filter(|v| v.to_bits() != (-0.0f64).to_bits()) {
        assert_eq!(score_bits_of(score_key_of_bits(v.to_bits()).unwrap()), v.to_bits());
    }
    assert_eq!(score_key_of_bits(f64::NAN.to_bits()), None);
}
