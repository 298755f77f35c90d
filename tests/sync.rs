use crdt_doc::block::{Block, Payload};
use crdt_doc::codec::{decode, encode, FORMAT_VERSION};
use crdt_doc::state_vector::StateVector;
use crdt_doc::store::{Store, SyncError, Update};

fn text(s: &str) -> Payload {
    Payload::Text(s.to_string())
}

fn lookup<'a>(entries: &'a [(String, Payload)], key: &str) -> Option<&'a Payload> {
    entries.iter().find(|e| e.0 == key).map(|e| &e.1)
}

fn sorted(mut entries: Vec<(String, Payload)>) -> Vec<(String, Payload)> {
    entries.sort_by(|a, b| a.0.cmp(&b.0));
    entries
}

fn one_block(origin: u64, clock: u64, key: &str, payload: Payload) -> Update {
    Update { blocks: vec![Block::new(origin, clock, key.to_string(), payload)], sv: StateVector::new() }
}

#[test]
fn state_vector_advance_and_get() {
    let mut sv = StateVector::new();
    assert_eq!(sv.get(7), 0);
    sv.advance(7);
    sv.advance(3);
    sv.advance(7);
    assert_eq!(sv.get(7), 2);
    assert_eq!(sv.get(3), 1);
    assert_eq!(sv.get(5), 0);
    assert_eq!(sv.entries, vec![(3, 1), (7, 2)]);
}

#[test]
fn local_writes_advance_own_clock() {
    let mut a = Store::new(1);
    a.set("name".to_string(), text("Alice"));
    a.set("age".to_string(), Payload::Int(30));
    assert_eq!(a.current_state_vector().entries, vec![(1, 2)]);
    let p = a.project();
    assert_eq!(p.len(), 2);
    assert_eq!(lookup(&p, "name"), Some(&text("Alice")));
    assert_eq!(lookup(&p, "age"), Some(&Payload::Int(30)));
}

#[test]
fn delete_hides_key() {
    let mut a = Store::new(1);
    a.set("k".to_string(), Payload::Bool(true));
    a.delete("k".to_string());
    assert!(a.project().is_empty());
    assert_eq!(a.blocks.len(), 2);
}

#[test]
fn causal_gap_is_refused_and_store_unchanged() {
    let mut a = Store::new(1);
    let r = a.integrate(&one_block(5, 2, "x", Payload::Int(1)));
    assert_eq!(r, Err(SyncError::CausalGap));
    assert!(a.blocks.is_empty());
    assert_eq!(a.current_state_vector().get(5), 0);
}

#[test]
fn gap_later_in_update_applies_nothing() {
    let mut a = Store::new(1);
    let u = Update {
        blocks: vec![
            Block::new(5, 0, "x".to_string(), Payload::Int(1)),
            Block::new(5, 2, "y".to_string(), Payload::Int(2)),
        ],
        sv: StateVector::new(),
    };
    assert_eq!(a.integrate(&u), Err(SyncError::CausalGap));
    assert!(a.blocks.is_empty());
    assert_eq!(a.current_state_vector().get(5), 0);
}

#[test]
fn integrate_twice_applies_once() {
    let mut b = Store::new(2);
    b.set("x".to_string(), Payload::Int(1));
    b.set("y".to_string(), Payload::Int(2));
    let u = b.diff(&StateVector::new());
    let mut a = Store::new(1);
    assert_eq!(a.integrate(&u), Ok(2));
    let once = sorted(a.project());
    assert_eq!(a.integrate(&u), Ok(0));
    assert_eq!(sorted(a.project()), once);
    assert_eq!(a.blocks.len(), 2);
    assert_eq!(a.current_state_vector().entries, vec![(2, 2)]);
}

#[test]
fn independent_updates_commute() {
    let mut b = Store::new(2);
    b.set("x".to_string(), Payload::Int(1));
    b.set("z".to_string(), text("b"));
    let mut c = Store::new(3);
    c.set("x".to_string(), Payload::Int(9));
    c.set("y".to_string(), Payload::Bool(false));
    let ub = b.diff(&StateVector::new());
    let uc = c.diff(&StateVector::new());
    let mut s1 = Store::new(10);
    assert_eq!(s1.integrate(&ub), Ok(2));
    assert_eq!(s1.integrate(&uc), Ok(2));
    let mut s2 = Store::new(11);
    assert_eq!(s2.integrate(&uc), Ok(2));
    assert_eq!(s2.integrate(&ub), Ok(2));
    let p1 = sorted(s1.project());
    assert_eq!(p1, sorted(s2.project()));
    assert_eq!(lookup(&p1, "x"), Some(&Payload::Int(9)));
}

#[test]
fn equal_clocks_greater_replica_wins_either_order() {
    let lo = one_block(4, 0, "k", text("low"));
    let hi = one_block(9, 0, "k", text("high"));
    let mut s1 = Store::new(1);
    s1.integrate(&lo).unwrap();
    s1.integrate(&hi).unwrap();
    let mut s2 = Store::new(2);
    s2.integrate(&hi).unwrap();
    s2.integrate(&lo).unwrap();
    assert_eq!(lookup(&s1.project(), "k"), Some(&text("high")));
    assert_eq!(lookup(&s2.project(), "k"), Some(&text("high")));
}

#[test]
fn greater_clock_wins_over_greater_replica() {
    let mut s = Store::new(1);
    s.integrate(&one_block(9, 0, "k", Payload::Int(1))).unwrap();
    s.set("k".to_string(), Payload::Int(0));
    s.set("k".to_string(), Payload::Int(2));
    assert_eq!(lookup(&s.project(), "k"), Some(&Payload::Int(2)));
}

#[test]
fn convergence_after_exchange() {
    let mut a = Store::new(1);
    a.set("a".to_string(), Payload::Int(1));
    a.set("shared".to_string(), text("from a"));
    let mut b = Store::new(2);
    b.set("b".to_string(), Payload::Int(2));
    b.set("shared".to_string(), text("from b"));
    b.delete("b".to_string());
    let to_a = b.diff(&a.current_state_vector());
    let to_b = a.diff(&b.current_state_vector());
    a.integrate(&to_a).unwrap();
    b.integrate(&to_b).unwrap();
    let pa = sorted(a.project());
    assert_eq!(pa, sorted(b.project()));
    assert_eq!(pa.len(), 2);
    assert_eq!(lookup(&pa, "shared"), Some(&text("from b")));
    assert_eq!(a.current_state_vector().entries, b.current_state_vector().entries);
}

#[test]
fn scenario_two_replicas() {
    let mut a = Store::new(1);
    a.set("name".to_string(), text("Alice"));
    a.set("age".to_string(), Payload::Int(30));
    let mut b = Store::new(2);
    b.integrate(&a.diff(&StateVector::new())).unwrap();
    assert_eq!(b.current_state_vector().entries, vec![(1, 2)]);
    b.set("age".to_string(), Payload::Int(31));
    let d = b.diff(&a.current_state_vector());
    assert_eq!(d.blocks.len(), 1);
    assert_eq!(d.blocks[0].origin, 2);
    assert_eq!(d.blocks[0].clock, 0);
    assert_eq!(d.blocks[0].key, "age");
    assert_eq!(a.integrate(&d), Ok(1));
    let p = a.project();
    assert_eq!(p.len(), 2);
    assert_eq!(lookup(&p, "name"), Some(&text("Alice")));
    // Blocks are ordered by clock first: origin 1's write at clock 1 beats
    // origin 2's write at clock 0.
    assert_eq!(lookup(&p, "age"), Some(&Payload::Int(30)));
    assert_eq!(sorted(p), sorted(b.project()));
}

#[test]
fn diff_holds_only_missing_blocks_in_order() {
    let mut a = Store::new(3);
    a.set("x".to_string(), Payload::Int(1));
    a.set("x".to_string(), Payload::Int(2));
    a.set("x".to_string(), Payload::Int(3));
    let mut their = StateVector::new();
    their.advance(3);
    let d = a.diff(&their);
    assert_eq!(d.blocks.len(), 2);
    assert_eq!(d.blocks[0].clock, 1);
    assert_eq!(d.blocks[1].clock, 2);
    assert_eq!(d.sv.entries, vec![(3, 3)]);
}

#[test]
fn encode_exact_bytes() {
    let mut sv = StateVector::new();
    sv.advance(1);
    let blocks = vec![Block::new(1, 0, "k".to_string(), Payload::Int(-1))];
    let bytes = encode(&blocks, &sv);
    assert_eq!(bytes, vec![FORMAT_VERSION, 1, 1, 1, 1, 1, 0, 1, b'k', 2, 1]);
}

#[test]
fn varint_multi_byte() {
    let mut sv = StateVector::new();
    for _ in 0..300 {
        sv.advance(200);
    }
    let bytes = encode(&Vec::new(), &sv);
    assert_eq!(bytes, vec![FORMAT_VERSION, 1, 0xC8, 0x01, 0xAC, 0x02, 0]);
    let u = decode(&bytes).unwrap();
    assert_eq!(u.sv.entries, vec![(200, 300)]);
}

#[test]
fn round_trip_all_payloads() {
    let mut sv = StateVector::new();
    sv.advance(2);
    sv.advance(2);
    sv.advance(700);
    let blocks = vec![
        Block::new(2, 0, "flag".to_string(), Payload::Bool(true)),
        Block::new(2, 1, "größe".to_string(), Payload::Int(i64::MIN)),
        Block::new(700, 0, "t".to_string(), text("héllo ✓")),
        Block::new(700, 1, "t".to_string(), Payload::Tombstone),
        Block::new(700, 2, "n".to_string(), Payload::Int(i64::MAX)),
    ];
    let bytes = encode(&blocks, &sv);
    let u = decode(&bytes).unwrap();
    assert_eq!(u.sv.entries, sv.entries);
    assert_eq!(u.blocks.len(), blocks.len());
    for (x, y) in u.blocks.iter().zip(blocks.iter()) {
        assert!(x.equals(y));
    }
}

#[test]
fn decode_rejects_bad_version() {
    let bytes = encode(&Vec::new(), &StateVector::new());
    let mut bad = bytes.clone();
    bad[0] = FORMAT_VERSION + 1;
    assert_eq!(decode(&bad).unwrap_err(), SyncError::MalformedUpdate);
    assert_eq!(decode(&Vec::new()).unwrap_err(), SyncError::MalformedUpdate);
}

#[test]
fn decode_rejects_trailing_bytes() {
    let mut bytes = encode(&Vec::new(), &StateVector::new());
    bytes.push(0);
    assert_eq!(decode(&bytes).unwrap_err(), SyncError::MalformedUpdate);
}

#[test]
fn decode_rejects_truncated_input() {
    let blocks = vec![Block::new(1, 0, "key".to_string(), text("value"))];
    let bytes = encode(&blocks, &StateVector::new());
    for n in 0..bytes.len() {
        assert_eq!(decode(&bytes[..n].to_vec()).unwrap_err(), SyncError::MalformedUpdate);
    }
}

#[test]
fn decode_rejects_clock_gap_and_duplicate() {
    let blocks = vec![
        Block::new(1, 0, "a".to_string(), Payload::Int(1)),
        Block::new(1, 1, "a".to_string(), Payload::Int(2)),
    ];
    let good = encode(&blocks, &StateVector::new());
    assert_eq!(good, vec![FORMAT_VERSION, 0, 2, 1, 0, 1, b'a', 2, 2, 1, 1, 1, b'a', 2, 4]);
    assert!(decode(&good).is_ok());
    let mut gap = good.clone();
    gap[10] = 2;
    assert_eq!(decode(&gap).unwrap_err(), SyncError::MalformedUpdate);
    let mut dup = good.clone();
    dup[10] = 0;
    assert_eq!(decode(&dup).unwrap_err(), SyncError::MalformedUpdate);
}

#[test]
fn snapshot_of_mixed_history_loads() {
    let mut a = Store::new(1);
    a.integrate(&one_block(2, 0, "x", Payload::Int(5))).unwrap();
    a.set("name".to_string(), text("Alice"));
    a.set("age".to_string(), Payload::Int(30));
    assert_eq!(a.blocks[0].origin, 2);
    let bytes = a.snapshot();
    let u = decode(&bytes).unwrap();
    let mut d = Store::new(7);
    assert_eq!(d.integrate(&u), Ok(3));
    assert_eq!(d.current_state_vector().entries, vec![(1, 2), (2, 1)]);
    assert_eq!(sorted(d.project()), sorted(a.project()));
}

#[test]
fn last_clock_value_is_a_causal_gap() {
    let mut a = Store::new(1);
    let r = a.integrate(&one_block(3, u64::MAX, "x", Payload::Int(1)));
    assert_eq!(r, Err(SyncError::CausalGap));
    assert!(a.blocks.is_empty());
}

#[test]
fn decode_rejects_invalid_utf8_and_unknown_tag() {
    let mut bytes = encode(&vec![Block::new(1, 0, "k".to_string(), Payload::Tombstone)], &StateVector::new());
    let n = bytes.len();
    bytes[n - 1] = 9;
    assert_eq!(decode(&bytes).unwrap_err(), SyncError::MalformedUpdate);
    let mut bytes = encode(&vec![Block::new(1, 0, "k".to_string(), Payload::Tombstone)], &StateVector::new());
    let n = bytes.len();
    bytes[n - 2] = 0xFF;
    assert_eq!(decode(&bytes).unwrap_err(), SyncError::MalformedUpdate);
}

#[test]
fn snapshot_loads_into_fresh_store() {
    let mut a = Store::new(1);
    a.set("name".to_string(), text("Alice"));
    a.delete("name".to_string());
    a.set("city".to_string(), text("Oslo"));
    let snap = a.diff(&StateVector::new());
    let bytes = encode(&snap.blocks, &snap.sv);
    let u = decode(&bytes).unwrap();
    let mut fresh = Store::new(5);
    assert_eq!(fresh.integrate(&u), Ok(3));
    assert_eq!(sorted(fresh.project()), vec![("city".to_string(), text("Oslo"))]);
}

#[test]
fn nested_payloads_round_trip_and_project() {
    let inner = Payload::Record(vec![
        ("n".to_string(), Payload::Int(7)),
        ("tags".to_string(), Payload::List(vec![text("a"), text("b")])),
    ]);
    let value = Payload::List(vec![Payload::Bool(false), inner, Payload::List(Vec::new())]);
    let mut a = Store::new(1);
    a.set("doc".to_string(), value.copy());
    let bytes = a.snapshot();
    let u = decode(&bytes).unwrap();
    assert!(u.blocks[0].payload.equals(&value));
    let mut d = Store::new(2);
    assert_eq!(d.integrate(&u), Ok(1));
    assert_eq!(d.project(), vec![("doc".to_string(), value)]);
}

#[test]
fn nested_payload_exact_bytes() {
    let blocks = vec![Block::new(
        1,
        0,
        "k".to_string(),
        Payload::Record(vec![("x".to_string(), Payload::List(vec![Payload::Int(1)]))]),
    )];
    let bytes = encode(&blocks, &StateVector::new());
    assert_eq!(bytes, vec![FORMAT_VERSION, 0, 1, 1, 0, 1, b'k', 5, 1, 1, b'x', 4, 1, 2, 2]);
    assert_eq!(decode(&bytes).unwrap().blocks.len(), 1);
}

#[test]
fn nesting_deeper_than_limit_is_refused() {
    let mut p = Payload::Int(0);
    for _ in 0..65 {
        p = Payload::List(vec![p]);
    }
    let blocks = vec![Block::new(1, 0, "k".to_string(), p)];
    let bytes = encode(&blocks, &StateVector::new());
    assert_eq!(decode(&bytes).unwrap_err(), SyncError::MalformedUpdate);
}
