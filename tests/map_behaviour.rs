use fn_map::{FnMap, IntoIter, Iter};

#[derive(Debug, Clone, PartialEq)]
struct Rec {
    id: usize,
    name: String,
}

fn rec(id: usize, name: &str) -> Rec {
    Rec { id, name: name.to_string() }
}

fn key(r: &Rec) -> usize {
    r.id
}

fn collect_entries(mut it: Iter<'_, Rec>) -> Vec<(usize, Rec)> {
    let mut out = Vec::new();
    while let Some(e) = it.next() {
        out.push((e.0, e.1.clone()));
    }
    out
}

fn drain(mut it: IntoIter<Rec>) -> Vec<Rec> {
    let mut out = Vec::new();
    while let Some(v) = it.next() {
        out.push(v);
    }
    out
}

#[test]
fn round_trip_finds_inserted_value() {
    let mut m = FnMap::new(key);
    for (id, name) in [(4usize, "four"), (9, "nine"), (0, "zero"), (17, "seventeen")] {
        let v = rec(id, name);
        m.insert(v.clone());
        assert_eq!(m.get(id), Some(&v));
    }
    assert_eq!(m.get(4), Some(&rec(4, "four")));
    assert_eq!(m.get(9), Some(&rec(9, "nine")));
    assert_eq!(m.get(0), Some(&rec(0, "zero")));
    assert_eq!(m.get(17), Some(&rec(17, "seventeen")));
}

#[test]
fn same_key_updates_in_place() {
    let mut m = FnMap::new(key);
    m.insert(rec(5, "first"));
    m.insert(rec(5, "second"));
    assert_eq!(m.get(5), Some(&rec(5, "second")));
    let entries = collect_entries(m.iter());
    assert_eq!(entries, vec![(5, rec(5, "second"))]);
}

#[test]
fn key_change_through_guard_relocates() {
    let mut m = FnMap::new(key);
    m.insert(rec(3, "three"));
    m.insert(rec(8, "eight"));
    match m.get_mut(3) {
        Some(mut g) => {
            assert_eq!(g.value(), &rec(3, "three"));
            let mut changed = g.value().clone();
            changed.id = 12;
            changed.name = "twelve".to_string();
            g.replacement = Some(changed);
            assert_eq!(g.value(), &rec(12, "twelve"));
            g.release();
        }
        None => panic!("key 3 should be present"),
    }
    assert_eq!(m.get(3), None);
    assert_eq!(m.get(12), Some(&rec(12, "twelve")));
    assert_eq!(m.get(8), Some(&rec(8, "eight")));
    assert_eq!(collect_entries(m.iter()).len(), 2);
}

#[test]
fn unchanged_key_through_guard_stays() {
    let mut m = FnMap::new(key);
    m.insert(rec(6, "six"));
    let cap = m.capacity();
    if let Some(mut g) = m.get_mut(6) {
        g.replacement = Some(rec(6, "SIX"));
        g.release();
    }
    assert_eq!(m.get(6), Some(&rec(6, "SIX")));
    assert_eq!(collect_entries(m.iter()).len(), 1);
    assert_eq!(m.capacity(), cap);
}

#[test]
fn untouched_guard_release_changes_nothing() {
    let mut m = FnMap::new(key);
    for k in [1usize, 4, 6] {
        m.insert(rec(k, "v"));
    }
    let cap = m.capacity();
    let before = collect_entries(m.iter());
    if let Some(g) = m.get_mut(4) {
        g.release();
    }
    assert_eq!(collect_entries(m.iter()), before);
    assert_eq!(m.capacity(), cap);
}

#[test]
fn dropped_guard_keeps_entry() {
    let mut m = FnMap::new(key);
    m.insert(rec(2, "two"));
    {
        let mut g = m.get_mut(2).unwrap();
        g.replacement = Some(rec(9, "nine"));
    }
    assert_eq!(m.get(2), Some(&rec(2, "two")));
    assert_eq!(m.get(9), None);
}

#[test]
fn relocation_grows_when_new_key_collides() {
    let mut m = FnMap::new(key);
    m.insert(rec(0, "zero"));
    m.insert(rec(1, "one"));
    assert_eq!(m.capacity(), 2);
    if let Some(mut g) = m.get_mut(1) {
        g.replacement = Some(rec(2, "two"));
        g.release();
    }
    assert_eq!(m.get(1), None);
    assert_eq!(m.get(2), Some(&rec(2, "two")));
    assert_eq!(m.get(0), Some(&rec(0, "zero")));
    assert_eq!(m.capacity(), 4);
}

#[test]
fn key_for_uses_key_function() {
    let m = FnMap::new(key);
    assert_eq!(m.key_for(&rec(31, "x")), 31);
}

#[test]
fn growth_loses_nothing() {
    let keys: Vec<usize> = vec![0, 1024, 2048, 4096, 1, 3, 7, 11, 8192, 512, 256, 5, 6, 1023];
    let mut m = FnMap::new(key);
    for &k in &keys {
        m.insert(rec(k, &format!("v{}", k)));
    }
    for &k in &keys {
        assert_eq!(m.get(k), Some(&rec(k, &format!("v{}", k))));
    }
    assert_eq!(collect_entries(m.iter()).len(), keys.len());
    assert_eq!(drain(m.into_iter()).len(), keys.len());
}

#[test]
fn rehash_collisions_grow_again() {
    // 0 and 4 share a slot in a table of four; 0 and 8 in one of eight.
    let mut m = FnMap::new(key);
    m.insert(rec(0, "a"));
    m.insert(rec(4, "b"));
    m.insert(rec(8, "c"));
    m.insert(rec(1, "d"));
    for (k, n) in [(0usize, "a"), (4, "b"), (8, "c"), (1, "d")] {
        assert_eq!(m.get(k), Some(&rec(k, n)));
    }
    assert_eq!(m.capacity(), 16);
}

#[test]
fn lookup_rejects_other_occupant() {
    let mut m = FnMap::new(key);
    m.insert(rec(3, "three"));
    // A single slot: every id lands on the slot that holds key 3.
    assert_eq!(m.capacity(), 1);
    assert_eq!(m.get(7), None);
    assert!(m.get_mut(7).is_none());
    m.insert(rec(1, "one"));
    let cap = m.capacity();
    assert_eq!(cap, 4);
    assert_eq!(m.get(3 + cap), None);
    assert_eq!(m.get(1 + cap), None);
    assert_eq!(m.get(3), Some(&rec(3, "three")));
}

#[test]
fn draining_yields_each_value_once() {
    let mut m = FnMap::new(key);
    for k in [10usize, 2, 33, 7] {
        m.insert(rec(k, "x"));
    }
    m.insert(rec(2, "y"));
    let mut ids: Vec<usize> = drain(m.into_iter()).iter().map(|r| r.id).collect();
    ids.sort();
    assert_eq!(ids, vec![2, 7, 10, 33]);
}

#[test]
fn draining_runs_in_slot_order() {
    let mut m = FnMap::new(key);
    for k in [5usize, 1, 6, 2] {
        m.insert(rec(k, "x"));
    }
    let cap = m.capacity();
    let ids: Vec<usize> = drain(m.into_iter()).iter().map(|r| r.id).collect();
    let mut expected = vec![5usize, 1, 6, 2];
    expected.sort_by_key(|k| k % cap);
    assert_eq!(ids, expected);
}

#[test]
fn empty_map_finds_nothing() {
    let mut m: FnMap<Rec, fn(&Rec) -> usize> = FnMap::new(key);
    assert_eq!(m.capacity(), 0);
    assert_eq!(m.get(0), None);
    assert_eq!(m.get(usize::MAX), None);
    assert!(m.get_mut(0).is_none());
    assert!(m.get_mut(42).is_none());
    assert!(collect_entries(m.iter()).is_empty());
    assert!(drain(m.into_iter()).is_empty());
}

#[test]
fn example_three_seven_eleven() {
    let orders = [[3usize, 7, 11], [11, 7, 3], [7, 3, 11], [7, 11, 3]];
    for order in orders {
        let mut m = FnMap::new(key);
        for k in order {
            m.insert(rec(k, "v"));
        }
        assert_eq!(m.capacity(), 16);
        assert_eq!(m.get(7), Some(&rec(7, "v")));
        assert_eq!(m.get(3), Some(&rec(3, "v")));
        assert_eq!(m.get(11), Some(&rec(11, "v")));
    }
}

#[test]
fn iteration_is_restartable_and_ordered() {
    let mut m = FnMap::new(key);
    for k in [9usize, 4, 2] {
        m.insert(rec(k, "v"));
    }
    let first = collect_entries(m.iter());
    let second = collect_entries(m.iter());
    assert_eq!(first, second);
    let cap = m.capacity();
    let slots: Vec<usize> = first.iter().map(|e| e.0 % cap).collect();
    let mut sorted = slots.clone();
    sorted.sort();
    assert_eq!(slots, sorted);
    for (k, v) in &first {
        assert_eq!(*k, v.id);
    }
}

#[test]
fn size_hints_bound_what_is_left() {
    let mut m = FnMap::new(key);
    m.insert(rec(1, "a"));
    m.insert(rec(2, "b"));
    let cap = m.capacity();
    let mut it = m.iter();
    assert_eq!(it.size_hint(), (0, Some(cap)));
    let first = it.next().unwrap();
    let (lo, hi) = it.size_hint();
    assert_eq!(lo, 0);
    assert_eq!(hi, Some(cap - 1 - first.0 % cap));
    let mut into = m.into_iter();
    assert_eq!(into.size_hint(), (0, Some(cap)));
    assert!(into.next().is_some());
    assert!(into.next().is_some());
    assert!(into.next().is_none());
    assert_eq!(into.size_hint(), (0, Some(0)));
}

#[test]
fn closure_key_function() {
    let mut m = FnMap::new(|p: &(usize, u8)| p.0 * 2);
    m.insert((5, 1));
    m.insert((3, 2));
    assert_eq!(m.get(10), Some(&(5, 1)));
    assert_eq!(m.get(6), Some(&(3, 2)));
    assert_eq!(m.get(5), None);
}
