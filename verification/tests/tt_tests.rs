use my_engine::rules::Move;
use my_engine::tt::{Flag, TTEntry, TranspositionTable, SLOTS_PER_MB};

fn entry(depth: i32, score: i32, age: i32) -> TTEntry {
    TTEntry { depth, score, flag: Flag::Exact, best_move: None, age }
}

fn same(a: &TTEntry, b: &TTEntry) -> bool {
    a.depth == b.depth && a.score == b.score && a.flag == b.flag && a.best_move == b.best_move
        && a.age == b.age
}

#[test]
fn new_table_is_empty() {
    let table = TranspositionTable::new(1);
    assert_eq!(table.capacity(), SLOTS_PER_MB);
    assert_eq!(table.generation, 0);
    assert!(table.probe(0).is_none());
    assert!(table.probe(u64::MAX).is_none());
}

#[test]
fn store_then_probe_finds_the_entry() {
    let mut table = TranspositionTable::new(1);
    let e = TTEntry {
        depth: 4,
        score: -25,
        flag: Flag::LowerBound,
        best_move: Some(Move { from: 12, to: 28, promo: 0 }),
        age: 0,
    };
    table.store(0xDEAD_BEEF, e);
    let found = table.probe(0xDEAD_BEEF).unwrap();
    assert!(same(&found, &e));
    assert!(table.probe(0xDEAD_BEEE).is_none());
}

#[test]
fn deeper_entry_of_the_generation_stays() {
    let mut table = TranspositionTable::new(1);
    table.store(7, entry(5, 10, 0));
    table.store(7, entry(3, 20, 0));
    assert!(same(&table.probe(7).unwrap(), &entry(5, 10, 0)));
}

#[test]
fn equal_depth_favours_the_incoming_entry() {
    let mut table = TranspositionTable::new(1);
    table.store(7, entry(5, 10, 0));
    table.store(7, entry(5, 20, 0));
    assert!(same(&table.probe(7).unwrap(), &entry(5, 20, 0)));
}

#[test]
fn deeper_incoming_entry_replaces() {
    let mut table = TranspositionTable::new(1);
    table.store(7, entry(2, 10, 0));
    table.store(7, entry(6, 20, 0));
    assert!(same(&table.probe(7).unwrap(), &entry(6, 20, 0)));
}

#[test]
fn fresh_entry_replaces_a_stale_deeper_one() {
    let mut table = TranspositionTable::new(1);
    table.store(7, entry(9, 10, 0));
    table.new_search();
    assert_eq!(table.generation, 1);
    assert!(same(&table.probe(7).unwrap(), &entry(9, 10, 0)));
    table.store(7, entry(1, 20, 1));
    assert!(same(&table.probe(7).unwrap(), &entry(1, 20, 1)));
}

#[test]
fn stale_incoming_entry_does_not_replace_a_deeper_one() {
    let mut table = TranspositionTable::new(1);
    table.new_search();
    table.store(7, entry(9, 10, 1));
    table.store(7, entry(3, 20, 0));
    assert!(same(&table.probe(7).unwrap(), &entry(9, 10, 1)));
    table.store(7, entry(9, 30, 0));
    assert!(same(&table.probe(7).unwrap(), &entry(9, 30, 0)));
}

#[test]
fn keys_of_one_slot_follow_the_policy() {
    let mut table = TranspositionTable::new(1);
    let other = 7 + SLOTS_PER_MB as u64;
    table.store(7, entry(5, 10, 0));
    table.store(other, entry(3, 20, 0));
    assert!(same(&table.probe(7).unwrap(), &entry(5, 10, 0)));
    assert!(table.probe(other).is_none());
    table.store(other, entry(5, 30, 0));
    assert!(table.probe(7).is_none());
    assert!(same(&table.probe(other).unwrap(), &entry(5, 30, 0)));
}

#[test]
fn probe_is_never_shallower_than_the_shallowest_arrival() {
    let mut table = TranspositionTable::new(1);
    let depths = [4, 2, 7, 3, 7, 1];
    let mut least = i32::MAX;
    for (i, d) in depths.iter().enumerate() {
        table.store(99, entry(*d, i as i32, 0));
        table.store(99 + 3 * SLOTS_PER_MB as u64, entry(1, 0, 0));
        least = least.min(*d);
        if let Some(found) = table.probe(99) {
            assert!(found.depth >= least);
        }
    }
    assert_eq!(table.probe(99).unwrap().depth, 7);
}

#[test]
fn clear_empties_and_begins_a_generation() {
    let mut table = TranspositionTable::new(1);
    table.store(7, entry(5, 10, 0));
    table.store(8, entry(5, 10, 0));
    table.clear();
    assert_eq!(table.generation, 1);
    assert_eq!(table.capacity(), SLOTS_PER_MB);
    assert!(table.probe(7).is_none());
    assert!(table.probe(8).is_none());
}

#[test]
fn new_search_keeps_the_entries() {
    let mut table = TranspositionTable::new(1);
    table.store(7, entry(5, 10, 0));
    table.new_search();
    table.new_search();
    assert_eq!(table.generation, 2);
    assert!(same(&table.probe(7).unwrap(), &entry(5, 10, 0)));
}

#[test]
fn table_without_slots_holds_nothing() {
    let mut table = TranspositionTable::new(0);
    assert_eq!(table.capacity(), 0);
    table.store(7, entry(5, 10, 0));
    assert!(table.probe(7).is_none());
    table.clear();
    assert_eq!(table.generation, 1);
}

#[test]
fn probe_finds_the_deepest_arrival_of_the_generation() {
    let mut table = TranspositionTable::new(1);
    table.store(99, entry(8, -1, 0));
    table.new_search();
    let depths = [4, 2, 7, 3, 7, 1];
    let mut deepest = i32::MIN;
    for (i, d) in depths.iter().enumerate() {
        table.store(99, entry(*d, i as i32, 1));
        deepest = deepest.max(*d);
        let found = table.probe(99).unwrap();
        assert_eq!(found.depth, deepest);
        assert_eq!(found.age, 1);
    }
    assert!(same(&table.probe(99).unwrap(), &entry(7, 4, 1)));
}
