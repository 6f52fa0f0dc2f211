//! The arena, the sides of the book, and the id index.

use tessera::arena::{Arena, OrderSlot, NIL};
use tessera::book_side::BookSide;
use tessera::order_index::OrderIndex;
use tessera::types::Side;

#[test]
fn alloc_free_roundtrip() {
    let mut a = Arena::with_capacity(3);
    assert_eq!(a.len(), 0);
    let x = a.alloc_slot().unwrap();
    let y = a.alloc_slot().unwrap();
    let z = a.alloc_slot().unwrap();
    assert_eq!(a.alloc_slot(), None); // full
    assert!(a.is_full());
    assert_eq!(a.len(), 3);
    a.free(y);
    assert_eq!(a.alloc_slot(), Some(y)); // LIFO reuse
    a.free(z);
    a.free(x);
    a.free(y);
    assert_eq!(a.len(), 0);
    assert_eq!(a.capacity(), 3);
}

#[test]
fn slot_is_one_cache_line() {
    assert_eq!(core::mem::size_of::<OrderSlot>(), 56);
}

#[test]
fn zero_capacity_is_always_full() {
    let mut a = Arena::with_capacity(0);
    assert!(a.is_full());
    assert_eq!(a.alloc_slot(), None);
}

#[test]
fn free_list_is_walked_in_order() {
    let mut a = Arena::with_capacity(4);
    assert!(a.is_empty());
    assert_eq!(a.free_list_indices(), vec![0, 1, 2, 3]);
    let x = a.alloc_slot().unwrap();
    let y = a.alloc_slot().unwrap();
    assert_eq!((x, y), (0, 1));
    assert!(!a.is_empty());
    assert_eq!(a.free_list_indices(), vec![2, 3]);
    a.free(x);
    assert_eq!(a.free_list_indices(), vec![0, 2, 3]);
    assert_eq!(a.slot(x).next, 2);
    a.free(y);
    assert_eq!(a.free_list_indices(), vec![1, 0, 2, 3]);
}

/// A fresh slot holds nothing but its free-list link.
#[test]
fn fresh_slots_are_blank() {
    let a = Arena::with_capacity(3);
    for i in 0..3 {
        let s = a.slot(i);
        assert_eq!((s.remaining, s.order_id, s.original_qty), (0, 0, 0));
        assert_eq!((s.price, s.trader, s.side, s.stp), (0, 0, 0, 0));
        assert_eq!((s.prev, s.level_idx), (NIL, NIL));
        assert_eq!(s.next, if i < 2 { i + 1 } else { NIL });
    }
}

/// Only the free-list is followed: links of live slots may be anything.
#[test]
fn live_links_do_not_matter_to_the_free_list() {
    let mut a = Arena::with_capacity(4);
    let x = a.alloc_slot().unwrap();
    a.slot_mut(x).next = 1_000_000;
    let r = a.free_list_indices();
    assert_eq!(r, vec![1, 2, 3]);
    assert_eq!(r.len() as u32 + a.len(), a.capacity());
    assert_eq!(a.alloc_slot(), Some(r[0]));
}

/// Build a side and rest one 1-lot order at each of the given levels.
fn side_with(side: Side, levels: &[u32]) -> (BookSide, Arena) {
    let mut bs = BookSide::new(side, 256);
    let mut arena = Arena::with_capacity(64);
    for &lvl in levels {
        let idx = arena.alloc_slot().unwrap();
        let s = arena.slot_mut(idx);
        s.remaining = 1;
        s.order_id = lvl as u64;
        bs.link_tail(&mut arena, lvl, idx);
    }
    (bs, arena)
}

#[test]
fn best_tracks_inserts() {
    let (bids, _) = side_with(Side::Bid, &[10, 50, 30]);
    assert_eq!(bids.best(), 50);
    let (asks, _) = side_with(Side::Ask, &[10, 50, 30]);
    assert_eq!(asks.best(), 10);
}

#[test]
fn rescan_on_empty_level() {
    let (mut bids, mut arena) = side_with(Side::Bid, &[10, 50]);
    // Unlink the only order at the best level (50): best must fall to 10.
    let head = bids.level(50).head;
    bids.unlink(&mut arena, head);
    assert_eq!(bids.best(), 10);
    // Empty the whole side: best must become NIL.
    let head = bids.level(10).head;
    bids.unlink(&mut arena, head);
    assert_eq!(bids.best(), NIL);
    assert!(!bids.bit(10));
}

/// The sneaky one: off-by-one across a u64 word boundary (levels
/// 63 <-> 64) in both scan directions.
#[test]
fn word_boundary_63_64() {
    // Bid at 64 falls back to 63 (crosses word 1 -> word 0).
    let (mut bids, mut arena) = side_with(Side::Bid, &[63, 64]);
    assert_eq!(bids.best(), 64);
    let head = bids.level(64).head;
    bids.unlink(&mut arena, head);
    assert_eq!(bids.best(), 63);

    // Ask at 63 advances to 64 (crosses word 0 -> word 1).
    let (mut asks, mut arena) = side_with(Side::Ask, &[63, 64]);
    assert_eq!(asks.best(), 63);
    let head = asks.level(63).head;
    asks.unlink(&mut arena, head);
    assert_eq!(asks.best(), 64);
}

#[test]
fn word_boundary_bit_63_mask() {
    // next_occupied_above from bit 63 must not shift by 64.
    let (asks, _) = side_with(Side::Ask, &[63, 200]);
    assert_eq!(asks.next_occupied_above(63), 200);
    // next_occupied_below from bit 0 of a word.
    let (bids, _) = side_with(Side::Bid, &[64, 3]);
    assert_eq!(bids.next_occupied_below(64), 3);
}

#[test]
fn fifo_link_order_and_middle_unlink() {
    let mut bs = BookSide::new(Side::Ask, 128);
    let mut arena = Arena::with_capacity(8);
    let mut ids = Vec::new();
    for i in 0..3u64 {
        let idx = arena.alloc_slot().unwrap();
        let s = arena.slot_mut(idx);
        s.remaining = 5;
        s.order_id = i;
        bs.link_tail(&mut arena, 7, idx);
        ids.push(idx);
    }
    assert_eq!(bs.level(7).order_count, 3);
    assert_eq!(bs.level(7).total_qty, 15);
    assert_eq!(bs.level(7).head, ids[0]);
    assert_eq!(bs.level(7).tail, ids[2]);

    // Splice out the middle order; head->tail must still walk 0 -> 2.
    bs.unlink(&mut arena, ids[1]);
    assert_eq!(bs.level(7).order_count, 2);
    assert_eq!(bs.level(7).total_qty, 10);
    assert_eq!(arena.slot(ids[0]).next, ids[2]);
    assert_eq!(arena.slot(ids[2]).prev, ids[0]);
    assert_eq!(bs.level(7).head, ids[0]);
    assert_eq!(bs.level(7).tail, ids[2]);
}

#[test]
fn boundary_levels_first_and_last() {
    let (mut asks, mut arena) = side_with(Side::Ask, &[0, 255]);
    assert_eq!(asks.best(), 0);
    let head = asks.level(0).head;
    asks.unlink(&mut arena, head);
    assert_eq!(asks.best(), 255);
    assert_eq!(asks.scan_true_best(), 255);
}

#[test]
fn worse_is_away_from_the_spread() {
    let (bids, _) = side_with(Side::Bid, &[5, 80, 200]);
    assert_eq!(bids.next_occupied_worse(200), 80);
    assert_eq!(bids.next_occupied_worse(80), 5);
    assert_eq!(bids.next_occupied_worse(5), NIL);
    assert_eq!(bids.scan_true_best(), 200);
    let (asks, _) = side_with(Side::Ask, &[5, 80, 200]);
    assert_eq!(asks.next_occupied_worse(5), 80);
    assert_eq!(asks.next_occupied_worse(80), 200);
    assert_eq!(asks.next_occupied_worse(200), NIL);
    assert_eq!(asks.scan_true_best(), 5);
    assert_eq!(asks.num_levels(), 256);
    assert_eq!(asks.side(), Side::Ask);
}

#[test]
fn a_side_without_levels_has_no_best() {
    let bs = BookSide::new(Side::Bid, 0);
    assert_eq!(bs.best(), NIL);
    assert_eq!(bs.scan_true_best(), NIL);
    let bs = BookSide::new(Side::Ask, 0);
    assert_eq!(bs.scan_true_best(), NIL);
}

#[test]
fn insert_get_remove() {
    let mut m = OrderIndex::with_capacity(16);
    m.insert(42, 7);
    m.insert(0, 1); // 0 is a perfectly valid key
    m.insert(u64::MAX, 2);
    assert_eq!(m.get(42), Some(7));
    assert_eq!(m.get(0), Some(1));
    assert_eq!(m.get(u64::MAX), Some(2));
    assert_eq!(m.get(43), None);
    assert_eq!(m.remove(42), Some(7));
    assert_eq!(m.get(42), None);
    assert_eq!(m.remove(42), None);
    assert_eq!(m.len(), 2);
}

#[test]
fn tombstones_do_not_break_probe_chains() {
    let mut m = OrderIndex::with_capacity(4); // table of 8
    // Insert colliding-ish keys, remove one in the middle of the
    // chain, and confirm the ones behind it are still reachable.
    let keys: Vec<u64> = (0..4).collect();
    for (v, &k) in keys.iter().enumerate() {
        m.insert(k, v as u32);
    }
    m.remove(keys[1]);
    for (v, &k) in keys.iter().enumerate() {
        if k == keys[1] {
            continue;
        }
        assert_eq!(m.get(k), Some(v as u32), "key {k} lost after delete");
    }
    // Tombstone gets reused.
    m.insert(keys[1], 99);
    assert_eq!(m.get(keys[1]), Some(99));
}

#[test]
fn churn_at_capacity() {
    // max_live = 4 -> table of 8. Insert/remove far more times than
    // the table size to force tombstone reuse on every probe path.
    let mut m = OrderIndex::with_capacity(4);
    for round in 0..1000u64 {
        for k in 0..4u64 {
            m.insert(round * 4 + k, k as u32);
        }
        for k in 0..4u64 {
            assert_eq!(m.get(round * 4 + k), Some(k as u32));
            assert_eq!(m.remove(round * 4 + k), Some(k as u32));
        }
        assert!(m.is_empty());
    }
}

#[test]
fn contains_is_get() {
    let mut m = OrderIndex::with_capacity(2);
    assert!(!m.contains(9));
    m.insert(9, 0);
    assert!(m.contains(9));
    m.remove(9);
    assert!(!m.contains(9));
}
