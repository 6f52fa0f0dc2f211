//! OrderId -> arena index, in O(1), with no `std::HashMap`.
//!
//! An open-addressed, linear-probed flat map: power-of-two sized,
//! pre-allocated at startup, never grows, never hashes with SipHash, and
//! never allocates after construction. Sized at 2x the arena capacity
//! (load factor <= 0.5) so probe chains stay short; deletes leave
//! tombstones that inserts reuse.
//!
//! Chosen over a direct-mapped `Vec` because adversarial ids (colliding,
//! sparse, reused) must behave exactly as they do in the reference oracle.

use vstd::arithmetic::power2::is_pow2;
use vstd::prelude::*;

verus! {

const CTRL_EMPTY: u8 = 0;

const CTRL_FULL: u8 = 1;

const CTRL_TOMBSTONE: u8 = 2;

/// splitmix64, as a mathematical function.
spec fn mixed(x: u64) -> u64 {
    let a = x.wrapping_add(0x9e37_79b9_7f4a_7c15);
    let b = (a ^ (a >> 30)).wrapping_mul(0xbf58_476d_1ce4_e5b9);
    let c = (b ^ (b >> 27)).wrapping_mul(0x94d0_49bb_1331_11eb);
    c ^ (c >> 31)
}

/// splitmix64: a strong, deterministic 64-bit mixer. No per-process seed:
/// a book must hash the same in every process.
fn mix(x: u64) -> (r: u64)
    ensures
        r == mixed(x),
{
    let a = x.wrapping_add(0x9e37_79b9_7f4a_7c15);
    let b = (a ^ (a >> 30)).wrapping_mul(0xbf58_476d_1ce4_e5b9);
    let c = (b ^ (b >> 27)).wrapping_mul(0x94d0_49bb_1331_11eb);
    c ^ (c >> 31)
}

/// The position `d` steps behind `h` on a ring of `n` positions.
spec fn ring_at(h: int, d: int, n: int) -> int {
    if h + d < n {
        h + d
    } else {
        h + d - n
    }
}

/// How many steps lead from `h` to `i` on a ring of `n` positions.
spec fn ring_dist(h: int, i: int, n: int) -> int {
    if i >= h {
        i - h
    } else {
        i + n - h
    }
}

/// How many of the first `n` cells are occupied.
spec fn full_count(ctrl: Seq<u8>, n: nat) -> nat
    decreases n,
{
    if n == 0 {
        0
    } else {
        full_count(ctrl, (n - 1) as nat) + if ctrl[n - 1] == CTRL_FULL {
            1nat
        } else {
            0
        }
    }
}

proof fn lemma_full_count_bound(ctrl: Seq<u8>, n: nat)
    ensures
        full_count(ctrl, n) <= n,
        (forall|i: int| 0 <= i < n ==> ctrl[i] == CTRL_FULL) <==> full_count(ctrl, n) == n,
    decreases n,
{
    if n > 0 {
        lemma_full_count_bound(ctrl, (n - 1) as nat);
    }
}

proof fn lemma_full_count_update(ctrl: Seq<u8>, n: nat, i: int, v: u8)
    requires
        n <= ctrl.len(),
        0 <= i < ctrl.len(),
    ensures
        full_count(ctrl.update(i, v), n) == full_count(ctrl, n) + if i < n {
            (if v == CTRL_FULL {
                1int
            } else {
                0
            }) - (if ctrl[i] == CTRL_FULL {
                1int
            } else {
                0
            })
        } else {
            0
        },
    decreases n,
{
    if n > 0 {
        lemma_full_count_update(ctrl, (n - 1) as nat, i, v);
    }
}

/// The flat map from order id to arena slot.
pub struct OrderIndex {
    keys: Vec<u64>,
    vals: Vec<u32>,
    ctrl: Vec<u8>,
    mask: usize,
    len: u32,
}

impl View for OrderIndex {
    type V = Map<u64, u32>;

    closed spec fn view(&self) -> Map<u64, u32> {
        Map::new(
            |k: u64| exists|i: int| self.holds(i, k),
            |k: u64| self.vals@[choose|i: int| self.holds(i, k)],
        )
    }
}

/// Eight is a power of two.
proof fn lemma_pow2_eight()
    ensures
        is_pow2(8),
{
    reveal_with_fuel(is_pow2, 4);
}

/// Twice a power of two is one.
proof fn lemma_pow2_double(n: int)
    requires
        is_pow2(n),
        n > 0,
    ensures
        is_pow2(2 * n),
{
    reveal_with_fuel(is_pow2, 2);
    assert((2 * n) / 2 == n);
}

impl OrderIndex {
    /// How many cells the table has.
    pub closed spec fn capacity(&self) -> nat {
        self.ctrl@.len()
    }

    /// Cell `i` holds key `k`.
    spec fn holds(&self, i: int, k: u64) -> bool {
        0 <= i < self.ctrl@.len() && self.ctrl@[i] == CTRL_FULL && self.keys@[i] == k
    }

    /// The cell where the search for `k` starts.
    spec fn home(&self, k: u64) -> int {
        (mixed(k) as usize & self.mask) as int
    }

    /// No empty cell among the first `d` that the search for `k` visits.
    spec fn path_clear(&self, k: u64, d: int) -> bool {
        forall|j: int|
            0 <= j < d ==> self.ctrl@[#[trigger] ring_at(
                self.home(k),
                j,
                self.ctrl@.len() as int,
            )] != CTRL_EMPTY
    }

    /// The table is a power of two, every key stands once, is reachable from
    /// its home without crossing an empty cell, and is counted.
    pub closed spec fn wf(&self) -> bool {
        &&& self.keys@.len() == self.ctrl@.len()
        &&& self.vals@.len() == self.ctrl@.len()
        &&& self.ctrl@.len() == self.mask + 1
        &&& self.mask < usize::MAX
        &&& self.mask & ((self.mask + 1) as usize) == 0
        &&& forall|i: int| 0 <= i < self.ctrl@.len() ==> #[trigger] self.ctrl@[i] <= 2
        &&& forall|i: int, j: int|
            0 <= i < self.ctrl@.len() && 0 <= j < self.ctrl@.len() && self.ctrl@[i] == CTRL_FULL
                && self.ctrl@[j] == CTRL_FULL && #[trigger] self.keys@[i] == #[trigger] self.keys@[j]
                ==> i == j
        &&& forall|i: int|
            0 <= i < self.ctrl@.len() && self.ctrl@[i] == CTRL_FULL ==> self.path_clear(
                #[trigger] self.keys@[i],
                ring_dist(self.home(self.keys@[i]), i, self.ctrl@.len() as int),
            )
        &&& self.len == full_count(self.ctrl@, self.ctrl@.len())
    }

    proof fn lemma_home(&self, k: u64)
        requires
            self.ctrl@.len() == self.mask + 1,
        ensures
            0 <= self.home(k) < self.ctrl@.len(),
    {
        let x = mixed(k) as usize;
        let m = self.mask;
        assert(x & m <= m) by (bit_vector);
    }

    /// One step along the ring is one masked increment.
    proof fn lemma_step(i: usize, mask: usize)
        requires
            i <= mask < usize::MAX,
            mask & ((mask + 1) as usize) == 0,
        ensures
            ((i + 1) as usize) & mask == if i < mask {
                (i + 1) as usize
            } else {
                0
            },
    {
        assert(i < mask && mask & ((mask + 1) as usize) == 0 ==> ((i + 1) as usize) & mask == (i
            + 1) as usize) by (bit_vector);
        assert(i == mask && mask & ((mask + 1) as usize) == 0 ==> ((i + 1) as usize) & mask == 0)
            by (bit_vector);
    }

    /// The cell that holds a key determines what the map says of it.
    proof fn lemma_lookup(&self, k: u64, i: int)
        requires
            self.wf(),
            self.holds(i, k),
        ensures
            self@.contains_key(k),
            self@[k] == self.vals@[i],
    {
        let c = choose|c: int| self.holds(c, k);
        assert(self.holds(c, k));
        assert(self.keys@[c] == self.keys@[i]);
    }

    /// The number of keys is the number of occupied cells.
    proof fn lemma_dom_len(&self, n: nat)
        requires
            self.wf(),
            n <= self.ctrl@.len(),
        ensures
            Set::<u64>::new(|k: u64| exists|i: int| i < n && self.holds(i, k)).finite(),
            Set::<u64>::new(|k: u64| exists|i: int| i < n && self.holds(i, k)).len() == full_count(
                self.ctrl@,
                n,
            ),
        decreases n,
    {
        let s = Set::<u64>::new(|k: u64| exists|i: int| i < n && self.holds(i, k));
        if n == 0 {
            assert(s =~= Set::<u64>::empty());
        } else {
            let m = (n - 1) as nat;
            let t = Set::<u64>::new(|k: u64| exists|i: int| i < m && self.holds(i, k));
            self.lemma_dom_len(m);
            if self.ctrl@[m as int] == CTRL_FULL {
                let key = self.keys@[m as int];
                assert(self.holds(m as int, key));
                assert(!t.contains(key));
                assert forall|k: u64| #[trigger] s.contains(k) <==> t.insert(key).contains(k) by {
                    if s.contains(k) {
                        let i = choose|i: int| i < n && self.holds(i, k);
                        assert(i < m || i == m);
                    }
                    if t.contains(k) {
                        let i = choose|i: int| i < m && self.holds(i, k);
                        assert(i < n && self.holds(i, k));
                    }
                }
                assert(s =~= t.insert(key));
            } else {
                assert forall|k: u64| #[trigger] s.contains(k) <==> t.contains(k) by {
                    if s.contains(k) {
                        let i = choose|i: int| i < n && self.holds(i, k);
                        assert(i < m);
                    }
                    if t.contains(k) {
                        let i = choose|i: int| i < m && self.holds(i, k);
                        assert(i < n && self.holds(i, k));
                    }
                }
                assert(s =~= t);
            }
        }
    }

    proof fn lemma_len(&self)
        requires
            self.wf(),
        ensures
            self@.dom().finite(),
            self@.len() == self.len,
            self.len <= self.ctrl@.len(),
    {
        let n = self.ctrl@.len();
        self.lemma_dom_len(n);
        lemma_full_count_bound(self.ctrl@, n);
        let s = Set::<u64>::new(|k: u64| exists|i: int| i < n && self.holds(i, k));
        assert forall|k: u64| #[trigger] s.contains(k) <==> self@.dom().contains(k) by {
            if self@.dom().contains(k) {
                let i = choose|i: int| self.holds(i, k);
                assert(i < n && self.holds(i, k));
            }
        }
        assert(self@.dom() =~= s);
    }

    /// The map is finite, and its table has room for all of it.
    pub proof fn lemma_finite(&self)
        requires
            self.wf(),
        ensures
            self@.dom().finite(),
            self@.len() <= self.capacity(),
            self@.len() <= u32::MAX,
    {
        self.lemma_len();
    }

    /// Capacity is the least power of two >= 8 and >= 2 * `max_live`, so the
    /// load factor never exceeds 0.5.
    pub fn with_capacity(max_live: u32) -> (m: Self)
        requires
            2 * max_live <= usize::MAX / 2,
        ensures
            m.wf(),
            m@ == Map::<u64, u32>::empty(),
            m.capacity() >= 2 * max_live,
            m.capacity() >= 8,
            m.capacity() == 8 || m.capacity() < 4 * max_live,
            is_pow2(m.capacity() as int),
    {
        let want = max_live as usize * 2;
        let mut cap: usize = 8;
        assert(8usize & 7usize == 0) by (bit_vector);
        proof {
            lemma_pow2_eight();
        }
        while cap < want
            invariant
                want <= usize::MAX / 2,
                cap >= 8,
                cap < usize::MAX,
                cap & ((cap - 1) as usize) == 0,
                cap == 8 || cap < 2 * want,
                is_pow2(cap as int),
            decreases usize::MAX - cap,
        {
            proof {
                lemma_pow2_double(cap as int);
            }
            assert(cap & ((cap - 1) as usize) == 0 && 8 <= cap ==> ((cap * 2) as usize) & ((((cap
                * 2) as usize) - 1) as usize) == 0) by (bit_vector);
            cap = cap * 2;
        }
        let mut keys: Vec<u64> = Vec::with_capacity(cap);
        let mut vals: Vec<u32> = Vec::with_capacity(cap);
        let mut ctrl: Vec<u8> = Vec::with_capacity(cap);
        let mut i: usize = 0;
        while i < cap
            invariant
                i <= cap,
                keys@.len() == i,
                vals@.len() == i,
                ctrl@.len() == i,
                forall|k: int| 0 <= k < i ==> #[trigger] ctrl@[k] == CTRL_EMPTY,
                full_count(ctrl@, i as nat) == 0,
            decreases cap - i,
        {
            let ghost before = ctrl@;
            keys.push(0);
            vals.push(0);
            ctrl.push(CTRL_EMPTY);
            proof {
                lemma_full_count_prefix(before, ctrl@, i as nat);
            }
            i += 1;
        }
        let m = OrderIndex { keys, vals, ctrl, mask: cap - 1, len: 0 };
        proof {
            let c1 = (cap - 1) as usize;
            assert(cap & c1 == c1 & cap) by (bit_vector);
            assert(m@ =~= Map::<u64, u32>::empty());
        }
        m
    }

    /// How many orders are indexed.
    pub fn len(&self) -> (n: u32)
        requires
            self.wf(),
        ensures
            n == self@.len(),
    {
        proof {
            self.lemma_len();
        }
        self.len
    }

    /// Whether no order is indexed.
    pub fn is_empty(&self) -> (r: bool)
        requires
            self.wf(),
        ensures
            r == (self@ == Map::<u64, u32>::empty()),
    {
        proof {
            self.lemma_len();
            if self.len == 0 {
                assert(self@.dom() =~= Set::<u64>::empty());
                assert(self@ =~= Map::<u64, u32>::empty());
            }
        }
        self.len == 0
    }

    /// Walk the probe path of `key`. `Some` with the cell that holds it, or
    /// `None` when no cell does.
    fn find(&self, key: u64) -> (r: Option<usize>)
        requires
            self.wf(),
        ensures
            match r {
                Some(i) => self.holds(i as int, key) && self@.contains_key(key) && self@[key]
                    == self.vals@[i as int],
                None => !self@.contains_key(key),
            },
    {
        let mut i = mix(key) as usize & self.mask;
        let ghost n = self.ctrl@.len() as int;
        let ghost h = self.home(key);
        proof {
            self.lemma_home(key);
        }
        // Bounded probe: even a table degraded to all full/tombstone slots
        // terminates after one lap.
        let mut d: usize = 0;
        while d <= self.mask
            invariant
                self.wf(),
                n == self.ctrl@.len(),
                h == self.home(key),
                0 <= h < n,
                d <= n,
                i < n,
                i == ring_at(h, d as int, n) || d == n,
                forall|j: int|
                    0 <= j < d ==> {
                        let c = #[trigger] ring_at(h, j, n);
                        self.ctrl@[c] != CTRL_EMPTY && !self.holds(c, key)
                    },
            decreases n - d,
        {
            let c = self.ctrl[i];
            if c == CTRL_EMPTY {
                proof {
                    if self@.contains_key(key) {
                        let p = choose|p: int| self.holds(p, key);
                        assert(self.holds(p, key));
                        let e = ring_dist(h, p, n);
                        assert(ring_at(h, e, n) == p);
                        assert(self.path_clear(self.keys@[p], e));
                        assert(self.ctrl@[ring_at(h, d as int, n)] == CTRL_EMPTY);
                        assert(false);
                    }
                }
                return None;
            }
            if c == CTRL_FULL && self.keys[i] == key {
                proof {
                    self.lemma_lookup(key, i as int);
                }
                return Some(i);
            }
            proof {
                Self::lemma_step(i, self.mask);
            }
            i = (i + 1) & self.mask;
            d += 1;
        }
        proof {
            if self@.contains_key(key) {
                let p = choose|p: int| self.holds(p, key);
                assert(self.holds(p, key));
                let e = ring_dist(h, p, n);
                assert(ring_at(h, e, n) == p);
                assert(false);
            }
        }
        None
    }

    /// The slot of an order, if it is indexed.
    pub fn get(&self, key: u64) -> (r: Option<u32>)
        requires
            self.wf(),
        ensures
            r == (if self@.contains_key(key) {
                Some(self@[key])
            } else {
                None
            }),
    {
        match self.find(key) {
            Some(i) => Some(self.vals[i]),
            None => None,
        }
    }

    /// Whether an order is indexed.
    pub fn contains(&self, key: u64) -> (r: bool)
        requires
            self.wf(),
        ensures
            r == self@.contains_key(key),
    {
        self.find(key).is_some()
    }

    /// Insert a key that is NOT already present (the engine rejects
    /// duplicates before calling this). Reuses the first tombstone on the
    /// probe path. Never allocates.
    pub fn insert(&mut self, key: u64, val: u32)
        requires
            old(self).wf(),
            !old(self)@.contains_key(key),
            old(self)@.len() < old(self).capacity(),
            old(self)@.len() < u32::MAX,
        ensures
            final(self).wf(),
            final(self)@ == old(self)@.insert(key, val),
            final(self).capacity() == old(self).capacity(),
    {
        let mut i = mix(key) as usize & self.mask;
        let ghost n = self.ctrl@.len() as int;
        let ghost h = self.home(key);
        proof {
            self.lemma_home(key);
            self.lemma_len();
            lemma_full_count_bound(self.ctrl@, n as nat);
        }
        let mut d: usize = 0;
        while d <= self.mask && self.ctrl[i] == CTRL_FULL
            invariant
                self.wf(),
                n == self.ctrl@.len(),
                h == self.home(key),
                0 <= h < n,
                d <= n,
                i < n,
                i == ring_at(h, d as int, n) || d == n,
                forall|j: int|
                    0 <= j < d ==> self.ctrl@[#[trigger] ring_at(h, j, n)] == CTRL_FULL,
            decreases n - d,
        {
            proof {
                Self::lemma_step(i, self.mask);
            }
            i = (i + 1) & self.mask;
            d += 1;
        }
        proof {
            if d == n {
                assert forall|p: int| 0 <= p < n implies self.ctrl@[p] == CTRL_FULL by {
                    assert(ring_at(h, ring_dist(h, p, n), n) == p);
                }
                assert(false);
            }
        }
        let ghost before = *self;
        self.ctrl[i] = CTRL_FULL;
        self.keys[i] = key;
        self.vals[i] = val;
        self.len += 1;
        proof {
            let t = i as int;
            lemma_full_count_update(before.ctrl@, n as nat, t, CTRL_FULL);
            assert forall|p: int|
                0 <= p < n && self.ctrl@[p] == CTRL_FULL implies self.path_clear(
                #[trigger] self.keys@[p],
                ring_dist(self.home(self.keys@[p]), p, n),
            ) by {
                if p != t {
                    assert(before.keys@[p] == self.keys@[p]);
                    assert(before.path_clear(before.keys@[p], ring_dist(before.home(before.keys@[p]), p, n)));
                    assert(self.home(self.keys@[p]) == before.home(before.keys@[p]));
                } else {
                    assert(self.home(key) == h);
                    assert(ring_dist(h, t, n) == d);
                }
            }
            assert forall|a: int, b: int|
                0 <= a < n && 0 <= b < n && self.ctrl@[a] == CTRL_FULL && self.ctrl@[b] == CTRL_FULL
                    && #[trigger] self.keys@[a] == #[trigger] self.keys@[b] implies a == b by {
                if a != b {
                    if a == t {
                        assert(before.holds(b, key));
                        before.lemma_lookup(key, b);
                    } else if b == t {
                        assert(before.holds(a, key));
                        before.lemma_lookup(key, a);
                    } else {
                        assert(before.keys@[a] == before.keys@[b]);
                    }
                }
            }
            assert(self.wf());
            assert forall|k: u64| #[trigger] self@.contains_key(k) <==> before@.insert(
                key,
                val,
            ).contains_key(k) by {
                if self@.contains_key(k) && k != key {
                    let p = choose|p: int| self.holds(p, k);
                    assert(before.holds(p, k));
                }
                if before@.contains_key(k) {
                    let p = choose|p: int| before.holds(p, k);
                    assert(before.holds(p, k));
                    assert(self.holds(p, k));
                }
                assert(self.holds(t, key));
            }
            assert forall|k: u64| #[trigger] self@.contains_key(k) implies self@[k] == before@.insert(
                key,
                val,
            )[k] by {
                let p = choose|p: int| self.holds(p, k);
                assert(self.holds(p, k));
                self.lemma_lookup(k, p);
                if k != key {
                    assert(before.holds(p, k));
                    before.lemma_lookup(k, p);
                } else {
                    assert(self.keys@[p] == self.keys@[t]);
                }
            }
            assert(self@ =~= before@.insert(key, val));
        }
    }

    /// Forget an order; its slot, if it was indexed.
    pub fn remove(&mut self, key: u64) -> (r: Option<u32>)
        requires
            old(self).wf(),
        ensures
            final(self).wf(),
            final(self)@ == old(self)@.remove(key),
            final(self).capacity() == old(self).capacity(),
            r == (if old(self)@.contains_key(key) {
                Some(old(self)@[key])
            } else {
                None
            }),
    {
        match self.find(key) {
            None => {
                assert(self@.remove(key) =~= self@);
                None
            },
            Some(i) => {
                let ghost before = *self;
                let ghost n = self.ctrl@.len() as int;
                proof {
                    let t = i as int;
                    lemma_full_count_update(before.ctrl@, n as nat, t, CTRL_TOMBSTONE);
                    if self.len == 0 {
                        lemma_full_count_bound(before.ctrl@.update(t, CTRL_TOMBSTONE), n as nat);
                    }
                }
                self.ctrl[i] = CTRL_TOMBSTONE;
                self.len -= 1;
                proof {
                    let t = i as int;
                    assert forall|p: int|
                        0 <= p < n && self.ctrl@[p] == CTRL_FULL implies self.path_clear(
                        #[trigger] self.keys@[p],
                        ring_dist(self.home(self.keys@[p]), p, n),
                    ) by {
                        assert(before.keys@[p] == self.keys@[p]);
                        assert(before.path_clear(before.keys@[p], ring_dist(before.home(before.keys@[p]), p, n)));
                        assert(self.home(self.keys@[p]) == before.home(before.keys@[p]));
                    }
                    assert(self.wf());
                    assert forall|k: u64| #[trigger] self@.contains_key(k) <==> before@.remove(
                        key,
                    ).contains_key(k) by {
                        if self@.contains_key(k) {
                            let p = choose|p: int| self.holds(p, k);
                            assert(self.holds(p, k));
                            assert(before.holds(p, k));
                            if k == key {
                                assert(before.keys@[p] == before.keys@[t]);
                            }
                        }
                        if before@.contains_key(k) && k != key {
                            let p = choose|p: int| before.holds(p, k);
                            assert(before.holds(p, k));
                            assert(self.holds(p, k));
                        }
                    }
                    assert forall|k: u64| #[trigger] self@.contains_key(k) implies self@[k]
                        == before@.remove(key)[k] by {
                        let p = choose|p: int| self.holds(p, k);
                        assert(self.holds(p, k));
                        self.lemma_lookup(k, p);
                        assert(before.holds(p, k));
                        before.lemma_lookup(k, p);
                    }
                    assert(self@ =~= before@.remove(key));
                }
                Some(self.vals[i])
            },
        }
    }
}

proof fn lemma_full_count_prefix(a: Seq<u8>, b: Seq<u8>, n: nat)
    requires
        n <= a.len(),
        n <= b.len(),
        forall|i: int| 0 <= i < n ==> a[i] == b[i],
    ensures
        full_count(a, n) == full_count(b, n),
    decreases n,
{
    if n > 0 {
        lemma_full_count_prefix(a, b, (n - 1) as nat);
    }
}

} // verus!
