//! Deduplication table used while gathering search candidates: open addressing
//! with linear probing over a power-of-two table, at most eight probes per key.
use vstd::prelude::*;

verus! {

/// Number of slots a key may be looked up in before the table gives up.
pub const MAX_PROBES: usize = 8;

/// `n` is a power of two.
pub open spec fn is_pow2(n: nat) -> bool
    decreases n,
{
    if n == 1 {
        true
    } else if n < 2 || n % 2 == 1 {
        false
    } else {
        is_pow2(n / 2)
    }
}

/// The key under which an id is stored: `id + 1` truncated to 32 bits, so
/// that 0 can mark an empty slot.
pub open spec fn dedup_key(id: usize) -> u32 {
    (id + 1) as u32
}

/// `x` rotated left by two bits.
pub open spec fn rotl2(x: u32) -> u32 {
    (x << 2u32) | (x >> 30u32)
}

/// Slot at which the probe sequence of `key` starts.
#[verifier::opaque]
pub open spec fn home_slot(key: u32, mask: usize) -> usize {
    (key.wrapping_mul(99991u32).wrapping_add(rotl2(key)).wrapping_add(101u32) as usize) & mask
}

/// Slot visited by the `i`-th probe that starts at `h`.
#[verifier::opaque]
pub open spec fn probe(h: usize, i: nat, mask: usize) -> usize
    decreases i,
{
    if i == 0 {
        h
    } else {
        ((probe(h, (i - 1) as nat, mask) + 1) as usize) & mask
    }
}

/// Some slot among the first eight probes of `key` is empty.
pub open spec fn has_room(table: Seq<u32>, mask: usize, key: u32) -> bool {
    exists|j: nat| j < MAX_PROBES && table[probe(home_slot(key, mask), j, mask) as int] == 0
}

/// The value in slot `p` sits on its own probe sequence within eight probes,
/// behind occupied slots only.
pub open spec fn placed(table: Seq<u32>, mask: usize, p: int) -> bool {
    exists|j: nat|
        #![trigger probe(home_slot(table[p], mask), j, mask)]
        j < MAX_PROBES && probe(home_slot(table[p], mask), j, mask) == p && forall|i: nat|
            i < j ==> table[#[trigger] probe(home_slot(table[p], mask), i, mask) as int] != 0
}

/// Every occupied slot of `table` is placed.
#[verifier::opaque]
pub open spec fn all_placed(table: Seq<u32>, mask: usize) -> bool {
    forall|p: int| #![trigger placed(table, mask, p)] 0 <= p < table.len() && table[p] != 0 ==> placed(table, mask, p)
}

pub struct FastDedup {
    table: Vec<u32>,
    mask: usize,
    max_check: usize,
}

proof fn lemma_and_mask(x: usize, mask: usize)
    ensures
        x & mask <= mask,
{
    assert(x & mask <= mask) by (bit_vector);
}

proof fn lemma_probe_step(h: usize, i: nat, mask: usize)
    ensures
        probe(h, i + 1, mask) == ((probe(h, i, mask) + 1) as usize) & mask,
        probe(h, 0, mask) == h,
{
    reveal(probe);
}

proof fn lemma_probe_bound(h: usize, i: nat, mask: usize)
    requires
        h <= mask,
    ensures
        probe(h, i, mask) <= mask,
    decreases i,
{
    reveal(probe);
    if i > 0 {
        lemma_probe_bound(h, (i - 1) as nat, mask);
        lemma_and_mask(((probe(h, (i - 1) as nat, mask) + 1) as usize), mask);
    }
}

proof fn lemma_home_bound(key: u32, mask: usize)
    ensures
        home_slot(key, mask) <= mask,
{
    reveal(home_slot);
    lemma_and_mask(key.wrapping_mul(99991u32).wrapping_add(rotl2(key)).wrapping_add(101u32) as usize, mask);
}

/// The key of the largest id wraps to the empty-slot marker.
proof fn lemma_max_key()
    ensures
        dedup_key(usize::MAX) == 0,
{
    assert(usize::MAX == 0xffff_ffffint || usize::MAX == 0xffff_ffff_ffff_ffffint);
    assert((0x1_0000_0000int) as u32 == 0) by (bit_vector);
    assert((0x1_0000_0000_0000_0000int) as u32 == 0) by (bit_vector);
}

/// A power of two has no bit in common with its predecessor.
proof fn lemma_pow2_mask(n: usize)
    requires
        is_pow2(n as nat),
    ensures
        n >= 1,
        n & ((n - 1) as usize) == 0,
    decreases n,
{
    if n == 1 {
        assert(1usize & 0usize == 0) by (bit_vector);
    } else {
        let m = (n / 2) as usize;
        assert(is_pow2(m as nat));
        lemma_pow2_mask(m);
        assert(n == m * 2);
        assert(m & ((m - 1) as usize) == 0 && m >= 1 && n == m * 2 ==> n & ((n - 1) as usize) == 0)
            by (bit_vector);
    }
}

/// Under a mask of all low bits, the slot after `h` is another slot.
proof fn lemma_next_slot_differs(h: usize, mask: usize)
    requires
        h <= mask,
        mask >= 1,
        ((mask + 1) as usize) & mask == 0,
    ensures
        ((h + 1) as usize) & mask != h,
{
    assert(h <= mask && mask >= 1 && ((mask + 1) as usize) & mask == 0 ==> ((h + 1) as usize) & mask != h)
        by (bit_vector);
}

/// Outcome of looking `key` up from the `i`-th probe of its sequence from `h`
/// on: at the first empty slot the key is stored there and the answer is "not
/// seen"; at the first slot holding the key the answer is "seen" and nothing
/// changes; after eight probes without either the answer is "not seen" and
/// nothing changes.
pub open spec fn probe_run(t: Seq<u32>, mask: usize, key: u32, h: usize, i: nat) -> (bool, Seq<u32>)
    decreases MAX_PROBES - i,
{
    if i >= MAX_PROBES {
        (false, t)
    } else {
        let p = probe(h, i, mask) as int;
        if t[p] == 0 {
            (false, t.update(p, key))
        } else if t[p] == key {
            (true, t)
        } else {
            probe_run(t, mask, key, h, i + 1)
        }
    }
}

/// Answer and new slots of one `check_and_set` of `key` on slots `t`.
pub open spec fn dedup_step(t: Seq<u32>, mask: usize, key: u32) -> (bool, Seq<u32>) {
    probe_run(t, mask, key, home_slot(key, mask), 0)
}

/// `key` can be recorded in slots `t`: it is not the empty marker and one of
/// its eight probes is empty.
pub open spec fn recordable(t: Seq<u32>, mask: usize, key: u32) -> bool {
    key != 0 && has_room(t, mask, key)
}

/// The smallest power of two that is at least `target`, doubling from `size`.
pub open spec fn pow2_at_least(target: nat, size: nat) -> nat
    decreases (if size < target { target - size } else { 0 }),
{
    if size == 0 || size >= target {
        size
    } else {
        pow2_at_least(target, size * 2)
    }
}

/// Number of slots of a table made for `max_check` candidates.
pub open spec fn table_size(max_check: usize) -> nat {
    pow2_at_least((2 * max_check) as nat, 1)
}

/// Mask of a table made for `max_check` candidates.
pub open spec fn table_mask(max_check: usize) -> usize {
    (table_size(max_check) - 1) as usize
}

/// Slots of a new table made for `max_check` candidates.
pub open spec fn empty_table(max_check: usize) -> Seq<u32> {
    Seq::new(table_size(max_check), |j: int| 0u32)
}

/// Keys of the ids in `ids`.
pub open spec fn keys_of(ids: Seq<usize>) -> Set<u32> {
    Set::new(|k: u32| exists|i: int| 0 <= i < ids.len() && dedup_key(ids[i]) == k)
}

impl FastDedup {
    /// Keys recorded since the table was made or last cleared.
    pub closed spec fn keys(self) -> Set<u32> {
        Set::new(|k: u32| k != 0 && self.table@.contains(k))
    }

    /// The empty-slot marker is never a recorded key.
    pub proof fn lemma_zero_not_key(self)
        ensures
            !self.keys().contains(0u32),
    {
    }

    /// Number of slots.
    pub closed spec fn capacity(self) -> nat {
        self.table@.len()
    }

    /// Largest number of candidates the owner means to check.
    pub closed spec fn max_check_limit(self) -> usize {
        self.max_check
    }

    /// Raw contents of the table, slot by slot.
    pub closed spec fn slots(self) -> Seq<u32> {
        self.table@
    }

    /// Mask that turns a hash into a slot.
    pub closed spec fn slot_mask(self) -> usize {
        self.mask
    }

    /// Internal invariant of the table.
    pub closed spec fn wf(self) -> bool {
        &&& self.table@.len() == self.mask + 1
        &&& is_pow2(self.table@.len())
        &&& all_placed(self.table@, self.mask)
    }

    /// A table for up to `max_check` candidates: its size is the smallest power
    /// of two that is at least `2 * max_check`, and it starts empty.
    pub fn new(max_check: usize) -> (d: Self)
        requires
            max_check <= usize::MAX / 4 + 1,
        ensures
            d.wf(),
            d.keys() == Set::<u32>::empty(),
            forall|j: int| 0 <= j < d.slots().len() ==> d.slots()[j] == 0,
            d.max_check_limit() == max_check,
            is_pow2(d.capacity()),
            d.capacity() >= 2 * max_check,
            d.capacity() == 1 || d.capacity() < 4 * max_check,
            d.slots() == empty_table(max_check),
            d.slot_mask() == table_mask(max_check),
    {
        let target = max_check * 2;
        let mut size: usize = 1;
        while size < target
            invariant
                is_pow2(size as nat),
                1 <= size,
                size == 1 || size < 2 * target,
                target <= usize::MAX / 2 + 1,
                target == 2 * max_check,
                pow2_at_least(target as nat, size as nat) == table_size(max_check),
            decreases usize::MAX - size,
        {
            assert(is_pow2((size * 2) as nat));
            size = size * 2;
        }
        let table = vec![0u32; size];
        let d = FastDedup { table, mask: size - 1, max_check };
        assert(d.keys() =~= Set::<u32>::empty());
        assert(pow2_at_least(target as nat, size as nat) == size);
        assert(d.slots() =~= empty_table(max_check));
        proof {
            reveal(all_placed);
        }
        d
    }

    /// Forgets every recorded key.
    pub fn clear(&mut self)
        requires
            old(self).wf(),
        ensures
            final(self).wf(),
            final(self).keys() == Set::<u32>::empty(),
            forall|j: int| 0 <= j < final(self).slots().len() ==> final(self).slots()[j] == 0,
            final(self).capacity() == old(self).capacity(),
            final(self).slot_mask() == old(self).slot_mask(),
            final(self).max_check_limit() == old(self).max_check_limit(),
    {
        let n = self.table.len();
        let mut i: usize = 0;
        while i < n
            invariant
                n == self.table@.len(),
                self.table@.len() == self.mask + 1,
                is_pow2(self.table@.len()),
                self.mask == old(self).mask,
                self.max_check == old(self).max_check,
                i <= n,
                forall|j: int| 0 <= j < i ==> self.table@[j] == 0,
                forall|j: int| i <= j < n ==> self.table@[j] == old(self).table@[j],
            decreases n - i,
        {
            self.table.set(i, 0);
            i = i + 1;
        }
        assert(self.keys() =~= Set::<u32>::empty());
        proof {
            reveal(all_placed);
        }
    }

    /// A table whose slots are all empty, as `new` and `clear` leave it, has
    /// room for every key: the first probe meets an empty slot.
    pub proof fn lemma_empty_has_room(self, key: u32)
        requires
            self.wf(),
            forall|j: int| 0 <= j < self.slots().len() ==> self.slots()[j] == 0,
        ensures
            has_room(self.slots(), self.slot_mask(), key),
    {
        lemma_home_bound(key, self.mask);
        lemma_probe_step(home_slot(key, self.mask), 0, self.mask);
        let h = home_slot(key, self.mask);
        assert(probe(h, 0, self.mask) == h);
        assert(h < self.table@.len());
        assert(self.slots()[h as int] == 0);
        assert(self.table@[probe(h, 0, self.mask) as int] == 0);
    }

    /// A table of two or more slots with at most one occupied slot has room
    /// for every key: the first two probes visit two different slots.
    pub proof fn lemma_one_key_has_room(self, key: u32)
        requires
            self.wf(),
            self.capacity() >= 2,
            forall|i: int, j: int|
                0 <= i < self.slots().len() && 0 <= j < self.slots().len() && self.slots()[i] != 0
                    && self.slots()[j] != 0 ==> i == j,
        ensures
            has_room(self.slots(), self.slot_mask(), key),
    {
        let m = self.mask;
        let h = home_slot(key, m);
        lemma_home_bound(key, m);
        lemma_probe_step(h, 0, m);
        let n: usize = self.table.len();
        assert(n == self.table@.len());
        lemma_pow2_mask(n);
        assert(((m + 1) as usize) == n);
        lemma_next_slot_differs(h, m);
        let p1 = probe(h, 1, m);
        assert(p1 == ((h + 1) as usize) & m);
        lemma_and_mask(((h + 1) as usize), m);
        if self.table@[h as int] == 0 {
            assert(self.table@[probe(h, 0, m) as int] == 0);
        } else {
            assert(self.slots()[h as int] != 0);
            assert(p1 != h);
            assert(self.table@[p1 as int] == 0);
            assert(self.table@[probe(h, 1, m) as int] == 0);
        }
    }

    /// Law (no false positives): when every key of the table `before` is the
    /// key of an id in `ids` (as after `new` or `clear`, with no ids), and
    /// `check_and_set(id)` then takes it to `after` with answer `seen` (the
    /// hypotheses are that call's contract), every key of `after` is the key
    /// of an id in `ids` followed by `id`, and a `true` answer means that `id`
    /// has the key of an id in `ids`.
    pub proof fn lemma_no_false_positives(before: FastDedup, after: FastDedup, ids: Seq<usize>, id: usize, seen: bool)
        requires
            before.keys() <= keys_of(ids),
            seen == before.keys().contains(dedup_key(id)),
            seen ==> after.keys() == before.keys(),
            !seen && dedup_key(id) != 0 && has_room(before.slots(), before.slot_mask(), dedup_key(id))
                ==> after.keys() == before.keys().insert(dedup_key(id)),
            !seen && (dedup_key(id) == 0 || !has_room(before.slots(), before.slot_mask(), dedup_key(id)))
                ==> after.keys() == before.keys(),
        ensures
            after.keys() <= keys_of(ids.push(id)),
            seen ==> keys_of(ids).contains(dedup_key(id)),
    {
        assert forall|k: u32| after.keys().contains(k) implies #[trigger] keys_of(ids.push(id)).contains(k) by {
            if k == dedup_key(id) {
                assert(ids.push(id)[ids.len() as int] == id);
            } else {
                assert(before.keys().contains(k));
                assert(keys_of(ids).contains(k));
                let i = choose|i: int| 0 <= i < ids.len() && dedup_key(ids[i]) == k;
                assert(ids.push(id)[i] == ids[i]);
            }
        }
    }

    /// Home slot of `key`.
    fn hash(&self, key: u32) -> (h: usize)
        ensures
            h == home_slot(key, self.mask),
    {
        proof {
            reveal(home_slot);
        }
        let r = (key << 2u32) | (key >> 30u32);
        (key.wrapping_mul(99991).wrapping_add(r).wrapping_add(101) as usize) & self.mask
    }

    /// Records `id` and reports whether it had been recorded before. The answer
    /// is `true` exactly when the id's key was already in the table; a new key
    /// is stored in the first empty slot of its probe sequence, and is dropped
    /// when the first eight probes are all occupied (the answer is then `false`).
    #[verifier::rlimit(60)]
    pub fn check_and_set(&mut self, id: usize) -> (seen: bool)
        requires
            old(self).wf(),
        ensures
            final(self).wf(),
            final(self).capacity() == old(self).capacity(),
            final(self).max_check_limit() == old(self).max_check_limit(),
            seen == old(self).keys().contains(dedup_key(id)),
            seen ==> final(self).keys() == old(self).keys(),
            !seen && dedup_key(id) != 0 && has_room(old(self).slots(), old(self).slot_mask(), dedup_key(id))
                ==> final(self).keys() == old(self).keys().insert(dedup_key(id)),
            !seen && (dedup_key(id) == 0 || !has_room(old(self).slots(), old(self).slot_mask(), dedup_key(id)))
                ==> final(self).keys() == old(self).keys(),
            final(self).slot_mask() == old(self).slot_mask(),
            seen || !has_room(old(self).slots(), old(self).slot_mask(), dedup_key(id)) ==> final(self).slots()
                == old(self).slots(),
            !seen && has_room(old(self).slots(), old(self).slot_mask(), dedup_key(id)) ==> exists|j: int|
                0 <= j < old(self).slots().len() && old(self).slots()[j] == 0 && final(self).slots()
                    == old(self).slots().update(j, dedup_key(id)),
            (seen, final(self).slots()) == dedup_step(old(self).slots(), old(self).slot_mask(), dedup_key(id)),
    {
        let key: u32 = if id < usize::MAX {
            (id + 1) as u32
        } else {
            proof {
                lemma_max_key();
            }
            0
        };
        let ghost h = home_slot(key, self.mask);
        let ghost t0 = self.table@;
        let mut idx = self.hash(key);
        proof {
            lemma_home_bound(key, self.mask);
            lemma_probe_step(h, 0, self.mask);
        }
        let mut step: usize = 0;
        while step < MAX_PROBES
            invariant
                self.table@ == t0,
                self.table@ == old(self).table@,
                self.mask == old(self).mask,
                self.max_check == old(self).max_check,
                old(self).wf(),
                h == home_slot(key, self.mask),
                h <= self.mask,
                key == dedup_key(id),
                step <= MAX_PROBES,
                idx == probe(h, step as nat, self.mask),
                forall|i: nat|
                    i < step ==> t0[#[trigger] probe(h, i, self.mask) as int] != 0 && t0[probe(h, i, self.mask) as int] != key,
                dedup_step(t0, self.mask, key) == probe_run(t0, self.mask, key, h, step as nat),
            decreases MAX_PROBES - step,
        {
            proof {
                lemma_probe_bound(h, step as nat, self.mask);
            }
            let slot = self.table[idx];
            if slot == 0 {
                proof {
                    self.lemma_absent(key, step as nat);
                }
                self.table.set(idx, key);
                proof {
                    Self::lemma_insert_placed(t0, self.mask, key, idx as int, step as nat);
                    Self::lemma_insert_keys(t0, key, idx as int);
                    assert(has_room(t0, self.mask, key));
                    assert(self.table@ == t0.update(idx as int, key));
                }
                return false;
            }
            if slot == key {
                assert(t0.contains(key));
                return true;
            }
            proof {
                lemma_probe_step(h, step as nat, self.mask);
                assert(self.table.len() == self.mask + 1);
                assert(probe_run(t0, self.mask, key, h, step as nat) == probe_run(t0, self.mask, key, h, (step + 1) as nat));
            }
            idx = (idx + 1) & self.mask;
            step = step + 1;
        }
        proof {
            self.lemma_absent_full(key);
        }
        false
    }

    /// When the scan met an empty slot at probe `s` before meeting `key`, the key
    /// is not in the table.
    proof fn lemma_absent(self, key: u32, s: nat)
        requires
            self.wf(),
            s < MAX_PROBES,
            self.table@[probe(home_slot(key, self.mask), s, self.mask) as int] == 0,
            forall|i: nat|
                i < s ==> self.table@[#[trigger] probe(home_slot(key, self.mask), i, self.mask) as int] != key,
        ensures
            !self.keys().contains(key),
    {
        let t = self.table@;
        let h = home_slot(key, self.mask);
        reveal(all_placed);
        if self.keys().contains(key) {
            let p = choose|p: int| 0 <= p < t.len() && t[p] == key;
            assert(placed(t, self.mask, p));
            let j = choose|j: nat|
                #![trigger probe(home_slot(t[p], self.mask), j, self.mask)]
                j < MAX_PROBES && probe(home_slot(t[p], self.mask), j, self.mask) == p && forall|i: nat|
                    i < j ==> t[#[trigger] probe(home_slot(t[p], self.mask), i, self.mask) as int] != 0;
            if j < s {
                assert(t[probe(h, j, self.mask) as int] != key);
            } else if j > s {
                assert(t[probe(h, s, self.mask) as int] != 0);
            } else {
            }
        }
    }

    /// When all eight probes were occupied by other keys, the key is not in the table.
    proof fn lemma_absent_full(self, key: u32)
        requires
            self.wf(),
            forall|i: nat|
                i < MAX_PROBES ==> self.table@[#[trigger] probe(home_slot(key, self.mask), i, self.mask) as int] != 0
                    && self.table@[probe(home_slot(key, self.mask), i, self.mask) as int] != key,
        ensures
            !self.keys().contains(key),
            !has_room(self.table@, self.mask, key),
    {
        let t = self.table@;
        let h = home_slot(key, self.mask);
        reveal(all_placed);
        if self.keys().contains(key) {
            let p = choose|p: int| 0 <= p < t.len() && t[p] == key;
            assert(placed(t, self.mask, p));
            let j = choose|j: nat|
                #![trigger probe(home_slot(t[p], self.mask), j, self.mask)]
                j < MAX_PROBES && probe(home_slot(t[p], self.mask), j, self.mask) == p && forall|i: nat|
                    i < j ==> t[#[trigger] probe(home_slot(t[p], self.mask), i, self.mask) as int] != 0;
            assert(t[probe(h, j, self.mask) as int] != key);
        }
    }

    /// Writing `key` into the empty slot met at probe `s` keeps every slot placed.
    #[verifier::rlimit(60)]
    proof fn lemma_insert_placed(t0: Seq<u32>, m: usize, key: u32, slot: int, s: nat)
        requires
            0 <= slot < t0.len(),
            t0.len() == m + 1,
            all_placed(t0, m),
            t0[slot] == 0,
            s < MAX_PROBES,
            slot == probe(home_slot(key, m), s, m),
            forall|i: nat|
                i < s ==> t0[#[trigger] probe(home_slot(key, m), i, m) as int] != 0,
        ensures
            all_placed(t0.update(slot, key), m),
    {
        reveal(all_placed);
        let t = t0.update(slot, key);
        assert forall|p: int| 0 <= p < t.len() && t[p] != 0 implies placed(t, m, p) by {
            if p == slot {
                assert(t[p] == key);
                assert(probe(home_slot(t[p], m), s, m) == p);
                assert forall|i: nat| i < s implies t[#[trigger] probe(home_slot(t[p], m), i, m) as int] != 0 by {
                    let q = probe(home_slot(key, m), i, m) as int;
                    lemma_home_bound(key, m);
                    lemma_probe_bound(home_slot(key, m), i, m);
                    assert(t0[q] != 0);
                    assert(q != slot);
                    assert(t[q] == t0[q]);
                }
            } else {
                assert(placed(t0, m, p));
                let j = choose|j: nat|
                    #![trigger probe(home_slot(t0[p], m), j, m)]
                    j < MAX_PROBES && probe(home_slot(t0[p], m), j, m) == p && forall|i: nat|
                        i < j ==> t0[#[trigger] probe(home_slot(t0[p], m), i, m) as int] != 0;
                assert(t[p] == t0[p]);
                assert forall|i: nat| i < j implies t[#[trigger] probe(home_slot(t[p], m), i, m) as int] != 0 by {
                    let q = probe(home_slot(t0[p], m), i, m) as int;
                    lemma_home_bound(t0[p], m);
                    lemma_probe_bound(home_slot(t0[p], m), i, m);
                    assert(t0[q] != 0);
                    assert(q != slot);
                    assert(t[q] == t0[q]);
                }
            }
        }
    }

    /// Keys of a table after an empty slot receives `key`.
    proof fn lemma_insert_keys(t0: Seq<u32>, key: u32, slot: int)
        requires
            0 <= slot < t0.len(),
            t0[slot] == 0,
        ensures
            key != 0 ==> Set::new(|k: u32| k != 0 && t0.update(slot, key).contains(k))
                == Set::new(|k: u32| k != 0 && t0.contains(k)).insert(key),
            key == 0 ==> Set::new(|k: u32| k != 0 && t0.update(slot, key).contains(k))
                == Set::new(|k: u32| k != 0 && t0.contains(k)),
    {
        let t = t0.update(slot, key);
        let a = Set::new(|k: u32| k != 0 && t.contains(k));
        let b = Set::new(|k: u32| k != 0 && t0.contains(k));
        assert forall|k: u32| k != 0 && t.contains(k) && k != key implies t0.contains(k) by {
            let q = choose|q: int| 0 <= q < t.len() && t[q] == k;
            assert(t0[q] == k);
        }
        assert forall|k: u32| k != 0 && t0.contains(k) implies t.contains(k) by {
            let q = choose|q: int| 0 <= q < t0.len() && t0[q] == k;
            assert(q != slot);
            assert(t[q] == k);
        }
        if key != 0 {
            assert(t[slot] == key);
            assert(a =~= b.insert(key));
        } else {
            assert(a =~= b);
        }
    }
}

/// Slots of a table made for `max_check` candidates after `check_and_set` of
/// each of `ids` in turn.
pub open spec fn run_table(ids: Seq<usize>, max_check: usize) -> Seq<u32>
    decreases ids.len(),
{
    if ids.len() == 0 {
        empty_table(max_check)
    } else {
        dedup_step(run_table(ids.drop_last(), max_check), table_mask(max_check), dedup_key(ids.last())).1
    }
}

proof fn lemma_pow2_at_least(target: nat, size: nat)
    requires
        size >= 1,
    ensures
        pow2_at_least(target, size) >= 1,
        size >= target ==> pow2_at_least(target, size) == size,
        size < target ==> pow2_at_least(target, size) < 2 * target,
    decreases (if size < target { target - size } else { 0 }),
{
    if size < target {
        lemma_pow2_at_least(target, size * 2);
    }
}

/// A lookup from probe `i` on only stores `key` in an empty slot, and reports
/// "seen" only when a slot holds `key`, which is not the empty marker.
proof fn lemma_probe_run_slots(t: Seq<u32>, mask: usize, key: u32, h: usize, i: nat)
    requires
        h <= mask,
        t.len() == mask + 1,
    ensures
        probe_run(t, mask, key, h, i).1.len() == t.len(),
        forall|p: int|
            0 <= p < t.len() && #[trigger] probe_run(t, mask, key, h, i).1[p] != t[p] ==> probe_run(t, mask, key, h, i).1[p]
                == key,
        probe_run(t, mask, key, h, i).0 ==> key != 0 && t.contains(key),
    decreases MAX_PROBES - i,
{
    if i < MAX_PROBES {
        lemma_probe_bound(h, i, mask);
        let p = probe(h, i, mask) as int;
        if t[p] != 0 && t[p] != key {
            lemma_probe_run_slots(t, mask, key, h, i + 1);
        } else if t[p] == key && t[p] != 0 {
            assert(t.contains(key));
        }
    }
}

/// Law (no false positives over a run): for a table made by `new` (or
/// emptied by `clear`) and given `check_and_set` of each id of `ids` in turn,
/// every occupied slot holds the key of one of those ids; so a further
/// `check_and_set(y)` answers "seen" only when `y` is one of them (ids below
/// `u32::MAX` have distinct keys).
pub proof fn lemma_run_no_false_positives(ids: Seq<usize>, y: usize, max_check: usize)
    requires
        max_check <= usize::MAX / 4 + 1,
        y < u32::MAX,
        forall|i: int| 0 <= i < ids.len() ==> #[trigger] ids[i] < u32::MAX,
    ensures
        run_table(ids, max_check).len() == table_size(max_check),
        forall|p: int|
            0 <= p < run_table(ids, max_check).len() && #[trigger] run_table(ids, max_check)[p] != 0 ==> exists|i: int|
                0 <= i < ids.len() && run_table(ids, max_check)[p] == dedup_key(ids[i]),
        dedup_step(run_table(ids, max_check), table_mask(max_check), dedup_key(y)).0 ==> ids.contains(y),
    decreases ids.len(),
{
    lemma_pow2_at_least((2 * max_check) as nat, 1);
    let size = table_size(max_check);
    assert(size <= 4 * max_check + 1);
    let mask = table_mask(max_check);
    assert(mask + 1 == size);
    let t = run_table(ids, max_check);
    if ids.len() == 0 {
        assert(forall|p: int| 0 <= p < t.len() ==> t[p] == 0);
    } else {
        let prev = ids.drop_last();
        assert forall|i: int| 0 <= i < prev.len() implies #[trigger] prev[i] < u32::MAX by {
            assert(prev[i] == ids[i]);
        }
        lemma_run_no_false_positives(prev, y, max_check);
        let t0 = run_table(prev, max_check);
        let key = dedup_key(ids.last());
        lemma_home_bound(key, mask);
        lemma_probe_run_slots(t0, mask, key, home_slot(key, mask), 0);
        assert forall|p: int| 0 <= p < t.len() && #[trigger] t[p] != 0 implies exists|i: int|
            0 <= i < ids.len() && t[p] == dedup_key(ids[i]) by {
            if t[p] == t0[p] {
                let i = choose|i: int| 0 <= i < prev.len() && t0[p] == dedup_key(prev[i]);
                assert(ids[i] == prev[i]);
            } else {
                assert(t[p] == key);
                assert(ids[ids.len() - 1] == ids.last());
            }
        }
    }
    lemma_home_bound(dedup_key(y), mask);
    lemma_probe_run_slots(t, mask, dedup_key(y), home_slot(dedup_key(y), mask), 0);
    if dedup_step(t, mask, dedup_key(y)).0 {
        let p = choose|p: int| 0 <= p < t.len() && t[p] == dedup_key(y);
        let i = choose|i: int| 0 <= i < ids.len() && t[p] == dedup_key(ids[i]);
        assert(dedup_key(ids[i]) == dedup_key(y));
        assert(ids[i] == y);
    }
}

} // verus!
