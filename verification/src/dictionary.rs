//! An open-addressing hash table that interns keys: it maps each distinct key
//! to a stable integer address, assigning the next free address on first
//! insertion and returning the same address on every later insertion of an
//! equal key.
//!
//! The table owns two parallel structures: a routing array of `capacity`
//! slots (a power of two), each holding either [`FREE_SLOT`] or an address,
//! and a dense array of the stored keys in first-insertion order, indexed by
//! address. Collisions are resolved by linear probing with wraparound; a
//! load-factor guard rebuilds the table at double capacity before any
//! insertion that would bring it to 50% load, so a free slot is always
//! reachable.

use crate::key::DictKey;
use vstd::prelude::*;
use vstd::set_lib::lemma_len_subset;
use vstd::set_lib::lemma_int_range;
use vstd::set_lib::set_int_range;

verus! {

/// Marker held by a routing slot that stores no address.
pub const FREE_SLOT: i64 = -1;

/// Returned by `get_position` for a key that was never inserted. It shares
/// the value of [`FREE_SLOT`] but names a different convention: "key absent",
/// not "slot unoccupied".
pub const NOT_FOUND: i64 = -1;

/// Whether `n` is a positive power of two.
pub open spec fn is_power_of_two(n: int) -> bool
    decreases n,
{
    if n <= 0 {
        false
    } else if n == 1 {
        true
    } else {
        n % 2 == 0 && is_power_of_two(n / 2)
    }
}

/// For a positive power of two `c`, masking with `c - 1` leaves no bit of `c`
/// itself: `c & (c - 1) == 0`, the standard characterization the masking
/// arithmetic rests on.
proof fn lemma_pow2_mask(c: u64)
    requires
        is_power_of_two(c as int),
    ensures
        c >= 1,
        c & ((c - 1) as u64) == 0,
    decreases c,
{
    if c == 1 {
        assert(c == 1 ==> c & ((c - 1) as u64) == 0) by (bit_vector);
    } else {
        let half = c / 2;
        lemma_pow2_mask(half);
        assert(c % 2 == 0 && half == c / 2 && half >= 1 && half & ((half - 1) as u64) == 0 ==> c
            & ((c - 1) as u64) == 0) by (bit_vector);
    }
}

/// Masking any value with `c - 1`, for a power of two `c`, folds it into
/// `[0, c)`; a value already below `c` is unchanged, and `c` itself folds to
/// zero (the wraparound step of linear probing).
proof fn lemma_mask_select(x: u64, c: u64)
    requires
        c >= 1,
        c & ((c - 1) as u64) == 0,
    ensures
        x & ((c - 1) as u64) < c,
        x < c ==> x & ((c - 1) as u64) == x,
        x == c ==> x & ((c - 1) as u64) == 0,
{
    let m: u64 = (c - 1) as u64;
    assert(c == m + 1 && c & m == 0 ==> (x & m < c && (x < c ==> x & m == x) && (x == c ==> x & m
        == 0))) by (bit_vector);
}

/// Halving by shift is division and doubling by shift is multiplication, for
/// values where the double fits.
proof fn lemma_shift_is_double(c: u64)
    ensures
        c >> 1u64 == c / 2,
        c <= u64::MAX / 2 ==> (c << 1u64) == 2 * c,
{
    assert(c >> 1u64 == c / 2) by (bit_vector);
    assert(c <= 0x7fff_ffff_ffff_ffffu64 ==> (c << 1u64) == 2 * c) by (bit_vector);
}

/// Doubling a power of two gives a power of two.
proof fn lemma_pow2_double(c: u64)
    requires
        is_power_of_two(c as int),
    ensures
        is_power_of_two(2 * c as int),
{
    assert((2 * c as int) % 2 == 0 && (2 * c as int) / 2 == c as int);
}

/// The routing slot reached `i` probe steps after slot `h`, in a table of
/// `cap` slots. Defined for `h` and `i` below `cap`, so the walk wraps at
/// most once.
spec fn slot_after(h: int, i: int, cap: int) -> int {
    if h + i < cap {
        h + i
    } else {
        h + i - cap
    }
}

/// How many probe steps lead from slot `h` to slot `s` in a table of `cap`
/// slots.
spec fn probe_distance(h: int, s: int, cap: int) -> int {
    if s >= h {
        s - h
    } else {
        s + cap - h
    }
}

/// The stored keys after `key` is interned into `s`: unchanged if an equal
/// key is already stored, extended by `key` otherwise.
pub open spec fn intern_one<K>(s: Seq<K>, key: K) -> Seq<K> {
    if s.contains(key) {
        s
    } else {
        s.push(key)
    }
}

/// The address `map` assigns to `key` against the stored keys `s`: the
/// address already holding an equal key, or the next free address.
pub open spec fn address_of<K>(s: Seq<K>, key: K) -> int {
    if s.contains(key) {
        s.index_of(key)
    } else {
        s.len() as int
    }
}

/// The position `get_position` reports for `key` against the stored keys `s`:
/// its address if stored, [`NOT_FOUND`] otherwise.
pub open spec fn position_of<K>(s: Seq<K>, key: K) -> int {
    if s.contains(key) {
        s.index_of(key)
    } else {
        NOT_FOUND as int
    }
}

/// In a sequence without duplicates, an index holding `key` is the one
/// `index_of` denotes.
pub proof fn lemma_index_of_unique<K>(s: Seq<K>, key: K, i: int)
    requires
        s.no_duplicates(),
        0 <= i < s.len(),
        s[i] == key,
    ensures
        s.contains(key),
        s.index_of(key) == i,
{
    assert(s.contains(key));
    let j = s.index_of(key);
    assert(0 <= j < s.len() && s[j] == key);
    if i != j {
        assert(false);
    }
}

/// What a probe for a key finds: the address of an equal stored key, or the
/// first free routing slot on the key's probe path.
enum ProbeOutcome {
    Present(u64),
    FreeAt(u64),
}

/// An open-addressing dictionary from keys to densely packed integer
/// addresses. `hash_table` is the routing array: `capacity` slots, each
/// [`FREE_SLOT`] or an index into `keys`. `keys` holds the stored keys in
/// first-insertion order; its length is `size`, which is also the next
/// address to assign.
pub struct Dictionary<K: DictKey> {
    capacity: u64,
    size: u64,
    hash_table: Vec<i64>,
    keys: Vec<K>,
}

impl<K: DictKey> View for Dictionary<K> {
    type V = Seq<K>;

    /// A dictionary abstracts to the sequence of its stored keys, indexed by
    /// address.
    closed spec fn view(&self) -> Seq<K> {
        self.keys@
    }
}

impl<K: DictKey> Dictionary<K> {
    /// The number of routing slots.
    pub closed spec fn capacity(&self) -> u64 {
        self.capacity
    }

    /// The home slot of key `k`: its hash folded into the slot range by
    /// bitmasking, valid because the capacity is a power of two.
    pub closed spec fn home_of(&self, k: K) -> int {
        (k.spec_hash() & ((self.capacity - 1) as u64)) as int
    }

    /// Every routing entry is [`FREE_SLOT`] or a valid address.
    spec fn entries_in_range(&self) -> bool {
        forall|s: int|
            0 <= s < self.hash_table@.len() ==> ((#[trigger] self.hash_table@[s]) == FREE_SLOT
                || (0 <= self.hash_table@[s] && self.hash_table@[s] < self.size as i64))
    }

    /// No two routing slots hold the same address.
    spec fn entries_injective(&self) -> bool {
        forall|s1: int, s2: int|
            0 <= s1 < self.hash_table@.len() && 0 <= s2 < self.hash_table@.len() && s1 != s2
                && (#[trigger] self.hash_table@[s1]) != FREE_SLOT ==> self.hash_table@[s1] != (
            #[trigger] self.hash_table@[s2])
    }

    /// Some routing slot holds address `a`.
    spec fn has_slot(&self, a: int) -> bool {
        exists|s: int|
            0 <= s < self.hash_table@.len() && (#[trigger] self.hash_table@[s]) == a as i64
    }

    /// Every address below `size` is held by some routing slot.
    spec fn all_addresses_routed(&self) -> bool {
        forall|a: int| 0 <= a < self.size as int ==> #[trigger] self.has_slot(a)
    }

    /// No slot on the probe path from slot `h` to slot `s` (exclusive) is
    /// free.
    spec fn path_occupied(&self, h: int, s: int) -> bool {
        forall|i: int|
            0 <= i < probe_distance(h, s, self.capacity as int) ==> self.hash_table@[#[trigger] slot_after(h, i, self.capacity as int)] != FREE_SLOT
    }

    /// The probe path of the key held at any occupied slot is fully occupied:
    /// walking from the key's home slot, no free slot is met before the slot
    /// that routes to it. This is what lets a probe that reaches a free slot
    /// conclude the key is absent.
    spec fn paths_unbroken(&self) -> bool {
        forall|s: int|
            0 <= s < self.hash_table@.len() && (#[trigger] self.hash_table@[s]) != FREE_SLOT
                ==> self.path_occupied(
                self.home_of(self.keys@[self.hash_table@[s] as int]),
                s,
            )
    }

    /// The invariant every operation preserves: the capacity is a positive
    /// power of two, the table is at most half full, every stored key is
    /// reachable by probing from its home slot, and no key is stored twice.
    pub closed spec fn wf(&self) -> bool {
        &&& is_power_of_two(self.capacity as int)
        &&& self.capacity <= usize::MAX as u64
        &&& self.size as int == self.keys@.len()
        &&& self.size <= self.capacity / 2
        &&& self.hash_table@.len() == self.capacity as int
        &&& self.entries_in_range()
        &&& self.entries_injective()
        &&& self.all_addresses_routed()
        &&& self.paths_unbroken()
        &&& self.keys@.no_duplicates()
    }

    /// Constructs a new empty dictionary of size 0 with the given initial
    /// capacity, which must be a positive power of two (the masking
    /// arithmetic is undefined otherwise).
    pub fn new(initial_capacity: u64) -> (d: Dictionary<K>)
        requires
            is_power_of_two(initial_capacity as int),
            initial_capacity <= usize::MAX as u64,
        ensures
            d.wf(),
            d@ == Seq::<K>::empty(),
            d.capacity() == initial_capacity,
    {
        let mut table: Vec<i64> = Vec::new();
        let mut i: u64 = 0;
        while i < initial_capacity
            invariant
                i <= initial_capacity,
                table@.len() == i as int,
                forall|s: int| 0 <= s < i as int ==> (#[trigger] table@[s]) == FREE_SLOT,
            decreases initial_capacity - i,
        {
            table.push(FREE_SLOT);
            i = i + 1;
        }
        Dictionary { capacity: initial_capacity, size: 0, hash_table: table, keys: Vec::new() }
    }

    /// Computes the hash of the given key, folded into the slot range by
    /// bitmasking.
    fn hash(&self, key: &K) -> (h: u64)
        requires
            self.wf(),
        ensures
            h as int == self.home_of(*key),
            (h as int) < self.capacity() as int,
    {
        proof {
            lemma_pow2_mask(self.capacity);
            lemma_mask_select(key.spec_hash(), self.capacity);
        }
        key.key_hash() & (self.capacity - 1)
    }

    /// From any slot, a probe of a well-formed table reaches a free slot in
    /// fewer than `capacity` steps: the occupied slots hold pairwise distinct
    /// addresses, so they number at most `size`, which is at most half the
    /// capacity.
    proof fn lemma_free_slot_reachable(&self, h: int)
        requires
            self.wf(),
            0 <= h < self.capacity as int,
        ensures
            exists|i: int|
                0 <= i < self.capacity as int && self.hash_table@[#[trigger] slot_after(
                    h,
                    i,
                    self.capacity as int,
                )] == FREE_SLOT,
    {
        let cap = self.capacity as int;
        if forall|i: int|
            0 <= i < cap ==> self.hash_table@[#[trigger] slot_after(h, i, cap)] != FREE_SLOT {
            assert forall|s: int| 0 <= s < cap implies self.hash_table@[s] != FREE_SLOT by {
                let i = probe_distance(h, s, cap);
                assert(slot_after(h, i, cap) == s);
            }
            let entries = Seq::new(cap as nat, |s: int| self.hash_table@[s] as int);
            assert(entries.no_duplicates()) by {
                assert forall|s1: int, s2: int|
                    0 <= s1 < entries.len() && 0 <= s2 < entries.len() && s1
                    != s2 implies entries[s1] != entries[s2] by {
                    assert(self.hash_table@[s1] != FREE_SLOT);
                    assert(self.hash_table@[s1] != self.hash_table@[s2]);
                }
            }
            entries.unique_seq_to_set();
            let addresses = set_int_range(0, self.size as int);
            assert(entries.to_set().subset_of(addresses)) by {
                assert forall|x: int| entries.to_set().contains(x) implies addresses.contains(
                    x,
                ) by {
                    let s = choose|s: int| 0 <= s < entries.len() && entries[s] == x;
                    assert(self.hash_table@[s] != FREE_SLOT);
                }
            }
            lemma_int_range(0, self.size as int);
            lemma_len_subset(entries.to_set(), addresses);
            assert(cap <= self.size as int);
        }
    }

    /// A probe that walked `j` occupied slots holding keys unequal to `key`
    /// and then reached a free slot proves the key absent: a stored equal key
    /// would have an unbroken occupied path from the same home slot, so its
    /// slot could neither lie before the free slot (its key would have been
    /// seen) nor at or beyond it (the path would be broken).
    proof fn lemma_probe_absent(&self, key: K, j: int)
        requires
            self.wf(),
            0 <= j < self.capacity as int,
            self.hash_table@[slot_after(self.home_of(key), j, self.capacity as int)] == FREE_SLOT,
            forall|i: int|
                0 <= i < j ==> self.hash_table@[#[trigger] slot_after(
                    self.home_of(key),
                    i,
                    self.capacity as int,
                )] != FREE_SLOT && self.keys@[self.hash_table@[slot_after(
                    self.home_of(key),
                    i,
                    self.capacity as int,
                )] as int] != key,
        ensures
            !self@.contains(key),
    {
        let cap = self.capacity as int;
        let h = self.home_of(key);
        lemma_pow2_mask(self.capacity);
        lemma_mask_select(key.spec_hash(), self.capacity);
        assert(0 <= h < cap);
        assert forall|a: int| 0 <= a < self.keys@.len() implies self.keys@[a] != key by {
            if self.keys@[a] == key {
                assert(self.has_slot(a));
                let s = choose|s: int|
                    0 <= s < self.hash_table@.len() && (#[trigger] self.hash_table@[s]) == a as i64;
                assert(self.path_occupied(h, s));
                let d = probe_distance(h, s, cap);
                assert(slot_after(h, d, cap) == s);
                if d < j {
                    assert(self.keys@[self.hash_table@[slot_after(h, d, cap)] as int] != key);
                    assert(false);
                } else if d == j {
                    assert(false);
                } else {
                    assert(self.hash_table@[slot_after(h, j, cap)] != FREE_SLOT);
                    assert(false);
                }
            }
        }
    }

    /// Probes for `key` from its home slot: inspects slots in linear-probing
    /// order until an equal stored key or a free slot is found. The table is
    /// never full, so the probe terminates.
    #[verifier::loop_isolation(false)]
    fn probe(&self, key: &K) -> (r: ProbeOutcome)
        requires
            self.wf(),
        ensures
            match r {
                ProbeOutcome::Present(a) => {
                    &&& (a as int) < self@.len()
                    &&& self@[a as int] == *key
                },
                ProbeOutcome::FreeAt(f) => {
                    &&& !self@.contains(*key)
                    &&& (f as int) < self.capacity() as int
                    &&& self.hash_table@[f as int] == FREE_SLOT
                    &&& self.path_occupied(self.home_of(*key), f as int)
                },
            },
    {
        let h = self.hash(key);
        let mut index = h;
        let mut j: u64 = 0;
        proof {
            lemma_pow2_mask(self.capacity);
        }
        loop
            invariant
                j < self.capacity,
                index as int == slot_after(h as int, j as int, self.capacity as int),
                index < self.capacity,
                forall|i: int|
                    0 <= i < j as int ==> self.hash_table@[#[trigger] slot_after(
                        h as int,
                        i,
                        self.capacity as int,
                    )] != FREE_SLOT && self.keys@[self.hash_table@[slot_after(
                        h as int,
                        i,
                        self.capacity as int,
                    )] as int] != *key,
            decreases self.capacity - j,
        {
            let address = self.hash_table[index as usize];
            if address == FREE_SLOT {
                proof {
                    self.lemma_probe_absent(*key, j as int);
                }
                return ProbeOutcome::FreeAt(index);
            }
            if self.keys[address as usize].key_eq(key) {
                return ProbeOutcome::Present(address as u64);
            }
            proof {
                if j as int + 1 == self.capacity as int {
                    self.lemma_free_slot_reachable(h as int);
                    let i = choose|i: int|
                        0 <= i < self.capacity as int && self.hash_table@[#[trigger] slot_after(
                            h as int,
                            i,
                            self.capacity as int,
                        )] == FREE_SLOT;
                    if i == j as int {
                        assert(slot_after(h as int, i, self.capacity as int) == index as int);
                    }
                    assert(false);
                }
                lemma_mask_select((index + 1) as u64, self.capacity);
            }
            j = j + 1;
            index = (index + 1) & (self.capacity - 1);
        }
    }

    /// Inserting a fresh key at a free slot on its own fully occupied probe
    /// path preserves well-formedness: existing routing entries keep their
    /// unbroken paths, since a slot only went from free to occupied, and the
    /// new entry's path is the one the probe just walked.
    proof fn lemma_insert_wf(pre: Self, post: Self, key: K, f: int)
        requires
            pre.wf(),
            (pre.size as int) < pre.capacity as int / 2,
            0 <= f < pre.capacity as int,
            pre.hash_table@[f] == FREE_SLOT,
            !pre.keys@.contains(key),
            pre.path_occupied(pre.home_of(key), f),
            post.capacity == pre.capacity,
            post.size == pre.size + 1,
            post.keys@ == pre.keys@.push(key),
            post.hash_table@ == pre.hash_table@.update(f, pre.size as i64),
        ensures
            post.wf(),
    {
        let cap = pre.capacity as int;
        assert forall|a: int| 0 <= a < post.size as int implies #[trigger] post.has_slot(a) by {
            if a < pre.size as int {
                assert(pre.has_slot(a));
                let s = choose|s: int|
                    0 <= s < pre.hash_table@.len() && (#[trigger] pre.hash_table@[s]) == a as i64;
                assert(post.hash_table@[s] == a as i64);
            } else {
                assert(post.hash_table@[f] == a as i64);
            }
        }
        assert forall|s: int|
            0 <= s < post.hash_table@.len() && (#[trigger] post.hash_table@[s])
                != FREE_SLOT implies post.path_occupied(
            post.home_of(post.keys@[post.hash_table@[s] as int]),
            s,
        ) by {
            if s == f {
                let h = pre.home_of(key);
                assert(post.keys@[post.hash_table@[s] as int] == key);
                assert forall|i: int|
                    0 <= i < probe_distance(h, s, cap) implies post.hash_table@[#[trigger] slot_after(
                    h,
                    i,
                    cap,
                )] != FREE_SLOT by {
                    assert(pre.hash_table@[slot_after(h, i, cap)] != FREE_SLOT);
                }
            } else {
                let a = pre.hash_table@[s] as int;
                let h = pre.home_of(pre.keys@[a]);
                assert(post.keys@[a] == pre.keys@[a]);
                assert(pre.path_occupied(h, s));
                assert forall|i: int|
                    0 <= i < probe_distance(h, s, cap) implies post.hash_table@[#[trigger] slot_after(
                    h,
                    i,
                    cap,
                )] != FREE_SLOT by {
                    assert(pre.hash_table@[slot_after(h, i, cap)] != FREE_SLOT);
                }
            }
        }
        assert(post.keys@.no_duplicates()) by {
            assert forall|i: int, j: int|
                0 <= i < post.keys@.len() && 0 <= j < post.keys@.len() && i
                != j implies post.keys@[i] != post.keys@[j] by {
                if j == pre.keys@.len() {
                    assert(post.keys@[i] == pre.keys@[i]);
                    if pre.keys@[i] == key {
                        assert(pre.keys@.contains(key));
                    }
                } else if i == pre.keys@.len() {
                    assert(post.keys@[j] == pre.keys@[j]);
                    if pre.keys@[j] == key {
                        assert(pre.keys@.contains(key));
                    }
                }
            }
        }
    }

    /// Inserts the key into the dictionary and returns its address. If the
    /// key is already in the dictionary, it simply returns its address.
    ///
    /// Before an insertion that would start at 50% load, the table is rebuilt
    /// at double the capacity; the doubled capacity must still be
    /// representable, which the precondition demands.
    pub fn map(&mut self, key: &K) -> (address: u64)
        requires
            old(self).wf(),
            old(self)@.len() >= old(self).capacity() as int / 2 ==> 2 * old(self).capacity() as int
                <= usize::MAX as int,
        ensures
            final(self).wf(),
            final(self)@ == intern_one(old(self)@, *key),
            address as int == address_of(old(self)@, *key),
            (address as int) < final(self)@.len(),
            final(self)@[address as int] == *key,
            final(self).capacity() >= old(self).capacity(),
            old(self)@.len() < old(self).capacity() as int / 2 ==> final(self).capacity() == old(
                self,
            ).capacity(),
            old(self)@.len() >= old(self).capacity() as int / 2 ==> final(self).capacity() as int
                == 2 * old(self).capacity() as int,
    {
        proof {
            lemma_shift_is_double(self.capacity);
        }
        // Double the table size if 50% full
        if self.size >= (self.capacity >> 1u64) {
            proof {
                lemma_pow2_double(self.capacity);
            }
            let new_capacity = self.capacity << 1u64;
            self.resize(new_capacity);
            proof {
                assert(old(self).capacity() >= 1);
                assert((self@.len() as int) < self.capacity as int / 2);
            }
        }
        self.place(key)
    }

    /// Inserts the key into a table known to be under 50% load, or returns
    /// the address of an equal stored key: the probe step of `map`, shared
    /// with the rebuild that `resize` performs.
    fn place(&mut self, key: &K) -> (address: u64)
        requires
            old(self).wf(),
            old(self)@.len() < old(self).capacity() as int / 2,
        ensures
            final(self).wf(),
            final(self)@ == intern_one(old(self)@, *key),
            address as int == address_of(old(self)@, *key),
            (address as int) < final(self)@.len(),
            final(self)@[address as int] == *key,
            final(self).capacity() == old(self).capacity(),
    {
        let ghost mid = *self;
        match self.probe(key) {
            ProbeOutcome::Present(address) => {
                proof {
                    assert(self@.contains(*key));
                    lemma_no_duplicate_keys(self);
                    lemma_index_of_unique(self@, *key, address as int);
                }
                address
            },
            ProbeOutcome::FreeAt(f) => {
                let new_address = self.size;
                self.keys.push(key.dup());
                let slot = f as usize;
                self.hash_table[slot] = new_address as i64;
                self.size = self.size + 1;
                proof {
                    Self::lemma_insert_wf(mid, *self, *key, f as int);
                    assert(self@ == intern_one(mid@, *key));
                }
                new_address
            },
        }
    }

    /// Resizes the hash table to the given capacity by re-hashing all of the
    /// keys, in address order, into a fresh table. The stored keys and their
    /// addresses are unchanged.
    #[verifier::loop_isolation(false)]
    fn resize(&mut self, new_capacity: u64)
        requires
            old(self).wf(),
            is_power_of_two(new_capacity as int),
            new_capacity <= usize::MAX as u64,
            old(self)@.len() <= new_capacity as int / 2,
        ensures
            final(self).wf(),
            final(self)@ == old(self)@,
            final(self).capacity() == new_capacity,
    {
        let mut tmp: Dictionary<K> = Dictionary::new(new_capacity);
        let mut i: u64 = 0;
        while i < self.size
            invariant
                tmp.wf(),
                tmp.capacity() == new_capacity,
                i <= self.size,
                tmp@ == self@.take(i as int),
            decreases self.size - i,
        {
            let ghost tmp_pre = tmp@;
            tmp.place(&self.keys[i as usize]);
            proof {
                if tmp_pre.contains(self.keys@[i as int]) {
                    let j = choose|j: int|
                        0 <= j < tmp_pre.len() && tmp_pre[j] == self.keys@[i as int];
                    assert(self.keys@[j] == self.keys@[i as int]);
                    assert(false);
                }
                assert(tmp@ =~= self@.take(i as int + 1));
            }
            i = i + 1;
        }
        proof {
            assert(self@.take(self.size as int) =~= self@);
        }
        let ghost tmp_snap = tmp;
        let Dictionary { capacity, size, hash_table, keys } = tmp;
        self.capacity = capacity;
        self.size = size;
        self.hash_table = hash_table;
        self.keys = keys;
        proof {
            assert(self.wf()) by {
                assert(*self == tmp_snap);
            }
        }
    }

    /// Gets the address of the key in the dictionary, if the key is stored.
    fn get(&self, key: &K) -> (r: Option<i64>)
        requires
            self.wf(),
        ensures
            match r {
                Some(pos) => self@.contains(*key) && 0 <= pos && (pos as int) < self@.len()
                    && self@[pos as int] == *key,
                None => !self@.contains(*key),
            },
    {
        match self.probe(key) {
            ProbeOutcome::Present(address) => {
                proof {
                    assert(self@.contains(*key));
                }
                Some(address as i64)
            },
            ProbeOutcome::FreeAt(_) => None,
        }
    }

    /// Gets the position of the key in the dictionary, or [`NOT_FOUND`] if
    /// the key was never inserted.
    pub fn get_position(&self, key: &K) -> (pos: i64)
        requires
            self.wf(),
        ensures
            pos as int == position_of(self@, *key),
            self@.contains(*key) ==> 0 <= pos && (pos as int) < self@.len() && self@[pos as int]
                == *key,
            !self@.contains(*key) ==> pos == NOT_FOUND,
    {
        match self.get(key) {
            None => NOT_FOUND,
            Some(pos) => {
                proof {
                    lemma_no_duplicate_keys(self);
                    lemma_index_of_unique(self@, *key, pos as int);
                }
                pos
            },
        }
    }

    /// Reads the key stored at the given dictionary position, or `None` if no
    /// key is stored there.
    pub fn read(&self, position: u64) -> (r: Option<&K>)
        requires
            self.wf(),
        ensures
            match r {
                Some(k) => (position as int) < self@.len() && *k == self@[position as int],
                None => position as int >= self@.len(),
            },
    {
        if position < self.size {
            Some(&self.keys[position as usize])
        } else {
            None
        }
    }
}

/// The stored keys of a well-formed dictionary are pairwise distinct: no key
/// is held at two addresses.
pub proof fn lemma_no_duplicate_keys<K: DictKey>(d: &Dictionary<K>)
    requires
        d.wf(),
    ensures
        d@.no_duplicates(),
{
}

} // verus!
