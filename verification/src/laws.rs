//! The laws the dictionary obeys, stated and proved over the model its
//! contracts use: the sequence of stored keys, and the spec functions
//! [`intern_one`], [`address_of`] and [`position_of`] that `map` and
//! `get_position` are pinned to. Each law holds of every well-formed
//! dictionary, whose view has no duplicate keys (see
//! [`crate::dictionary::lemma_no_duplicate_keys`]).

use crate::dictionary::address_of;
use crate::dictionary::intern_one;
use crate::dictionary::lemma_index_of_unique;
use crate::dictionary::position_of;
use crate::dictionary::NOT_FOUND;
use vstd::prelude::*;

verus! {

/// Determinism and idempotence: interning a key that is already stored
/// changes nothing — neither the count of stored keys nor any key's address —
/// and yields the same address on every later call.
pub proof fn lemma_map_idempotent<K>(s: Seq<K>, key: K)
    requires
        s.contains(key),
    ensures
        intern_one(s, key) == s,
        address_of(intern_one(s, key), key) == address_of(s, key),
{
}

/// Injectivity: two distinct stored keys have distinct addresses.
pub proof fn lemma_addresses_injective<K>(s: Seq<K>, k1: K, k2: K)
    requires
        s.contains(k1),
        s.contains(k2),
        k1 != k2,
    ensures
        address_of(s, k1) != address_of(s, k2),
{
    let a1 = address_of(s, k1);
    let a2 = address_of(s, k2);
    assert(s[a1] == k1);
    assert(s[a2] == k2);
}

/// The keys stored after a sequence of insertions, in order: each key is
/// interned into the result of interning all the ones before it.
pub open spec fn intern_all<K>(keys: Seq<K>) -> Seq<K>
    decreases keys.len(),
{
    if keys.len() == 0 {
        Seq::empty()
    } else {
        intern_one(intern_all(keys.drop_last()), keys.last())
    }
}

/// Density: interning `n` distinct keys into an empty dictionary stores
/// exactly those keys in insertion order, and the i-th receives address `i` —
/// the set of assigned addresses is exactly `{0, ..., n-1}`.
pub proof fn lemma_density<K>(keys: Seq<K>)
    requires
        keys.no_duplicates(),
    ensures
        intern_all(keys) == keys,
        forall|i: int|
            0 <= i < keys.len() ==> address_of(intern_all(#[trigger] keys.take(i)), keys[i]) == i,
    decreases keys.len(),
{
    if keys.len() == 0 {
        assert(intern_all(keys) =~= keys);
    } else {
        let front = keys.drop_last();
        let last = keys.last();
        assert(front.no_duplicates()) by {
            assert forall|i: int, j: int|
                0 <= i < front.len() && 0 <= j < front.len() && i != j implies front[i]
                != front[j] by {
                assert(front[i] == keys[i]);
                assert(front[j] == keys[j]);
            }
        }
        lemma_density(front);
        if front.contains(last) {
            let j = choose|j: int| 0 <= j < front.len() && front[j] == last;
            assert(keys[j] == keys[keys.len() - 1]);
            assert(false);
        }
        assert(intern_all(keys) =~= keys);
        assert forall|i: int|
            0 <= i < keys.len() implies address_of(intern_all(#[trigger] keys.take(i)), keys[i])
            == i by {
            assert(keys.take(i) =~= front.take(i));
            if i < keys.len() - 1 {
                assert(address_of(intern_all(front.take(i)), front[i]) == i);
                assert(front[i] == keys[i]);
            } else {
                assert(front.take(i) =~= front);
                assert(intern_all(front) == front);
                assert(address_of(front, last) == front.len());
            }
        }
    }
}

/// Round trip: the key stored at address `a` is read back at `a` and is the
/// unique key whose reported position and assigned address are `a`.
pub proof fn lemma_round_trip<K>(s: Seq<K>, a: int)
    requires
        s.no_duplicates(),
        0 <= a < s.len(),
    ensures
        position_of(s, s[a]) == a,
        address_of(s, s[a]) == a,
{
    lemma_index_of_unique(s, s[a], a);
}

/// Absence: a key never inserted has no position — its reported position is
/// [`NOT_FOUND`], distinct from every assigned address.
pub proof fn lemma_absent_not_found<K>(s: Seq<K>, key: K)
    requires
        !s.contains(key),
    ensures
        position_of(s, key) == NOT_FOUND as int,
        position_of(s, key) < 0,
{
}

/// Resize transparency: interning one more key keeps the stored keys
/// pairwise distinct, keeps every already-stored key, and moves no
/// already-assigned address — whether or not the insertion triggers an
/// internal rebuild, which the contract of `map` hides behind the same view
/// transition.
pub proof fn lemma_intern_preserves<K>(s: Seq<K>, key: K, stored: K)
    requires
        s.no_duplicates(),
        s.contains(stored),
    ensures
        intern_one(s, key).no_duplicates(),
        intern_one(s, key).contains(stored),
        intern_one(s, key).contains(key),
        address_of(intern_one(s, key), stored) == address_of(s, stored),
{
    if !s.contains(key) {
        let t = s.push(key);
        assert(t.no_duplicates()) by {
            assert forall|i: int, j: int|
                0 <= i < t.len() && 0 <= j < t.len() && i != j implies t[i] != t[j] by {
                if j == s.len() {
                    assert(t[i] == s[i]);
                    if s[i] == key {
                        assert(s.contains(key));
                    }
                } else if i == s.len() {
                    assert(t[j] == s[j]);
                    if s[j] == key {
                        assert(s.contains(key));
                    }
                }
            }
        }
        let i = s.index_of(stored);
        assert(s[i] == stored);
        assert(t[i] == stored);
        assert(t.contains(stored));
        lemma_index_of_unique(t, stored, i);
        assert(t[s.len() as int] == key);
        assert(t.contains(key));
    }
}

} // verus!

