//! Facts that relate several operations, proved over the models that the
//! operations' contracts use.
use vstd::prelude::*;

use crate::cursor::{moved_to_front, pairs_of, saved_after_removal};
use crate::map::{distinct_keys, key_position, keys_of, LinkedMap};

verus! {

/// Walking the map tail to head (`iter_rev`) meets the keys of a head-to-tail
/// walk (`iter`) in reverse order.
pub proof fn lemma_walks_are_reversed<V>(
    m: &LinkedMap<V>,
    forward: Seq<(&u64, &V)>,
    backward: Seq<(&u64, &V)>,
)
    requires
        m.wf(),
        pairs_of(forward) == m@,
        pairs_of(backward) == m@.reverse(),
    ensures
        keys_of(pairs_of(backward)) == keys_of(pairs_of(forward)).reverse(),
{
    assert(keys_of(pairs_of(backward)) =~= keys_of(pairs_of(forward)).reverse());
}

/// Moving the node at position `p` to the front and then moving it to the
/// front again, where the cursor now stands, changes nothing more.
pub proof fn lemma_move_to_front_twice<V>(s: Seq<(u64, V)>, p: int)
    requires
        0 <= p < s.len(),
    ensures
        moved_to_front(moved_to_front(s, p), 0) == moved_to_front(s, p),
{
    assert(moved_to_front(moved_to_front(s, p), 0) =~= moved_to_front(s, p));
}

/// Removing the entry at `p` leaves one entry fewer, and its key is no
/// longer found.
pub proof fn lemma_removal_shrinks<V>(m: &LinkedMap<V>, p: int)
    requires
        m.wf(),
        0 <= p < m@.len(),
    ensures
        m@.remove(p).len() == m@.len() - 1,
        key_position(m@.remove(p), m@[p].0) is None,
{
    m.lemma_index_matches_list();
    let s = m@;
    let r = s.remove(p);
    assert(distinct_keys(s)) by {
        assert forall|i: int, j: int| 0 <= i < s.len() && 0 <= j < s.len() && i != j implies #[trigger] s[i].0
            != #[trigger] s[j].0 by {
            assert(keys_of(s)[i] == s[i].0);
            assert(keys_of(s)[j] == s[j].0);
        }
    }
    assert forall|i: int| 0 <= i < r.len() implies #[trigger] r[i].0 != s[p].0 by {
        if i < p {
            assert(r[i] == s[i]);
        } else {
            assert(r[i] == s[i + 1]);
        }
    }
}

/// The saved node is always in the map, where `resume` finds it; removing it
/// clears the saved position, while removing another node keeps it.
pub proof fn lemma_saved_position<V>(m: &LinkedMap<V>, p: int)
    requires
        m.wf(),
        0 <= p < m@.len(),
    ensures
        m.saved_key() matches Some(k) ==> key_position(m@, k) matches Some(i) && m@[i].0 == k,
        saved_after_removal(Some(m@[p].0), m@[p].0) is None,
        forall|k: u64|
            m.saved_key() == Some(k) && k != m@[p].0 ==> saved_after_removal(m.saved_key(), m@[p].0)
                == Some(k) && #[trigger] key_position(m@.remove(p), k) is Some,
{
    m.lemma_saved_in_map();
    if let Some(k) = m.saved_key() {
        let i = choose|i: int| 0 <= i < m@.len() && #[trigger] m@[i].0 == k;
        if k != m@[p].0 {
            let j = if i < p { i } else { i - 1 };
            assert(m@.remove(p)[j].0 == k);
        }
    }
}

/// After `save` on the node holding `kx`, any run of inserts and reorders —
/// each of which keeps the saved key, as their contracts state — leaves `kx`
/// saved and in the map, so `resume` comes back to the node holding `kx`.
pub proof fn lemma_saved_survives_changes<V>(states: Seq<LinkedMap<V>>, kx: u64)
    requires
        states.len() > 0,
        forall|i: int| 0 <= i < states.len() ==> (#[trigger] states[i]).wf(),
        states[0].saved_key() == Some(kx),
        forall|i: int|
            0 < i < states.len() ==> (#[trigger] states[i]).saved_key() == states[i - 1].saved_key(),
    ensures
        states.last().saved_key() == Some(kx),
        key_position(states.last()@, kx) matches Some(j) && states.last()@[j].0 == kx,
    decreases states.len(),
{
    if states.len() > 1 {
        let shorter = states.drop_last();
        assert(shorter.last() == states[states.len() - 2]);
        lemma_saved_survives_changes(shorter, kx);
    }
    states.last().lemma_saved_in_map();
}

/// Inserting a key that is already at position `j` only replaces its value:
/// the keys keep their order.
pub proof fn lemma_update_in_place<V>(s: Seq<(u64, V)>, j: int, v: V)
    requires
        0 <= j < s.len(),
    ensures
        keys_of(s.update(j, (s[j].0, v))) == keys_of(s),
        s.update(j, (s[j].0, v))[j].1 == v,
{
    assert(keys_of(s.update(j, (s[j].0, v))) =~= keys_of(s));
}

} // verus!
