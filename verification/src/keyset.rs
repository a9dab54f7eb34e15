//! Operations on sets of keys.

use crate::keys::{is_modifier, spec_is_modifier, KeyCode};
use crate::rules::non_modifiers;
use std::collections::HashSet;
use vstd::prelude::*;
use vstd::seq_lib::lemma_seq_contains_after_push;
use vstd::std_specs::iter::IteratorSpec;

verus! {

broadcast use vstd::std_specs::hash::group_hash_axioms;

/// `keys` lists every key of `set` exactly once.
pub open spec fn enumerates(keys: Seq<KeyCode>, set: Set<KeyCode>) -> bool {
    keys.no_duplicates() && keys.to_set() == set
}

/// A rearrangement of a list that names every key of a set once does so
/// too.
pub proof fn lemma_enumerates_permutation(a: Seq<KeyCode>, b: Seq<KeyCode>, set: Set<KeyCode>)
    requires
        a.to_multiset() == b.to_multiset(),
        enumerates(a, set),
    ensures
        enumerates(b, set),
{
    a.lemma_multiset_has_no_duplicates();
    b.lemma_multiset_has_no_duplicates_conv();
    assert forall|k: KeyCode| b.to_set().contains(k) <==> set.contains(k) by {
        vstd::seq_lib::to_multiset_contains(a, k);
        vstd::seq_lib::to_multiset_contains(b, k);
    }
    assert(b.to_set() =~= set);
}

/// A set with the same keys as `keys`.
pub fn copy_key_set(keys: &HashSet<KeyCode>) -> (copy: HashSet<KeyCode>)
    ensures
        copy@ == keys@,
{
    let mut copy: HashSet<KeyCode> = HashSet::new();
    let ghost listed = keys.iter().remaining().unref();
    for k in it: keys.iter()
        invariant
            it.seq().unref() == listed,
            copy@ == listed.take(it.index()).to_set(),
    {
        proof {
            assert(listed[it.index()] == *k);
            assert(listed.take(it.index() + 1) =~= listed.take(it.index()).push(*k));
            listed.take(it.index()).lemma_push_to_set_commute(*k);
        }
        copy.insert(*k);
    }
    assert(listed.take(listed.len() as int) == listed);
    copy
}

/// The keys of `keys`, each once, in no particular order.
pub fn key_list(keys: &HashSet<KeyCode>) -> (list: Vec<KeyCode>)
    ensures
        enumerates(list@, keys@),
{
    let mut list: Vec<KeyCode> = Vec::new();
    let ghost listed = keys.iter().remaining().unref();
    for k in it: keys.iter()
        invariant
            it.seq().unref() == listed,
            list@ == listed.take(it.index()),
    {
        assert(listed[it.index()] == *k);
        assert(listed.take(it.index() + 1) =~= listed.take(it.index()).push(*k));
        list.push(*k);
    }
    assert(listed.take(listed.len() as int) == listed);
    list
}

/// Appends the keys of `more` to `list`, in their order.
pub fn append_keys(list: &mut Vec<KeyCode>, more: &Vec<KeyCode>)
    ensures
        final(list)@ == old(list)@ + more@,
{
    let ghost before = list@;
    let mut n: usize = 0;
    assert(before + more@.take(0) =~= before);
    while n < more.len()
        invariant
            n <= more.len(),
            list@ == before + more@.take(n as int),
        decreases more.len() - n,
    {
        assert(before + more@.take(n + 1) =~= (before + more@.take(n as int)).push(
            more@[n as int],
        ));
        list.push(more[n]);
        n = n + 1;
    }
    assert(more@.take(more.len() as int) =~= more@);
}

/// The set of the keys in `list`.
pub fn key_set_of(list: &Vec<KeyCode>) -> (keys: HashSet<KeyCode>)
    ensures
        keys@ == list@.to_set(),
{
    let mut keys: HashSet<KeyCode> = HashSet::new();
    assert(list@.to_set().union(Set::empty()) =~= list@.to_set());
    insert_keys(&mut keys, list);
    assert(Set::<KeyCode>::empty().union(list@.to_set()) =~= list@.to_set());
    keys
}

/// Adds every key of `list` to `keys`.
pub fn insert_keys(keys: &mut HashSet<KeyCode>, list: &Vec<KeyCode>)
    ensures
        final(keys)@ == old(keys)@.union(list@.to_set()),
{
    let ghost before = keys@;
    let mut n: usize = 0;
    assert(list@.take(0).to_set() =~= Set::empty());
    assert(before.union(Set::empty()) =~= before);
    while n < list.len()
        invariant
            n <= list.len(),
            keys@ == before.union(list@.take(n as int).to_set()),
        decreases list.len() - n,
    {
        proof {
            assert(list@.take(n + 1) =~= list@.take(n as int).push(list@[n as int]));
            list@.take(n as int).lemma_push_to_set_commute(list@[n as int]);
            assert(before.union(list@.take(n as int).to_set()).insert(list@[n as int])
                =~= before.union(list@.take(n + 1).to_set()));
        }
        keys.insert(list[n]);
        n = n + 1;
    }
    assert(list@.take(list.len() as int) =~= list@);
}

/// Whether every key of `part` is in `whole`.
pub fn is_subset(part: &HashSet<KeyCode>, whole: &HashSet<KeyCode>) -> (included: bool)
    ensures
        included == part@.subset_of(whole@),
{
    let ghost listed = part.iter().remaining().unref();
    let mut included = true;
    for k in it: part.iter()
        invariant
            it.seq().unref() == listed,
            listed.to_set() == part@,
            included == forall|j: int|
                0 <= j < it.index() ==> whole@.contains(#[trigger] listed[j]),
    {
        assert(listed[it.index()] == *k);
        if !whole.contains(k) {
            included = false;
        }
    }
    proof {
        if included {
            assert forall|key: KeyCode| part@.contains(key) implies whole@.contains(key) by {
                let j = choose|j: int| 0 <= j < listed.len() && listed[j] == key;
                assert(whole@.contains(listed[j]));
            }
        } else {
            let j = choose|j: int| 0 <= j < listed.len() && !whole@.contains(#[trigger] listed[j]);
            assert(part@.contains(listed[j]));
        }
    }
    included
}

/// The keys of `from` that are not in `without`, each once, in no
/// particular order.
pub fn difference(from: &HashSet<KeyCode>, without: &HashSet<KeyCode>) -> (list: Vec<KeyCode>)
    ensures
        enumerates(list@, from@.difference(without@)),
{
    let ghost listed = from.iter().remaining().unref();
    let mut list: Vec<KeyCode> = Vec::new();
    for k in it: from.iter()
        invariant
            it.seq().unref() == listed,
            listed.no_duplicates(),
            listed.to_set() == from@,
            list@.no_duplicates(),
            forall|key: KeyCode| #[trigger]
                list@.contains(key) <==> listed.take(it.index()).contains(key)
                    && !without@.contains(key),
    {
        let ghost seen = listed.take(it.index());
        let ghost held = list@;
        proof {
            assert(listed[it.index()] == *k);
            assert(listed.take(it.index() + 1) =~= seen.push(*k));
            assert(!seen.contains(*k));
            assert forall|key: KeyCode|
                listed.take(it.index() + 1).contains(key) <==> seen.contains(key) || key
                    == *k by {
                lemma_seq_contains_after_push(seen, *k, key);
            }
        }
        if !without.contains(k) {
            assert(!held.contains(*k));
            list.push(*k);
            proof {
                assert(list@ == held.push(*k));
                assert forall|i: int, j: int| 0 <= i < j < list@.len() implies list@[i]
                    != list@[j] by {
                    if j == held.len() {
                        assert(held[i] == list@[i]);
                    }
                }
                assert forall|key: KeyCode| #[trigger]
                    list@.contains(key) <==> held.contains(key) || key == *k by {
                    lemma_seq_contains_after_push(held, *k, key);
                }
            }
        }
    }
    proof {
        assert(listed.take(listed.len() as int) =~= listed);
        assert(list@.to_set() =~= from@.difference(without@));
    }
    list
}

/// Takes a chord's keys out of `keys`, and its non-modifiers out of
/// `eligible`.
pub fn consume_chord(
    keys: &mut HashSet<KeyCode>,
    eligible: &mut HashSet<KeyCode>,
    input: &HashSet<KeyCode>,
)
    ensures
        final(keys)@ == old(keys)@.difference(input@),
        final(eligible)@ == old(eligible)@.difference(non_modifiers(input@)),
{
    let ghost listed = input.iter().remaining().unref();
    let ghost keys_before = keys@;
    let ghost eligible_before = eligible@;
    assert(listed.take(0).to_set() =~= Set::empty());
    assert(keys_before.difference(Set::empty()) =~= keys_before);
    assert(eligible_before.difference(non_modifiers(Set::empty())) =~= eligible_before);
    for k in it: input.iter()
        invariant
            it.seq().unref() == listed,
            listed.to_set() == input@,
            keys@ == keys_before.difference(listed.take(it.index()).to_set()),
            eligible@ == eligible_before.difference(
                non_modifiers(listed.take(it.index()).to_set()),
            ),
    {
        let ghost seen = listed.take(it.index());
        proof {
            assert(listed[it.index()] == *k);
            assert(listed.take(it.index() + 1) =~= seen.push(*k));
            seen.lemma_push_to_set_commute(*k);
            assert(keys_before.difference(seen.to_set()).remove(*k) =~= keys_before.difference(
                seen.to_set().insert(*k),
            ));
            if spec_is_modifier(*k) {
                assert(non_modifiers(seen.to_set().insert(*k)) =~= non_modifiers(seen.to_set()));
            } else {
                assert(eligible_before.difference(non_modifiers(seen.to_set())).remove(*k)
                    =~= eligible_before.difference(non_modifiers(seen.to_set().insert(*k))));
            }
        }
        keys.remove(k);
        if !is_modifier(k) {
            eligible.remove(k);
        }
    }
    assert(listed.take(listed.len() as int) =~= listed);
}

/// Adds a chord's output to `keys`, and takes its non-modifiers out of
/// `eligible`.
pub fn produce_output(
    keys: &mut HashSet<KeyCode>,
    eligible: &mut HashSet<KeyCode>,
    output: &HashSet<KeyCode>,
)
    ensures
        final(keys)@ == old(keys)@.union(output@),
        final(eligible)@ == old(eligible)@.difference(non_modifiers(output@)),
{
    let ghost listed = output.iter().remaining().unref();
    let ghost keys_before = keys@;
    let ghost eligible_before = eligible@;
    assert(listed.take(0).to_set() =~= Set::empty());
    assert(keys_before.union(Set::empty()) =~= keys_before);
    assert(eligible_before.difference(non_modifiers(Set::empty())) =~= eligible_before);
    for k in it: output.iter()
        invariant
            it.seq().unref() == listed,
            listed.to_set() == output@,
            keys@ == keys_before.union(listed.take(it.index()).to_set()),
            eligible@ == eligible_before.difference(
                non_modifiers(listed.take(it.index()).to_set()),
            ),
    {
        let ghost seen = listed.take(it.index());
        proof {
            assert(listed[it.index()] == *k);
            assert(listed.take(it.index() + 1) =~= seen.push(*k));
            seen.lemma_push_to_set_commute(*k);
            assert(keys_before.union(seen.to_set()).insert(*k) =~= keys_before.union(
                seen.to_set().insert(*k),
            ));
            if spec_is_modifier(*k) {
                assert(non_modifiers(seen.to_set().insert(*k)) =~= non_modifiers(seen.to_set()));
            } else {
                assert(eligible_before.difference(non_modifiers(seen.to_set())).remove(*k)
                    =~= eligible_before.difference(non_modifiers(seen.to_set().insert(*k))));
            }
        }
        keys.insert(*k);
        if !is_modifier(k) {
            eligible.remove(k);
        }
    }
    assert(listed.take(listed.len() as int) =~= listed);
}

} // verus!
