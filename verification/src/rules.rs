//! The meaning of a rule set: which rule a key resolves to, and which keys
//! the virtual keyboard should hold for a given set of physical keys.

use crate::keys::{spec_is_modifier, KeyCode};
use crate::mapping::MappingView;
use vstd::prelude::*;

verus! {

/// The rule at `i` is a dual-role rule triggered by `code`.
pub open spec fn is_dual_role_at(rules: Seq<MappingView>, code: KeyCode, i: int) -> bool {
    &&& 0 <= i < rules.len()
    &&& rules[i] matches MappingView::DualRole { input, .. }
    &&& input == code
}

/// The rule at `i` is the first dual-role rule triggered by `code`.
pub open spec fn is_first_dual_role(rules: Seq<MappingView>, code: KeyCode, i: int) -> bool {
    &&& is_dual_role_at(rules, code, i)
    &&& forall|j: int| 0 <= j < i ==> !is_dual_role_at(rules, code, j)
}

/// The first dual-role rule triggered by `code`, if there is one.
pub open spec fn dual_role_for(rules: Seq<MappingView>, code: KeyCode) -> Option<int> {
    if exists|i: int| is_first_dual_role(rules, code, i) {
        Some(choose|i: int| is_first_dual_role(rules, code, i))
    } else {
        None
    }
}

/// The rule at `i` is a chord that holds `code` and whose other keys are all
/// among `pressed`.
pub open spec fn is_chord_candidate(
    rules: Seq<MappingView>,
    pressed: Set<KeyCode>,
    code: KeyCode,
    i: int,
) -> bool {
    &&& 0 <= i < rules.len()
    &&& rules[i] matches MappingView::Remap { input, .. }
    &&& input.contains(code)
    &&& input.remove(code).subset_of(pressed)
}

/// The number of keys in the chord of the rule at `i`.
pub open spec fn chord_size(rules: Seq<MappingView>, i: int) -> nat {
    match rules[i] {
        MappingView::Remap { input, .. } => input.len(),
        MappingView::DualRole { .. } => 0,
    }
}

/// The rule at `i` is the most specific chord candidate: no candidate has a
/// larger chord, and no earlier candidate has one as large.
pub open spec fn is_best_chord(
    rules: Seq<MappingView>,
    pressed: Set<KeyCode>,
    code: KeyCode,
    i: int,
) -> bool {
    &&& is_chord_candidate(rules, pressed, code, i)
    &&& forall|j: int|
        is_chord_candidate(rules, pressed, code, j) ==> chord_size(rules, j) <= chord_size(
            rules,
            i,
        )
    &&& forall|j: int|
        0 <= j < i && is_chord_candidate(rules, pressed, code, j) ==> chord_size(rules, j)
            < chord_size(rules, i)
}

/// The rule that a key resolves to while the keys `pressed` are down.
///
/// A dual-role rule triggered by the key wins over every chord, the first
/// such rule over later ones. Failing that, the chord candidate with the
/// largest chord wins, the earliest among those of equal size. `None` means
/// that the key is passed through.
pub open spec fn resolve(rules: Seq<MappingView>, pressed: Set<KeyCode>, code: KeyCode) -> Option<
    int,
> {
    if dual_role_for(rules, code) is Some {
        dual_role_for(rules, code)
    } else if exists|i: int| is_best_chord(rules, pressed, code, i) {
        Some(choose|i: int| is_best_chord(rules, pressed, code, i))
    } else {
        None
    }
}

/// Whether `rule` can make the engine write `key`: as a hold or tap key of
/// a dual-role rule, or as an output key of a chord.
pub open spec fn rule_emits(rule: MappingView, key: KeyCode) -> bool {
    match rule {
        MappingView::DualRole { hold, tap, .. } => hold.contains(key) || tap.contains(key),
        MappingView::Remap { output, .. } => output.contains(key),
    }
}

/// Whether one of the first `n` rules can make the engine write `key`.
pub open spec fn emitted_by_first(rules: Seq<MappingView>, n: int, key: KeyCode) -> bool {
    exists|i: int| 0 <= i < n && i < rules.len() && rule_emits(#[trigger] rules[i], key)
}

/// The keys that some rule of `rules` can make the engine write.
pub open spec fn emitted_keys(rules: Seq<MappingView>) -> Set<KeyCode> {
    Set::new(|key: KeyCode| emitted_by_first(rules, rules.len() as int, key))
}

/// The first `n + 1` rules write what the first `n` write and what the rule
/// at `n` writes.
pub proof fn lemma_emitted_by_next(rules: Seq<MappingView>, n: int, key: KeyCode)
    requires
        0 <= n < rules.len(),
    ensures
        emitted_by_first(rules, n + 1, key) <==> emitted_by_first(rules, n, key) || rule_emits(
            rules[n],
            key,
        ),
{
    if emitted_by_first(rules, n + 1, key) {
        let i = choose|i: int| 0 <= i < n + 1 && i < rules.len() && rule_emits(
            #[trigger] rules[i],
            key,
        );
        if i < n {
            assert(emitted_by_first(rules, n, key));
        }
    }
    if rule_emits(rules[n], key) {
        assert(emitted_by_first(rules, n + 1, key));
    }
    if emitted_by_first(rules, n, key) {
        let i = choose|i: int| 0 <= i < n && i < rules.len() && rule_emits(
            #[trigger] rules[i],
            key,
        );
        assert(rule_emits(rules[i], key));
    }
}

/// What one rule does in the first pass: a dual-role rule whose trigger is
/// among `keys` replaces it by its hold keys.
pub open spec fn dual_role_step(keys: Set<KeyCode>, rule: MappingView) -> Set<KeyCode> {
    match rule {
        MappingView::DualRole { input, hold, .. } => if keys.contains(input) {
            keys.remove(input).union(hold.to_set())
        } else {
            keys
        },
        MappingView::Remap { .. } => keys,
    }
}

/// The first pass: every rule in turn, from the first to the last.
pub open spec fn apply_dual_roles(rules: Seq<MappingView>, keys: Set<KeyCode>) -> Set<KeyCode>
    decreases rules.len(),
{
    if rules.len() == 0 {
        keys
    } else {
        dual_role_step(apply_dual_roles(rules.drop_last(), keys), rules.last())
    }
}

/// The keys of `keys` that are no modifiers.
pub open spec fn non_modifiers(keys: Set<KeyCode>) -> Set<KeyCode> {
    keys.filter(|k: KeyCode| !spec_is_modifier(k))
}

/// The two sets of the second pass: the keys to hold, and the keys that a
/// chord may still be made of.
pub struct ChordState {
    pub keys: Set<KeyCode>,
    pub eligible: Set<KeyCode>,
}

/// What one rule does in the second pass: a chord that lies wholly within
/// the eligible keys is replaced by its output, and the non-modifiers of
/// both sides stop being eligible. Modifiers stay eligible, so one held
/// modifier can serve several chords.
pub open spec fn chord_step(state: ChordState, rule: MappingView) -> ChordState {
    match rule {
        MappingView::Remap { input, output } => if input.subset_of(state.eligible) {
            ChordState {
                keys: state.keys.difference(input).union(output),
                eligible: state.eligible.difference(non_modifiers(input)).difference(
                    non_modifiers(output),
                ),
            }
        } else {
            state
        },
        MappingView::DualRole { .. } => state,
    }
}

/// The second pass: every rule in turn, from the first to the last.
pub open spec fn apply_chords(rules: Seq<MappingView>, state: ChordState) -> ChordState
    decreases rules.len(),
{
    if rules.len() == 0 {
        state
    } else {
        chord_step(apply_chords(rules.drop_last(), state), rules.last())
    }
}

/// The keys that the virtual keyboard should hold while the physical keys
/// `pressed` are down.
pub open spec fn desired_keys(rules: Seq<MappingView>, pressed: Set<KeyCode>) -> Set<KeyCode> {
    let keys = apply_dual_roles(rules, pressed);
    apply_chords(rules, ChordState { keys, eligible: keys }).keys
}

} // verus!
