//! Remap rules and their mathematical view.

use crate::keys::KeyCode;
use crate::keyset::{copy_key_set, key_set_of};
use std::collections::HashSet;
use vstd::prelude::*;

verus! {

/// One remap rule.
///
/// A `DualRole` key stands for its `hold` keys while it is held and for its
/// `tap` keys when it is pressed and released briefly. A `Remap` replaces a
/// chord, a set of keys that are down together, by its `output` keys.
#[derive(Debug, PartialEq, Eq)]
#[allow(inconsistent_fields)]
pub enum Mapping {
    DualRole { input: KeyCode, hold: Vec<KeyCode>, tap: Vec<KeyCode> },
    Remap { input: HashSet<KeyCode>, output: HashSet<KeyCode> },
}

/// What a rule says, as plain sequences and sets.
#[allow(inconsistent_fields)]
pub enum MappingView {
    DualRole { input: KeyCode, hold: Seq<KeyCode>, tap: Seq<KeyCode> },
    Remap { input: Set<KeyCode>, output: Set<KeyCode> },
}

impl View for Mapping {
    type V = MappingView;

    open spec fn view(&self) -> MappingView {
        match *self {
            Mapping::DualRole { input, hold, tap } => MappingView::DualRole {
                input,
                hold: hold@,
                tap: tap@,
            },
            Mapping::Remap { input, output } => MappingView::Remap {
                input: input@,
                output: output@,
            },
        }
    }
}

impl Clone for Mapping {
    fn clone(&self) -> (copy: Mapping)
        ensures
            copy@ == self@,
    {
        match self {
            Mapping::DualRole { input, hold, tap } => Mapping::DualRole {
                input: *input,
                hold: hold.clone(),
                tap: tap.clone(),
            },
            Mapping::Remap { input, output } => Mapping::Remap {
                input: copy_key_set(input),
                output: copy_key_set(output),
            },
        }
    }
}

/// The views of a list of rules, in the same order.
pub open spec fn rules_view(rules: Seq<Mapping>) -> Seq<MappingView> {
    rules.map_values(|m: Mapping| m@)
}

impl MappingView {
    /// A chord rule names at least one key on each side.
    pub open spec fn well_formed(self) -> bool {
        match self {
            MappingView::DualRole { .. } => true,
            MappingView::Remap { input, output } => {
                &&& input.finite()
                &&& output.finite()
                &&& input.len() > 0
                &&& output.len() > 0
            },
        }
    }

    /// Whether the rule is triggered by, or has in its chord, the key `code`.
    pub open spec fn reads(self, code: KeyCode) -> bool {
        match self {
            MappingView::DualRole { input, .. } => input == code,
            MappingView::Remap { input, .. } => input.contains(code),
        }
    }
}

/// Why a configuration was refused.
#[derive(Debug)]
pub enum ConfigError {
    /// The name is the name of no key.
    InvalidKey(String),
    /// The name was found, but what it names is no key.
    ImpossibleParseKey,
}

/// What the key vocabulary says of a name.
#[derive(Clone, Copy, Debug, PartialEq, Eq, Structural)]
pub enum KeyLookup {
    /// The name of this key.
    Key(KeyCode),
    /// A name of the vocabulary, but of something that is no key.
    NotAKey,
    /// No name of the vocabulary.
    Unknown,
}

/// A key as a configuration names it, once its name has been looked up.
#[derive(Clone, Copy, Debug, PartialEq, Eq, Structural)]
pub struct KeyCodeWrapper {
    pub code: KeyCode,
}

/// The keys of a list of looked-up names, in the same order.
pub open spec fn codes_of(keys: Seq<KeyCodeWrapper>) -> Seq<KeyCode> {
    keys.map_values(|w: KeyCodeWrapper| w.code)
}

impl KeyCodeWrapper {
    /// The key.
    pub fn into(self) -> (code: KeyCode)
        ensures
            code == self.code,
    {
        self.code
    }

    /// Accepts the name `s` if the vocabulary knows it as a key, and says
    /// why not otherwise.
    pub fn try_from(s: String, found: KeyLookup) -> (key: Result<KeyCodeWrapper, ConfigError>)
        ensures
            match found {
                KeyLookup::Key(code) => key == Ok::<KeyCodeWrapper, ConfigError>(
                    KeyCodeWrapper { code },
                ),
                KeyLookup::NotAKey => key == Err::<KeyCodeWrapper, ConfigError>(
                    ConfigError::ImpossibleParseKey,
                ),
                KeyLookup::Unknown => key == Err::<KeyCodeWrapper, ConfigError>(
                    ConfigError::InvalidKey(s),
                ),
            },
    {
        match found {
            KeyLookup::Key(code) => Ok(KeyCodeWrapper { code }),
            KeyLookup::NotAKey => Err(ConfigError::ImpossibleParseKey),
            KeyLookup::Unknown => Err(ConfigError::InvalidKey(s)),
        }
    }
}

/// A dual-role rule as a configuration states it.
#[derive(Debug)]
pub struct DualRoleConfig {
    pub input: KeyCodeWrapper,
    pub hold: Vec<KeyCodeWrapper>,
    pub tap: Vec<KeyCodeWrapper>,
}

/// A chord rule as a configuration states it. A key that is named twice on
/// one side counts once.
#[derive(Debug)]
pub struct RemapConfig {
    pub input: Vec<KeyCodeWrapper>,
    pub output: Vec<KeyCodeWrapper>,
}

/// The keys of `keys`, in the same order.
fn unwrap_keys(keys: &Vec<KeyCodeWrapper>) -> (codes: Vec<KeyCode>)
    ensures
        codes@ == codes_of(keys@),
{
    let mut codes: Vec<KeyCode> = Vec::new();
    let mut n: usize = 0;
    while n < keys.len()
        invariant
            n <= keys.len(),
            codes@ == codes_of(keys@.take(n as int)),
        decreases keys.len() - n,
    {
        assert(codes_of(keys@.take(n + 1)) =~= codes_of(keys@.take(n as int)).push(
            keys@[n as int].code,
        ));
        codes.push(keys[n].into());
        n = n + 1;
    }
    assert(keys@.take(keys.len() as int) =~= keys@);
    codes
}

impl DualRoleConfig {
    /// The rule that this configuration states.
    pub open spec fn rule(&self) -> MappingView {
        MappingView::DualRole {
            input: self.input.code,
            hold: codes_of(self.hold@),
            tap: codes_of(self.tap@),
        }
    }

    /// Turns the configuration into its rule.
    pub fn into(self) -> (mapping: Mapping)
        ensures
            mapping@ == self.rule(),
    {
        Mapping::DualRole {
            input: self.input.into(),
            hold: unwrap_keys(&self.hold),
            tap: unwrap_keys(&self.tap),
        }
    }
}

impl RemapConfig {
    /// The rule that this configuration states.
    pub open spec fn rule(&self) -> MappingView {
        MappingView::Remap {
            input: codes_of(self.input@).to_set(),
            output: codes_of(self.output@).to_set(),
        }
    }

    /// Turns the configuration into its rule.
    pub fn into(self) -> (mapping: Mapping)
        ensures
            mapping@ == self.rule(),
    {
        Mapping::Remap {
            input: key_set_of(&unwrap_keys(&self.input)),
            output: key_set_of(&unwrap_keys(&self.output)),
        }
    }
}

/// A configuration as it is written down: the device to remap and the
/// rules, the dual-role rules apart from the chords.
#[derive(Debug)]
pub struct ConfigFile {
    pub device_name: String,
    pub phys: Option<String>,
    pub dual_role: Vec<DualRoleConfig>,
    pub remap: Vec<RemapConfig>,
}

/// A configuration ready for use: the device to remap and the rule set.
#[derive(Debug, Clone)]
pub struct MappingConfig {
    pub device_name: String,
    pub phys: Option<String>,
    pub mappings: Vec<Mapping>,
}

/// The rules that a configuration states, in the order of the rule set:
/// every dual-role rule, then every chord, each kind in the order in which
/// it was written.
pub open spec fn rules_of(dual_role: Seq<DualRoleConfig>, remap: Seq<RemapConfig>) -> Seq<
    MappingView,
> {
    dual_role.map_values(|d: DualRoleConfig| d.rule()) + remap.map_values(
        |r: RemapConfig| r.rule(),
    )
}

impl MappingConfig {
    /// Builds the rule set of a configuration.
    pub fn from_file(config_file: ConfigFile) -> (config: MappingConfig)
        ensures
            config.device_name == config_file.device_name,
            config.phys == config_file.phys,
            rules_view(config.mappings@) == rules_of(config_file.dual_role@, config_file.remap@),
    {
        let ghost dual_role = config_file.dual_role@;
        let ghost remap = config_file.remap@;
        let ConfigFile { device_name, phys, dual_role: mut duals, remap: mut remaps } = config_file;
        let mut mappings: Vec<Mapping> = Vec::new();
        let ghost mut taken: int = 0;
        while duals.len() > 0
            invariant
                0 <= taken <= dual_role.len(),
                duals@ == dual_role.skip(taken),
                rules_view(mappings@) == rules_of(dual_role.take(taken), Seq::empty()),
            decreases duals.len(),
        {
            let dual = duals.remove(0);
            proof {
                assert(dual == dual_role[taken]);
                assert(duals@ =~= dual_role.skip(taken + 1));
                assert(dual_role.take(taken + 1) =~= dual_role.take(taken).push(dual));
            }
            let ghost before = mappings@;
            mappings.push(dual.into());
            proof {
                assert(rules_view(mappings@) =~= rules_view(before).push(dual.rule()));
                assert(rules_of(dual_role.take(taken + 1), Seq::empty()) =~= rules_of(
                    dual_role.take(taken),
                    Seq::empty(),
                ).push(dual.rule()));
                taken = taken + 1;
            }
        }
        assert(dual_role.take(dual_role.len() as int) =~= dual_role);
        let ghost mut taken: int = 0;
        assert(rules_of(dual_role, remap.take(0)) =~= rules_of(dual_role, Seq::empty()));
        while remaps.len() > 0
            invariant
                0 <= taken <= remap.len(),
                remaps@ == remap.skip(taken),
                rules_view(mappings@) == rules_of(dual_role, remap.take(taken)),
            decreases remaps.len(),
        {
            let chord = remaps.remove(0);
            proof {
                assert(chord == remap[taken]);
                assert(remaps@ =~= remap.skip(taken + 1));
                assert(remap.take(taken + 1) =~= remap.take(taken).push(chord));
            }
            let ghost before = mappings@;
            mappings.push(chord.into());
            proof {
                assert(rules_view(mappings@) =~= rules_view(before).push(chord.rule()));
                assert(rules_of(dual_role, remap.take(taken + 1)) =~= rules_of(
                    dual_role,
                    remap.take(taken),
                ).push(chord.rule()));
                taken = taken + 1;
            }
        }
        assert(remap.take(remap.len() as int) =~= remap);
        MappingConfig { device_name, phys, mappings }
    }
}

} // verus!
