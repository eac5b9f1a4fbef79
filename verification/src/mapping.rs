//! The rules that a user declares.
use vstd::prelude::*;
use std::collections::HashSet;
use vstd::string::StringExecFns;
use crate::event::{EventCode, KeyCode};
use crate::model::Remap;
use crate::util::{copy_table, keys_of_set};

verus! {

/// One rule of the user.
#[derive(Debug, PartialEq, Eq)]
pub enum Mapping {
    Remap {
        /// These keys must be held.
        cond: HashSet<KeyCode>,
        /// These keys must not be held.
        except: HashSet<KeyCode>,
        /// The rule fires when one of these keys is pressed.
        when: HashSet<KeyCode>,
        /// While the rule is in effect, the first key of each entry, where it is held,
        /// stands for the keys of the entry's list.
        mappings: Vec<(KeyCode, Vec<KeyCode>)>,
    },
}

/// A rule as a plain value.
pub struct MappingView {
    pub cond: Set<KeyCode>,
    pub except: Set<KeyCode>,
    pub when: Set<KeyCode>,
    pub mappings: Seq<Remap>,
}

/// The entries of a remap table as plain values.
pub open spec fn remaps_view(table: Seq<(KeyCode, Vec<KeyCode>)>) -> Seq<Remap> {
    Seq::new(table.len(), |i: int| (table[i].0, table[i].1@))
}

impl View for Mapping {
    type V = MappingView;

    open spec fn view(&self) -> MappingView {
        match self {
            Mapping::Remap { cond, except, when, mappings } => MappingView {
                cond: cond@,
                except: except@,
                when: when@,
                mappings: remaps_view(mappings@),
            },
        }
    }
}

/// The rules as plain values.
pub open spec fn mappings_view(rules: Seq<Mapping>) -> Seq<MappingView> {
    Seq::new(rules.len(), |r: int| rules[r]@)
}

/// A copy of the set `keys`.
fn copy_set(keys: &HashSet<KeyCode>) -> (copy: HashSet<KeyCode>)
    ensures
        copy@ == keys@,
{
    broadcast use vstd::std_specs::hash::group_hash_axioms;

    let listed = keys_of_set(keys);
    let copy = set_of_keys(&listed);
    copy
}

/// The set of the keys of `keys`.
fn set_of_keys(keys: &Vec<KeyCode>) -> (set: HashSet<KeyCode>)
    ensures
        set@ == keys@.to_set(),
{
    broadcast use vstd::std_specs::hash::group_hash_axioms;

    let mut set: HashSet<KeyCode> = HashSet::new();
    let mut i: usize = 0;
    assert(keys@.take(0).to_set() =~= Set::<KeyCode>::empty());
    while i < keys.len()
        invariant
            i <= keys.len(),
            set@ == keys@.take(i as int).to_set(),
        decreases keys.len() - i,
    {
        set.insert(keys[i]);
        proof {
            let seen = keys@.take(i as int);
            let next = keys@.take(i + 1);
            assert(next =~= seen.push(keys@[i as int]));
            assert forall|x: KeyCode| next.to_set().contains(x) == seen.to_set().insert(
                keys@[i as int],
            ).contains(x) by {
                if next.contains(x) {
                    let j = choose|j: int| 0 <= j < next.len() && next[j] == x;
                    if j < i {
                        assert(seen[j] == x);
                    }
                }
                if seen.contains(x) {
                    let j = choose|j: int| 0 <= j < seen.len() && seen[j] == x;
                    assert(next[j] == x);
                }
                if x == keys@[i as int] {
                    assert(next[i as int] == x);
                }
            }
            assert(next.to_set() =~= seen.to_set().insert(keys@[i as int]));
        }
        i = i + 1;
    }
    assert(keys@.take(keys.len() as int) =~= keys@);
    set
}

impl Clone for Mapping {
    fn clone(&self) -> (copy: Mapping)
        ensures
            copy@ == self@,
    {
        match self {
            Mapping::Remap { cond, except, when: triggers, mappings } => Mapping::Remap {
                cond: copy_set(cond),
                except: copy_set(except),
                when: copy_set(triggers),
                mappings: copy_table(mappings),
            },
        }
    }
}

/// What is wrong with a configuration.
#[derive(Debug, PartialEq, Eq)]
pub enum ConfigError {
    /// The name is not the name of a key.
    InvalidKey(String),
    /// The name is the name of something that is not a key.
    ImpossibleParseKey,
}

impl ConfigError {
    /// The text that tells the user of the error.
    pub open spec fn spec_message(&self) -> Seq<char> {
        match self {
            ConfigError::InvalidKey(name) => "Invalid key `"@ + name@
                + "`.  Use `evremap list-keys` to see possible keys."@,
            ConfigError::ImpossibleParseKey => "Impossible: parsed KEY_XXX but not into an EV_KEY"@,
        }
    }

    /// The text that tells the user of the error.
    pub fn message(&self) -> (text: String)
        ensures
            text@ == self.spec_message(),
    {
        match self {
            ConfigError::InvalidKey(name) => {
                let mut text = String::from_str("Invalid key `");
                text.append(name.as_str());
                text.append("`.  Use `evremap list-keys` to see possible keys.");
                text
            },
            ConfigError::ImpossibleParseKey => String::from_str(
                "Impossible: parsed KEY_XXX but not into an EV_KEY",
            ),
        }
    }
}

/// A key as a configuration names it.
#[derive(Clone, Copy, Debug, PartialEq, Eq, Hash, Structural)]
pub struct KeyCodeWrapper {
    pub code: KeyCode,
}

impl KeyCodeWrapper {
    /// The key.
    pub fn into(self) -> (code: KeyCode)
        ensures
            code == self.code,
    {
        self.code
    }

    /// The key that the name `s` stands for, given what looking the name up among the
    /// names of keys has found. A name that was not found is not the name of a key; a
    /// name that was found must have been found as a key.
    pub fn try_from(s: String, found: Option<EventCode>) -> (r: Result<KeyCodeWrapper, ConfigError>)
        ensures
            r == (match found {
                Some(EventCode::Key(code)) => Ok::<KeyCodeWrapper, ConfigError>(
                    KeyCodeWrapper { code },
                ),
                Some(_) => Err(ConfigError::ImpossibleParseKey),
                None => Err(ConfigError::InvalidKey(s)),
            }),
    {
        match found {
            Some(code) => match code {
                EventCode::Key(code) => Ok(KeyCodeWrapper { code }),
                _ => Err(ConfigError::ImpossibleParseKey),
            },
            None => Err(ConfigError::InvalidKey(s)),
        }
    }
}

/// The keys that `names` name, in their order.
pub open spec fn codes_of(names: Seq<KeyCodeWrapper>) -> Seq<KeyCode> {
    Seq::new(names.len(), |i: int| names[i].code)
}

/// The remap table that `table` names.
pub open spec fn table_of(table: Seq<(KeyCodeWrapper, Vec<KeyCodeWrapper>)>) -> Seq<Remap> {
    Seq::new(table.len(), |i: int| (table[i].0.code, codes_of(table[i].1@)))
}

/// The keys that `names` name.
fn codes(names: &Vec<KeyCodeWrapper>) -> (keys: Vec<KeyCode>)
    ensures
        keys@ == codes_of(names@),
{
    let mut keys: Vec<KeyCode> = Vec::new();
    let mut i: usize = 0;
    while i < names.len()
        invariant
            i <= names.len(),
            keys@ == codes_of(names@).take(i as int),
        decreases names.len() - i,
    {
        keys.push(names[i].into());
        assert(codes_of(names@).take(i + 1) =~= codes_of(names@).take(i as int).push(
            names@[i as int].code,
        ));
        i = i + 1;
    }
    assert(codes_of(names@).take(names.len() as int) =~= codes_of(names@));
    keys
}

/// One rule as a configuration holds it.
#[derive(Debug)]
pub struct RemapConfig {
    pub cond: Vec<KeyCodeWrapper>,
    pub except: Vec<KeyCodeWrapper>,
    pub when: Vec<KeyCodeWrapper>,
    pub mappings: Vec<(KeyCodeWrapper, Vec<KeyCodeWrapper>)>,
}

impl RemapConfig {
    /// The rule as a plain value.
    pub open spec fn spec_into(&self) -> MappingView {
        MappingView {
            cond: codes_of(self.cond@).to_set(),
            except: codes_of(self.except@).to_set(),
            when: codes_of(self.when@).to_set(),
            mappings: table_of(self.mappings@),
        }
    }

    /// The rule that this configuration describes.
    pub fn to_mapping(&self) -> (rule: Mapping)
        ensures
            rule@ == self.spec_into(),
    {
        let cond = set_of_keys(&codes(&self.cond));
        let except = set_of_keys(&codes(&self.except));
        let triggers = set_of_keys(&codes(&self.when));
        let mut mappings: Vec<(KeyCode, Vec<KeyCode>)> = Vec::new();
        let mut i: usize = 0;
        while i < self.mappings.len()
            invariant
                i <= self.mappings.len(),
                remaps_view(mappings@) == table_of(self.mappings@).take(i as int),
            decreases self.mappings.len() - i,
        {
            let ghost before = remaps_view(mappings@);
            let entry = &self.mappings[i];
            mappings.push((entry.0.into(), codes(&entry.1)));
            proof {
                let all = table_of(self.mappings@);
                assert(remaps_view(mappings@) =~= before.push(all[i as int]));
                assert(all.take(i + 1) =~= all.take(i as int).push(all[i as int]));
            }
            i = i + 1;
        }
        assert(table_of(self.mappings@).take(self.mappings.len() as int) =~= table_of(
            self.mappings@,
        ));
        Mapping::Remap { cond, except, when: triggers, mappings }
    }

    /// Turns this configuration into the rule that it describes.
    pub fn into(self) -> (rule: Mapping)
        ensures
            rule@ == self.spec_into(),
    {
        self.to_mapping()
    }
}

/// The configuration of one keyboard: which device to remap, and by which rules.
#[derive(Debug)]
pub struct MappingConfig {
    pub device_name: String,
    pub phys: Option<String>,
    pub mappings: Vec<Mapping>,
}

impl Clone for MappingConfig {
    fn clone(&self) -> (copy: MappingConfig)
        ensures
            copy.device_name@ == self.device_name@,
            copy.phys is Some <==> self.phys is Some,
            copy.phys is Some ==> copy.phys.unwrap()@ == self.phys.unwrap()@,
            mappings_view(copy.mappings@) == mappings_view(self.mappings@),
    {
        let mut mappings: Vec<Mapping> = Vec::new();
        let mut i: usize = 0;
        while i < self.mappings.len()
            invariant
                i <= self.mappings.len(),
                mappings_view(mappings@) == mappings_view(self.mappings@).take(i as int),
            decreases self.mappings.len() - i,
        {
            let ghost before = mappings_view(mappings@);
            mappings.push(self.mappings[i].clone());
            proof {
                let all = mappings_view(self.mappings@);
                assert(mappings_view(mappings@) =~= before.push(all[i as int]));
                assert(all.take(i + 1) =~= all.take(i as int).push(all[i as int]));
            }
            i = i + 1;
        }
        assert(mappings_view(self.mappings@).take(self.mappings.len() as int) =~= mappings_view(
            self.mappings@,
        ));
        let phys = match &self.phys {
            Some(path) => Some(path.clone()),
            None => None,
        };
        MappingConfig { device_name: self.device_name.clone(), phys, mappings }
    }
}

impl MappingConfig {
    /// The configuration with the given device and with the rules that `remap`
    /// describes, in their order.
    pub fn from_parts(device_name: String, phys: Option<String>, remap: Vec<RemapConfig>) -> (config:
        MappingConfig)
        ensures
            config.device_name == device_name,
            config.phys == phys,
            mappings_view(config.mappings@) == Seq::new(
                remap@.len(),
                |i: int| remap@[i].spec_into(),
            ),
    {
        let ghost all = Seq::new(remap@.len(), |i: int| remap@[i].spec_into());
        let mut mappings: Vec<Mapping> = Vec::new();
        let mut i: usize = 0;
        while i < remap.len()
            invariant
                i <= remap.len(),
                all == Seq::new(remap@.len(), |i: int| remap@[i].spec_into()),
                mappings_view(mappings@) == all.take(i as int),
            decreases remap.len() - i,
        {
            let ghost before = mappings_view(mappings@);
            mappings.push(remap[i].to_mapping());
            assert(mappings_view(mappings@) =~= before.push(all[i as int]));
            assert(all.take(i + 1) =~= all.take(i as int).push(all[i as int]));
            i = i + 1;
        }
        assert(all.take(remap.len() as int) =~= all);
        MappingConfig { device_name, phys, mappings }
    }
}

} // verus!
