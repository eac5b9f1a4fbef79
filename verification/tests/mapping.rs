use evremap::event::EventCode;
use evremap::mapping::{ConfigError, KeyCodeWrapper, Mapping, MappingConfig, RemapConfig};
use evremap::remapper::output_keys;
use std::collections::HashSet;

fn key(code: u16) -> KeyCodeWrapper {
    KeyCodeWrapper { code }
}

#[test]
fn name_that_was_found_as_a_key_is_that_key() {
    assert_eq!(
        KeyCodeWrapper::try_from("KEY_A".to_string(), Some(EventCode::Key(30))),
        Ok(KeyCodeWrapper { code: 30 })
    );
    assert_eq!(key(30).into(), 30);
}

#[test]
fn name_that_was_not_found_is_an_invalid_key() {
    assert_eq!(
        KeyCodeWrapper::try_from("KEY_NONE".to_string(), None),
        Err(ConfigError::InvalidKey("KEY_NONE".to_string()))
    );
}

#[test]
fn name_that_was_found_as_something_else_is_impossible() {
    assert_eq!(
        KeyCodeWrapper::try_from("KEY_A".to_string(), Some(EventCode::Syn(0))),
        Err(ConfigError::ImpossibleParseKey)
    );
    assert_eq!(
        KeyCodeWrapper::try_from(
            "KEY_A".to_string(),
            Some(EventCode::Other {
                event_type: 2,
                event_code: 0
            })
        ),
        Err(ConfigError::ImpossibleParseKey)
    );
}

#[test]
fn error_messages() {
    assert_eq!(
        ConfigError::InvalidKey("KEY_FOO".to_string()).message(),
        "Invalid key `KEY_FOO`.  Use `evremap list-keys` to see possible keys."
    );
    assert_eq!(
        ConfigError::ImpossibleParseKey.message(),
        "Impossible: parsed KEY_XXX but not into an EV_KEY"
    );
}

#[test]
fn configured_rule_becomes_a_mapping() {
    let rule = RemapConfig {
        cond: vec![key(42), key(42)],
        except: vec![key(29)],
        when: vec![key(30), key(31)],
        mappings: vec![(key(30), vec![key(48), key(49)]), (key(31), vec![])],
    };
    let expected = Mapping::Remap {
        cond: HashSet::from([42]),
        except: HashSet::from([29]),
        when: HashSet::from([30, 31]),
        mappings: vec![(30, vec![48, 49]), (31, vec![])],
    };
    assert_eq!(rule.to_mapping(), expected);
    assert_eq!(rule.into(), expected);
}

#[test]
fn configuration_keeps_the_order_of_its_rules() {
    let first = RemapConfig {
        cond: vec![],
        except: vec![],
        when: vec![key(1)],
        mappings: vec![(key(1), vec![key(2)])],
    };
    let second = RemapConfig {
        cond: vec![key(3)],
        except: vec![],
        when: vec![key(4)],
        mappings: vec![],
    };
    let config = MappingConfig::from_parts(
        "A keyboard".to_string(),
        Some("usb-1/input0".to_string()),
        vec![first, second],
    );
    assert_eq!(config.device_name, "A keyboard");
    assert_eq!(config.phys, Some("usb-1/input0".to_string()));
    assert_eq!(
        config.mappings,
        vec![
            Mapping::Remap {
                cond: HashSet::new(),
                except: HashSet::new(),
                when: HashSet::from([1]),
                mappings: vec![(1, vec![2])],
            },
            Mapping::Remap {
                cond: HashSet::from([3]),
                except: HashSet::new(),
                when: HashSet::from([4]),
                mappings: vec![],
            },
        ]
    );
    let copy = config.clone();
    assert_eq!(copy.device_name, config.device_name);
    assert_eq!(copy.phys, config.phys);
    assert_eq!(copy.mappings, config.mappings);
}

#[test]
fn configuration_without_rules() {
    let config = MappingConfig::from_parts("kbd".to_string(), None, vec![]);
    assert_eq!(config.phys, None);
    assert!(config.mappings.is_empty());
}

#[test]
fn output_keys_lists_every_remap_target() {
    let rules = vec![
        Mapping::Remap {
            cond: HashSet::new(),
            except: HashSet::new(),
            when: HashSet::from([125]),
            mappings: vec![(125, vec![])],
        },
        Mapping::Remap {
            cond: HashSet::from([125]),
            except: HashSet::new(),
            when: HashSet::from([46, 47]),
            mappings: vec![(125, vec![29, 56]), (46, vec![29])],
        },
    ];
    assert_eq!(output_keys(&rules), vec![29, 56, 29]);
    assert_eq!(output_keys(&[]), Vec::<u16>::new());
}

#[test]
fn mapping_clone_is_equal() {
    let rule = Mapping::Remap {
        cond: HashSet::from([1, 2, 3]),
        except: HashSet::from([4]),
        when: HashSet::from([5, 6]),
        mappings: vec![(5, vec![7, 8]), (6, vec![])],
    };
    assert_eq!(rule.clone(), rule);
}
