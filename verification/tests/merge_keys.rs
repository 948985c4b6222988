use rust_yaml::value::copy_value;
use rust_yaml::{RoundTripDocument, Value};

/// Load a one-document YAML string into its composed value.
fn load_str(yaml: &str) -> rust_yaml::Result<Value> {
    RoundTripDocument::parse(yaml).map(|doc| copy_value(doc.value()))
}

/// Key lookup among mapping entries.
trait Lookup {
    fn get(&self, key: &Value) -> Option<&Value>;
}

impl Lookup for Vec<(Value, Value)> {
    fn get(&self, key: &Value) -> Option<&Value> {
        self.iter().find(|(k, _)| k == key).map(|(_, v)| v)
    }
}

#[test]
fn test_basic_merge_key() {
    let yaml_str = r#"
defaults: &defaults
  adapter: postgres
  host: localhost
  port: 5432

development:
  <<: *defaults
  database: dev_db
"#;

    let result = load_str(yaml_str).expect("Failed to parse YAML");

    if let Value::Mapping(root) = result {
        let dev = root
            .get(&Value::String("development".to_string()))
            .expect("Missing 'development' key");

        if let Value::Mapping(dev_map) = dev {
            // Check that all keys from defaults are present
            assert_eq!(
                dev_map.get(&Value::String("adapter".to_string())),
                Some(&Value::String("postgres".to_string()))
            );
            assert_eq!(
                dev_map.get(&Value::String("host".to_string())),
                Some(&Value::String("localhost".to_string()))
            );
            assert_eq!(
                dev_map.get(&Value::String("port".to_string())),
                Some(&Value::Int(5432))
            );
            assert_eq!(
                dev_map.get(&Value::String("database".to_string())),
                Some(&Value::String("dev_db".to_string()))
            );
        } else {
            panic!("'development' is not a mapping");
        }
    } else {
        panic!("Root is not a mapping");
    }
}

#[test]
fn test_merge_key_override() {
    let yaml_str = r#"
defaults: &defaults
  host: localhost
  port: 5432

custom:
  <<: *defaults
  port: 3306  # Should override the merged value
"#;

    let result = load_str(yaml_str).expect("Failed to parse YAML");

    if let Value::Mapping(root) = result {
        let custom = root
            .get(&Value::String("custom".to_string()))
            .expect("Missing 'custom' key");

        if let Value::Mapping(custom_map) = custom {
            assert_eq!(
                custom_map.get(&Value::String("host".to_string())),
                Some(&Value::String("localhost".to_string())),
                "Host should be merged"
            );
            assert_eq!(
                custom_map.get(&Value::String("port".to_string())),
                Some(&Value::Int(3306)),
                "Port should be overridden"
            );
        }
    }
}

#[test]
fn test_multiple_merge_keys() {
    let yaml_str = r#"
base1: &base1
  a: 1
  b: 2

base2: &base2
  c: 3
  d: 4

merged:
  <<: [*base1, *base2]
  e: 5
"#;

    let result = load_str(yaml_str).expect("Failed to parse YAML");

    if let Value::Mapping(root) = result {
        let merged = root
            .get(&Value::String("merged".to_string()))
            .expect("Missing 'merged' key");

        if let Value::Mapping(merged_map) = merged {
            assert_eq!(merged_map.len(), 5, "Should have all 5 keys");
            assert_eq!(
                merged_map.get(&Value::String("a".to_string())),
                Some(&Value::Int(1))
            );
            assert_eq!(
                merged_map.get(&Value::String("b".to_string())),
                Some(&Value::Int(2))
            );
            assert_eq!(
                merged_map.get(&Value::String("c".to_string())),
                Some(&Value::Int(3))
            );
            assert_eq!(
                merged_map.get(&Value::String("d".to_string())),
                Some(&Value::Int(4))
            );
            assert_eq!(
                merged_map.get(&Value::String("e".to_string())),
                Some(&Value::Int(5))
            );
        }
    }
}

#[test]
fn test_nested_merge_keys() {
    let yaml_str = r#"
base: &base
  name: base
  value: 1

extended: &extended
  <<: *base
  extra: 2

final:
  <<: *extended
  override: 3
"#;

    let result = load_str(yaml_str).expect("Failed to parse YAML");

    if let Value::Mapping(root) = result {
        // Check extended first
        let extended = root
            .get(&Value::String("extended".to_string()))
            .expect("Missing 'extended' key");

        if let Value::Mapping(extended_map) = extended {
            assert_eq!(extended_map.len(), 3, "Extended should have 3 keys");
            assert_eq!(
                extended_map.get(&Value::String("name".to_string())),
                Some(&Value::String("base".to_string()))
            );
        }

        // Check final
        let final_node = root
            .get(&Value::String("final".to_string()))
            .expect("Missing 'final' key");

        if let Value::Mapping(final_map) = final_node {
            assert_eq!(final_map.len(), 4, "Final should have 4 keys");
            assert_eq!(
                final_map.get(&Value::String("name".to_string())),
                Some(&Value::String("base".to_string())),
                "Should inherit from base through extended"
            );
            assert_eq!(
                final_map.get(&Value::String("value".to_string())),
                Some(&Value::Int(1))
            );
            assert_eq!(
                final_map.get(&Value::String("extra".to_string())),
                Some(&Value::Int(2))
            );
            assert_eq!(
                final_map.get(&Value::String("override".to_string())),
                Some(&Value::Int(3))
            );
        }
    }
}

#[test]
fn test_merge_key_with_null_values() {
    let yaml_str = r#"
defaults: &defaults
  a: 1
  b: ~

merged:
  <<: *defaults
  c: 3
"#;

    let result = load_str(yaml_str).expect("Failed to parse YAML");

    if let Value::Mapping(root) = result {
        let merged = root
            .get(&Value::String("merged".to_string()))
            .expect("Missing 'merged' key");

        if let Value::Mapping(merged_map) = merged {
            assert_eq!(
                merged_map.get(&Value::String("a".to_string())),
                Some(&Value::Int(1))
            );
            assert_eq!(
                merged_map.get(&Value::String("b".to_string())),
                Some(&Value::Null)
            );
            assert_eq!(
                merged_map.get(&Value::String("c".to_string())),
                Some(&Value::Int(3))
            );
        }
    }
}

#[test]
fn test_merge_key_precedence() {
    // Test that explicit keys override merged keys
    let yaml_str = r#"
defaults: &defaults
  key1: default1
  key2: default2

override:
  key1: explicit1  # Before merge
  <<: *defaults
  key2: explicit2  # After merge
"#;

    let result = load_str(yaml_str).expect("Failed to parse YAML");

    if let Value::Mapping(root) = result {
        let override_node = root
            .get(&Value::String("override".to_string()))
            .expect("Missing 'override' key");

        if let Value::Mapping(override_map) = override_node {
            assert_eq!(
                override_map.get(&Value::String("key1".to_string())),
                Some(&Value::String("explicit1".to_string())),
                "Explicit key before merge should take precedence"
            );
            assert_eq!(
                override_map.get(&Value::String("key2".to_string())),
                Some(&Value::String("explicit2".to_string())),
                "Explicit key after merge should take precedence"
            );
        }
    }
}

#[test]
fn test_merge_key_with_complex_values() {
    let yaml_str = r#"
defaults: &defaults
  simple: value
  list:
    - item1
    - item2
  nested:
    inner: data

merged:
  <<: *defaults
  extra: added
"#;

    let result = load_str(yaml_str).expect("Failed to parse YAML");

    if let Value::Mapping(root) = result {
        let merged = root
            .get(&Value::String("merged".to_string()))
            .expect("Missing 'merged' key");

        if let Value::Mapping(merged_map) = merged {
            // Check simple value
            assert_eq!(
                merged_map.get(&Value::String("simple".to_string())),
                Some(&Value::String("value".to_string()))
            );

            // Check list
            if let Some(Value::Sequence(list)) = merged_map.get(&Value::String("list".to_string()))
            {
                assert_eq!(list.len(), 2);
                assert_eq!(list[0], Value::String("item1".to_string()));
                assert_eq!(list[1], Value::String("item2".to_string()));
            } else {
                panic!("List not merged correctly");
            }

            // Check nested mapping
            if let Some(Value::Mapping(nested)) =
                merged_map.get(&Value::String("nested".to_string()))
            {
                assert_eq!(
                    nested.get(&Value::String("inner".to_string())),
                    Some(&Value::String("data".to_string()))
                );
            } else {
                panic!("Nested mapping not merged correctly");
            }

            // Check extra key
            assert_eq!(
                merged_map.get(&Value::String("extra".to_string())),
                Some(&Value::String("added".to_string()))
            );
        }
    }
}

#[test]
fn test_invalid_merge_key_value() {
    // Merge key with non-mapping value should fail
    let yaml_str = r#"
invalid:
  <<: "not a mapping"
  key: value
"#;

    let result = load_str(yaml_str);

    assert!(
        result.is_err(),
        "Should fail when merge key value is not a mapping"
    );
}

#[test]
fn test_merge_key_in_sequence() {
    // Merge keys should only work in mappings, not sequences
    let yaml_str = r#"
defaults: &defaults
  a: 1

list:
  - <<: *defaults  # This should create a mapping with << as a key
  - b: 2
"#;

    let result = load_str(yaml_str).expect("Failed to parse YAML");

    if let Value::Mapping(root) = result {
        if let Some(Value::Sequence(list)) = root.get(&Value::String("list".to_string())) {
            // First item should be a mapping with the merge
            if let Value::Mapping(first) = &list[0] {
                // Since we're in a sequence, the merge should work
                assert_eq!(
                    first.get(&Value::String("a".to_string())),
                    Some(&Value::Int(1)),
                    "Merge should work in mapping within sequence"
                );
            }
        }
    }
}

#[test]
fn merge_keys_comprehensive_test_merge_keys_basic() {
    let yaml_content = r#"
base: &base
  name: test
  count: 42

derived:
  <<: *base
  active: true
"#;

    let result = load_str(yaml_content)
        .expect("Should parse successfully");

    if let Value::Mapping(ref map) = result {
        let derived = map
            .get(&Value::String("derived".to_string()))
            .expect("derived should exist");

        if let Value::Mapping(derived_map) = derived {
            // Verify inherited values
            assert_eq!(
                derived_map.get(&Value::String("name".to_string())),
                Some(&Value::String("test".to_string()))
            );
            assert_eq!(
                derived_map.get(&Value::String("count".to_string())),
                Some(&Value::Int(42))
            );
            // Verify explicit value
            assert_eq!(
                derived_map.get(&Value::String("active".to_string())),
                Some(&Value::Bool(true))
            );
        } else {
            panic!("derived should be a mapping");
        }
    } else {
        panic!("result should be a mapping");
    }
}

#[test]
fn test_merge_keys_override() {
    let yaml_content = r#"
base: &base
  name: base_name
  count: 1
  active: false

derived:
  <<: *base
  name: derived_name  # Should override base
  new_field: extra
"#;

    let result = load_str(yaml_content)
        .expect("Should parse successfully");

    if let Value::Mapping(ref map) = result {
        let derived = map
            .get(&Value::String("derived".to_string()))
            .expect("derived should exist");

        if let Value::Mapping(derived_map) = derived {
            // Verify overridden value
            assert_eq!(
                derived_map.get(&Value::String("name".to_string())),
                Some(&Value::String("derived_name".to_string()))
            );
            // Verify inherited values
            assert_eq!(
                derived_map.get(&Value::String("count".to_string())),
                Some(&Value::Int(1))
            );
            assert_eq!(
                derived_map.get(&Value::String("active".to_string())),
                Some(&Value::Bool(false))
            );
            // Verify new field
            assert_eq!(
                derived_map.get(&Value::String("new_field".to_string())),
                Some(&Value::String("extra".to_string()))
            );
        } else {
            panic!("derived should be a mapping");
        }
    } else {
        panic!("result should be a mapping");
    }
}

#[test]
fn test_merge_keys_multiple_sources() {
    let yaml_content = r#"
base1: &base1
  name: from_base1
  field1: value1

base2: &base2
  field2: value2
  field3: value3

derived:
  <<: [*base1, *base2]
  name: overridden
"#;

    let result = load_str(yaml_content)
        .expect("Should parse successfully");

    if let Value::Mapping(ref map) = result {
        let derived = map
            .get(&Value::String("derived".to_string()))
            .expect("derived should exist");

        if let Value::Mapping(derived_map) = derived {
            // Verify overridden value takes precedence
            assert_eq!(
                derived_map.get(&Value::String("name".to_string())),
                Some(&Value::String("overridden".to_string()))
            );
            // Verify values from both bases
            assert_eq!(
                derived_map.get(&Value::String("field1".to_string())),
                Some(&Value::String("value1".to_string()))
            );
            assert_eq!(
                derived_map.get(&Value::String("field2".to_string())),
                Some(&Value::String("value2".to_string()))
            );
            assert_eq!(
                derived_map.get(&Value::String("field3".to_string())),
                Some(&Value::String("value3".to_string()))
            );
        } else {
            panic!("derived should be a mapping");
        }
    } else {
        panic!("result should be a mapping");
    }
}

#[test]
fn test_merge_keys_nested() {
    let yaml_content = r#"
base: &base
  timeout: 30
  retries: 3

service:
  name: test_service
  settings:
    <<: *base
    port: 8080
"#;

    let result = load_str(yaml_content)
        .expect("Should parse successfully");

    if let Value::Mapping(ref map) = result {
        let service = map
            .get(&Value::String("service".to_string()))
            .expect("service should exist");

        if let Value::Mapping(service_map) = service {
            let settings = service_map
                .get(&Value::String("settings".to_string()))
                .expect("settings should exist");

            if let Value::Mapping(settings_map) = settings {
                // Should inherit the base values directly
                assert_eq!(
                    settings_map.get(&Value::String("timeout".to_string())),
                    Some(&Value::Int(30))
                );
                assert_eq!(
                    settings_map.get(&Value::String("retries".to_string())),
                    Some(&Value::Int(3))
                );
                // Should also have explicit value
                assert_eq!(
                    settings_map.get(&Value::String("port".to_string())),
                    Some(&Value::Int(8080))
                );
            } else {
                panic!("settings should be a mapping");
            }
        } else {
            panic!("service should be a mapping");
        }
    } else {
        panic!("result should be a mapping");
    }
}

#[test]
fn test_merge_keys_with_sequences() {
    let yaml_content = r#"
defaults: &defaults
  timeout: 30

config:
  <<: *defaults
  items:  # Explicit sequence value
    - custom1
    - custom2
    - custom3
"#;

    let result = load_str(yaml_content)
        .expect("Should parse successfully");

    if let Value::Mapping(ref map) = result {
        let config = map
            .get(&Value::String("config".to_string()))
            .expect("config should exist");

        if let Value::Mapping(config_map) = config {
            // Should inherit timeout
            assert_eq!(
                config_map.get(&Value::String("timeout".to_string())),
                Some(&Value::Int(30))
            );

            // Should have overridden sequence
            if let Some(Value::Sequence(items)) =
                config_map.get(&Value::String("items".to_string()))
            {
                assert_eq!(items.len(), 3);
                assert_eq!(items[0], Value::String("custom1".to_string()));
                assert_eq!(items[1], Value::String("custom2".to_string()));
                assert_eq!(items[2], Value::String("custom3".to_string()));
            } else {
                panic!("items should be a sequence");
            }
        } else {
            panic!("config should be a mapping");
        }
    } else {
        panic!("result should be a mapping");
    }
}

#[test]
fn test_merge_keys_error_cases() {
    // Test merge with non-mapping value (should error)
    let yaml_content = r#"
not_mapping: &ref "just a string"

test:
  <<: *ref
"#;

    let result = load_str(yaml_content);

    assert!(
        result.is_err(),
        "Should fail when merging non-mapping value"
    );
    if let Err(e) = result {
        assert!(
            e.message.contains("must be a mapping"),
            "Error should mention mapping requirement"
        );
    }
}

#[test]
fn test_alias_resolution() {
    let yaml_content = r#"
base: &base
  key: value

ref: *base
"#;

    match load_str(yaml_content) {
        Ok(result) => {
            println!("Alias resolution works: {:?}", result);
        }
        Err(e) => {
            panic!("Alias resolution failed: {:?}", e);
        }
    }
}

#[test]
fn simple_merge_test_test_merge_keys_basic() {
    let yaml_content = r#"
base: &base
  key: value

test:
  <<: *base
"#;

    match load_str(yaml_content) {
        Ok(result) => {
            println!("✅ Merge keys work: {:?}", result);

            // Verify the structure is correct
            if let rust_yaml::Value::Mapping(ref map) = result {
                let base_value = map
                    .get(&rust_yaml::Value::String("base".to_string()))
                    .expect("base should exist");
                let test_value = map
                    .get(&rust_yaml::Value::String("test".to_string()))
                    .expect("test should exist");

                // Both should be mappings with the same content
                if let (rust_yaml::Value::Mapping(base_map), rust_yaml::Value::Mapping(test_map)) =
                    (base_value, test_value)
                {
                    assert_eq!(
                        base_map.get(&rust_yaml::Value::String("key".to_string())),
                        Some(&rust_yaml::Value::String("value".to_string()))
                    );
                    assert_eq!(
                        test_map.get(&rust_yaml::Value::String("key".to_string())),
                        Some(&rust_yaml::Value::String("value".to_string()))
                    );
                    println!("✅ Merge keys properly inherited values from base");
                } else {
                    panic!("Both base and test should be mappings");
                }
            } else {
                panic!("Result should be a mapping");
            }
        }
        Err(e) => {
            panic!("Merge keys should work now, but got error: {:?}", e);
        }
    }
}
