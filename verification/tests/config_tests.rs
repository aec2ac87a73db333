use stylance::config::{
    default_extensions, default_folders, default_hash_len, resolve_config, CargoToml,
    CargoTomlPackage, CargoTomlPackageMetadata, Config, ConfigToml,
};

fn s(v: &[u8]) -> String {
    String::from_utf8(v.to_vec()).unwrap()
}

#[test]
fn defaults_match_documented_values() {
    let exts = default_extensions();
    assert_eq!(exts.len(), 2);
    assert_eq!(s(&exts[0]), ".module.css");
    assert_eq!(s(&exts[1]), ".module.scss");
    let folders = default_folders();
    assert_eq!(folders.len(), 1);
    assert_eq!(s(&folders[0]), "./src/");
    assert_eq!(default_hash_len(), 7);

    let config = Config::default();
    assert!(config.output_file.is_none());
    assert!(config.output_dir.is_none());
    assert_eq!(config.hash_len, 7);
    assert_eq!(s(&config.class_name_pattern.apply(b"x", b"y")), "x-y");
}

#[test]
fn flat_shape_fills_missing_fields() {
    let toml = ConfigToml {
        output: Some(b"bundle.scss".to_vec()),
        extensions: None,
        folders: Some(vec![b"./styles/".to_vec()]),
    };
    let config = Config::from_toml(toml);
    assert_eq!(s(config.output_file.as_ref().unwrap()), "bundle.scss");
    assert_eq!(config.extensions.len(), 2);
    assert_eq!(config.folders.len(), 1);
    assert_eq!(s(&config.folders[0]), "./styles/");
    assert_eq!(config.hash_len, 7);
}

#[test]
fn manifest_without_section_yields_default() {
    let config = resolve_config(CargoToml { package: None }).expect("default should be valid");
    assert_eq!(config.hash_len, 7);
    assert_eq!(config.extensions.len(), 2);

    let nested = CargoToml {
        package: Some(CargoTomlPackage {
            metadata: Some(CargoTomlPackageMetadata { stylance: None }),
        }),
    };
    assert!(resolve_config(nested).is_ok());
}

#[test]
fn manifest_with_bad_extension_is_rejected() {
    let mut config = Config::default();
    config.extensions = vec![Vec::new()];
    let carried = CargoToml {
        package: Some(CargoTomlPackage {
            metadata: Some(CargoTomlPackageMetadata { stylance: Some(config) }),
        }),
    };
    assert!(resolve_config(carried).is_err());
}

#[test]
fn manifest_configuration_is_taken_as_is() {
    let mut config = Config::default();
    config.hash_len = 3;
    config.output_dir = Some(b"out".to_vec());
    let carried = CargoToml {
        package: Some(CargoTomlPackage {
            metadata: Some(CargoTomlPackageMetadata { stylance: Some(config) }),
        }),
    };
    let resolved = resolve_config(carried).expect("should be valid");
    assert_eq!(resolved.hash_len, 3);
    assert_eq!(s(resolved.output_dir.as_ref().unwrap()), "out");
}
