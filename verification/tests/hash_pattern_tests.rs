use stylance::config::{validate_config, Config};
use stylance::hash::{hash_string, make_hash, to_hex};
use stylance::pattern::{modify_class, parse_pattern, ClassNamePattern};

fn s(v: &[u8]) -> String {
    String::from_utf8(v.to_vec()).unwrap()
}

#[test]
fn test_pattern_deserialize() {
    let pattern = parse_pattern(b"test-[name]-[hash]").expect("should deserialize");

    assert_eq!(b"test-my-class-12345".to_vec(), pattern.apply(b"my-class", b"12345"));
}

#[test]
fn pattern_rejects_stray_bracket() {
    let e = parse_pattern(b"a[bad]-[name]").expect_err("stray bracket should be refused");
    assert_eq!(e.pos, 1);
    assert!(parse_pattern(b"[name").is_err());
    assert!(parse_pattern(b"plain-text").is_ok());
    assert!(parse_pattern(b"").is_ok());
}

#[test]
fn default_pattern_is_name_dash_hash() {
    let p = ClassNamePattern::default();
    assert_eq!(s(&p.apply(b"foo", b"1234567")), "foo-1234567");
    assert_eq!(s(&modify_class(b"foo", b"1234567")), "foo-1234567");
}

#[test]
fn hashing_is_deterministic() {
    assert_eq!(hash_string(b"src/a.module.scss"), hash_string(b"src/a.module.scss"));
    assert_ne!(hash_string(b"src/a.module.scss"), hash_string(b"src/b.module.scss"));
    assert_eq!(make_hash(b"src/a.module.scss", 7), make_hash(b"src/a.module.scss", 7));
}

#[test]
fn hashing_ignores_separator_style() {
    assert_eq!(make_hash(b"src\\a.module.scss", 7), make_hash(b"src/a.module.scss", 7));
}

#[test]
fn digest_is_truncated_lowercase_hex() {
    let d = make_hash(b"src/a.module.scss", 7);
    assert_eq!(d.len(), 7);
    assert!(d.iter().all(|b| b.is_ascii_hexdigit() && !b.is_ascii_uppercase()));
    let longer = make_hash(b"src/a.module.scss", 16);
    assert_eq!(&longer[..7], &d[..]);
}

#[test]
fn digest_matches_hashing_the_path_as_text() {
    // hashing a path digests the same bytes as hashing it as borrowed text
    assert_eq!(s(&make_hash(b"tests/style.module.scss", 7)), "a331da9");
    assert_eq!(s(&make_hash(b"tests/style2.module.scss", 7)), "58ea9e3");
}

#[test]
fn hex_rendering_is_minimal_lowercase() {
    assert_eq!(s(&to_hex(0)), "0");
    assert_eq!(s(&to_hex(255)), "ff");
    assert_eq!(s(&to_hex(0x1a2b)), "1a2b");
    assert_eq!(s(&to_hex(u64::MAX)), "ffffffffffffffff");
}

#[test]
fn empty_extension_is_rejected() {
    let mut config = Config::default();
    assert!(validate_config(&config).is_ok());
    config.extensions.push(Vec::new());
    assert!(validate_config(&config).is_err());
}
