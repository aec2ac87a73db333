use stylance::config::Config;
use stylance::hash::make_hash;
use stylance::orchestrate::{check_collisions, file_classes, modify_css, run_pass,
    ModifyCssResult, RunError, SourceFile};
use stylance::parse::parse_css;
use stylance::pattern::ClassNamePattern;
use stylance::rewrite::{get_classes, rewrite_css};

fn s(v: &[u8]) -> String {
    String::from_utf8(v.to_vec()).unwrap()
}

#[test]
fn global_escape_erasure() {
    let input = ":global(.foo) { color: blue; }";
    let frags = parse_css(input.as_bytes()).expect("should parse");
    let pattern = ClassNamePattern::default();
    let out = rewrite_css(input.as_bytes(), &frags, b"abc1234", &pattern);
    assert_eq!(s(&out), ".foo { color: blue; }");
}

#[test]
fn quoted_semicolon_does_not_end_declaration() {
    let input = ".a { content: \"x;y\"; color: red; }";
    let frags = parse_css(input.as_bytes()).expect("should parse");
    assert_eq!(frags.len(), 1);

    let no_final_semi = ".a { color: red }";
    assert!(parse_css(no_final_semi.as_bytes()).is_ok());
}

#[test]
fn end_to_end_single_module() {
    let config = Config::default();
    let files = vec![SourceFile {
        rel_path: b"src/a.module.scss".to_vec(),
        contents: b".foo { color: red; } :global(.bar) { color: blue; }".to_vec(),
    }];
    let out = run_pass(&files, &config).expect("pass should succeed");
    assert_eq!(out.results.len(), 1);
    let digest = s(&out.results[0].hash);
    assert_eq!(digest, s(&make_hash(b"src/a.module.scss", 7)));
    let expected = format!(".foo-{digest} {{ color: red; }} .bar {{ color: blue; }}");
    assert_eq!(s(&out.results[0].contents), expected);

    let frags = parse_css(files[0].contents.as_slice()).unwrap();
    let classes = get_classes(
        files[0].contents.as_slice(),
        &frags,
        out.results[0].hash.as_slice(),
        &config.class_name_pattern,
    );
    assert_eq!(classes.len(), 1);
    assert_eq!(s(&classes[0].original_name), "foo");
    assert_eq!(s(&classes[0].hashed_name), format!("foo-{digest}"));
}

#[test]
fn modify_css_rejects_bad_input() {
    let config = Config::default();
    let r = modify_css(b"src/bad.module.css", b".foo { color: red;", &config);
    match r {
        Err(RunError::Parse { path, pos: _ }) => assert_eq!(s(&path), "src/bad.module.css"),
        _ => panic!("expected a parse error"),
    }
}

#[test]
fn collision_detection_names_both_files() {
    let mut config = Config::default();
    // a one-character digest has only sixteen values, so seventeen
    // distinct files cannot all stay apart
    config.hash_len = 1;
    let mut files = Vec::new();
    for i in 0..17 {
        files.push(SourceFile {
            rel_path: format!("src/f{i}.module.css").into_bytes(),
            contents: b".a { color: red; }".to_vec(),
        });
    }
    match run_pass(&files, &config) {
        Err(RunError::Collision { path_a, path_b, hash }) => {
            assert_ne!(path_a, path_b);
            assert_eq!(hash.len(), 1);
            let names: Vec<String> = files.iter().map(|f| s(&f.rel_path)).collect();
            assert!(names.contains(&s(&path_a)));
            assert!(names.contains(&s(&path_b)));
        },
        _ => panic!("expected a collision"),
    }
}

#[test]
fn check_collisions_accepts_distinct_digests() {
    let mk = |p: &str, h: &str| ModifyCssResult {
        path: p.as_bytes().to_vec(),
        hash: h.as_bytes().to_vec(),
        contents: Vec::new(),
    };
    assert!(check_collisions(&vec![mk("a", "111"), mk("b", "222")]).is_ok());
    match check_collisions(&vec![mk("a", "111"), mk("b", "222"), mk("c", "111")]) {
        Err(RunError::Collision { path_a, path_b, hash }) => {
            assert_eq!(s(&path_a), "a");
            assert_eq!(s(&path_b), "c");
            assert_eq!(s(&hash), "111");
        },
        _ => panic!("expected a collision"),
    }
}

#[test]
fn results_are_sorted_by_name_then_path() {
    let mut config = Config::default();
    config.folders = vec![b".".to_vec()];
    let mk = |p: &str| SourceFile {
        rel_path: p.as_bytes().to_vec(),
        contents: b".x { color: red; }".to_vec(),
    };
    let files = vec![
        mk("src/zz/a.module.css"),
        mk("src/aa/b.module.css"),
        mk("src/bb/a.module.css"),
    ];
    let out = run_pass(&files, &config).expect("pass should succeed");
    let paths: Vec<String> = out.results.iter().map(|r| s(&r.path)).collect();
    // file names first (a.module.css before b.module.css), then full paths
    assert_eq!(
        paths,
        vec!["src/bb/a.module.css", "src/zz/a.module.css", "src/aa/b.module.css"]
    );
}

#[test]
fn single_file_output_joins_with_blank_lines() {
    let mut config = Config::default();
    config.output_file = Some(b"out/bundle.scss".to_vec());
    config.scss_prelude = Some(b"@use \"sass:math\";".to_vec());
    let mk = |p: &str, c: &str| SourceFile {
        rel_path: p.as_bytes().to_vec(),
        contents: c.as_bytes().to_vec(),
    };
    let files = vec![
        mk("src/a.module.scss", ".a { color: red; }"),
        mk("src/b.module.scss", ".b { color: blue; }"),
    ];
    let out = run_pass(&files, &config).expect("pass should succeed");
    let single = s(&out.single_file.expect("configured output file"));
    let da = s(&out.results[0].hash);
    let db = s(&out.results[1].hash);
    let expected = format!(
        "@use \"sass:math\";\n\n.a-{da} {{ color: red; }}\n\n.b-{db} {{ color: blue; }}"
    );
    assert_eq!(single, expected);

    // a plain .css target takes no prelude
    config.output_file = Some(b"out/bundle.css".to_vec());
    let out = run_pass(&files, &config).expect("pass should succeed");
    let single = s(&out.single_file.expect("configured output file"));
    assert!(!single.starts_with("@use \"sass:math\";"));
}

#[test]
fn output_dir_files_and_index() {
    let mut config = Config::default();
    config.output_dir = Some(b"out".to_vec());
    let mk = |p: &str, c: &str| SourceFile {
        rel_path: p.as_bytes().to_vec(),
        contents: c.as_bytes().to_vec(),
    };
    let files = vec![
        mk("src/a.module.scss", ".a { color: red; }"),
        mk("src/b.module.css", ".b { color: blue; }"),
    ];
    let out = run_pass(&files, &config).expect("pass should succeed");
    let dir = out.dir_files.expect("configured output dir");
    let da = s(&out.results[0].hash);
    let db = s(&out.results[1].hash);
    assert_eq!(s(&dir[0].name), format!("a.module-{da}.scss"));
    assert_eq!(s(&dir[1].name), format!("b.module-{db}.css"));
    assert_eq!(s(&dir[0].contents), format!(".a-{da} {{ color: red; }}"));
    let index = s(&out.index_file.expect("configured output dir"));
    assert_eq!(
        index,
        format!("@use \"a.module-{da}.scss\";\n@use \"b.module-{db}.css\";\n")
    );
}

#[test]
fn duplicate_classes_are_merged_and_sorted() {
    let input = ".b { } .a { } .b { } .c.a { }";
    let frags = parse_css(input.as_bytes()).expect("should parse");
    let pattern = ClassNamePattern::default();
    let classes = get_classes(input.as_bytes(), &frags, b"h", &pattern);
    let names: Vec<String> = classes.iter().map(|c| s(&c.original_name)).collect();
    assert_eq!(names, vec!["a", "b", "c"]);
}

#[test]
fn file_classes_reports_digest_and_sorted_pairs() {
    let config = Config::default();
    let contents = b".zoo { } .apple { color: red; } :global(.skip) { } .apple { }";
    let (digest, classes) =
        file_classes(b"src/a.module.scss", contents, &config).expect("should succeed");
    let d = s(&digest);
    assert_eq!(d, s(&make_hash(b"src/a.module.scss", 7)));
    let pairs: Vec<(String, String)> = classes
        .iter()
        .map(|c| (s(&c.original_name), s(&c.hashed_name)))
        .collect();
    assert_eq!(
        pairs,
        vec![
            ("apple".to_string(), format!("apple-{d}")),
            ("zoo".to_string(), format!("zoo-{d}")),
        ]
    );
}

#[test]
fn empty_input_is_accepted_but_blank_input_is_not() {
    assert!(parse_css(b"").unwrap().is_empty());
    assert!(parse_css(b"   \n").is_err());
}
