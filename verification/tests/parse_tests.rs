use stylance::parse::{
    at_rule, class, declaration, parse_css, selector, style_rule, style_rule_block_contents,
    style_rule_list, CssFragment,
};

#[derive(Debug, PartialEq)]
enum Frag {
    Class(String),
    Global { inner: String, outer: String },
}

fn frags_of(src: &str, fs: &[CssFragment]) -> Vec<Frag> {
    fs.iter()
        .map(|f| match f {
            CssFragment::Class(sp) => Frag::Class(src[sp.start..sp.end].to_string()),
            CssFragment::Global(g) => Frag::Global {
                inner: src[g.inner.start..g.inner.end].to_string(),
                outer: src[g.outer.start..g.outer.end].to_string(),
            },
        })
        .collect()
}

fn classes(names: &[&str]) -> Vec<Frag> {
    names.iter().map(|n| Frag::Class(n.to_string())).collect()
}

#[test]
fn test_class() {
    let input = "._x1a2b Hello";

    let (sp, _) = class(input.as_bytes(), 0).expect("should parse a class");
    assert_eq!(&input[sp.start..sp.end], "_x1a2b");
}

#[test]
fn test_selector() {
    let input = ".foo.bar [value=\"fa.sdasd\"] /* .banana */ // .apple \n \t .cry {";

    let (frags, _) = selector(input.as_bytes(), 0).expect("should parse a selector");
    assert_eq!(frags_of(input, &frags), classes(&["foo", "bar", "cry"]));

    let input = "{";

    let r = selector(input.as_bytes(), 0);
    assert!(r.is_err());
}

#[test]
fn test_declaration() {
    let input = "background-color \t : red;";

    let j = declaration(input.as_bytes(), 0).expect("should parse a declaration");
    assert_eq!(&input[..j], "background-color \t : red;");

    let r = declaration(input.as_bytes(), j);
    assert!(r.is_err());
}

#[test]
fn test_style_rule() {
    let input = ".foo.bar {
        background-color: red;
        .baz {
            color: blue;
        }
        $some-scss-var: 10px;
        @some-at-rule blah blah;
        @media blah .blah {
            .moo {
                color: red;
            }
        }
        @container (width > 700px) {
            .zoo {
                color: blue;
            }
        }
    }END";

    let (frags, j) = style_rule(input.as_bytes(), 0).expect("should parse a style rule");
    assert_eq!(frags_of(input, &frags), classes(&["foo", "bar", "baz", "moo", "zoo"]));

    assert_eq!(&input[j..], "END");
}

#[test]
fn test_at_rule_simple() {
    let input = "@simple-rule blah \"asd;asd\" blah;";

    let (frags, j) = at_rule(input.as_bytes(), 0).expect("should parse an at-rule");
    assert_eq!(frags_of(input, &frags), vec![]);

    assert_eq!(j, input.len());
}

#[test]
fn test_at_rule_unknown() {
    let input = "@unknown blah \"asdasd\" blah {
        bunch of stuff {
            // things inside {
            blah
            ' { '
        }

        .bar {
            color: blue;

            .baz {
                color: green;
            }
        }
    }";

    let (frags, j) = at_rule(input.as_bytes(), 0).expect("should parse an at-rule");
    assert_eq!(frags_of(input, &frags), vec![]);

    assert_eq!(j, input.len());
}

#[test]
fn test_at_rule_media() {
    let input = "@media blah \"asdasd\" blah {
        .foo {
            background-color: red;
        }

        .bar {
            color: blue;

            .baz {
                color: green;
            }
        }
    }";

    let (frags, j) = at_rule(input.as_bytes(), 0).expect("should parse an at-rule");
    assert_eq!(frags_of(input, &frags), classes(&["foo", "bar", "baz"]));

    assert_eq!(j, input.len());
}

#[test]
fn test_at_rule_layer() {
    let input = "@layer test {
        .foo {
            background-color: red;
        }

        .bar {
            color: blue;

            .baz {
                color: green;
            }
        }
    }";

    let (frags, j) = at_rule(input.as_bytes(), 0).expect("should parse an at-rule");
    assert_eq!(frags_of(input, &frags), classes(&["foo", "bar", "baz"]));

    assert_eq!(j, input.len());
}

#[test]
fn test_top_level() {
    let input = "// tool.module.scss

        .default_border {
          border-color: lch(100% 10 10);
          border-style: dashed double;
          border-radius: 30px;

        }

        @media testing {
            .foo {
                color: red;
            }
        }

        @layer {
            .foo {
                color: blue;
            }
        }

        @layer foo;

        @debug 1+2 * 3==1+(2 * 3); // true

        .container {
          padding: 1em;
          border: 2px solid;
          border-color: lch(100% 10 10);
          border-style: dashed double;
          border-radius: 30px;
          margin: 1em;
          background-color: lch(45% 9.5 140.4);

          .bar {
            color: red;
          }
        }

        @debug 1+2 * 3==1+(2 * 3); // true
        ";

    let (frags, j) =
        style_rule_block_contents(input.as_bytes(), 0).expect("should parse top-level contents");
    assert_eq!(
        frags_of(input, &frags),
        classes(&["default_border", "foo", "foo", "container", "bar"])
    );

    println!("{}", &input[j..]);
    assert_eq!(j, input.len());
}

#[test]
fn parse_test_class() {
    let input = "._x1a2b Hello";

    let (sp, _) = class(input.as_bytes(), 0).expect("should parse a class");
    assert_eq!(&input[sp.start..sp.end], "_x1a2b");
}

#[test]
fn parse_test_selector() {
    let input = ".foo.bar [value=\"fa.sdasd\"] /* .banana */ // .apple \n \t .cry {";

    let (frags, _) = selector(input.as_bytes(), 0).expect("should parse a selector");
    assert_eq!(frags_of(input, &frags), classes(&["foo", "bar", "cry"]));

    let input = "{";

    let r = selector(input.as_bytes(), 0);
    assert!(r.is_err());
}

#[test]
fn parse_test_declaration() {
    let input = "background-color \t : red;";

    let j = declaration(input.as_bytes(), 0).expect("should parse a declaration");
    assert_eq!(&input[..j], "background-color \t : red;");

    let r = declaration(input.as_bytes(), j);
    assert!(r.is_err());
}

#[test]
fn parse_test_style_rule() {
    let input = ".foo.bar {
        background-color: red;
        .baz {
            color: blue;
        }
        @some-at-rule blah blah;
        @media blah .blah {
            .moo {
                color: red;
            }
        }
    }END";

    let (frags, j) = style_rule(input.as_bytes(), 0).expect("should parse a style rule");
    assert_eq!(frags_of(input, &frags), classes(&["foo", "bar", "baz", "moo"]));

    assert_eq!(&input[j..], "END");
}

#[test]
fn test_style_rule_list() {
    let input = "
        .foo.bar :global(.global) {
            background-color \t\r\n : red;
            color: blue;
        }

        .baz.moo {
            color: red;
            .rad {
                color: red;
            }
        }
    ";

    let (frags, j) = style_rule_list(input.as_bytes(), 0).expect("should parse a rule list");
    assert_eq!(
        frags_of(input, &frags),
        vec![
            Frag::Class("foo".to_string()),
            Frag::Class("bar".to_string()),
            Frag::Global {
                inner: ".global".to_string(),
                outer: ":global(.global)".to_string(),
            },
            Frag::Class("baz".to_string()),
            Frag::Class("moo".to_string()),
            Frag::Class("rad".to_string()),
        ]
    );

    assert_eq!(j, input.len());
}

#[test]
fn parse_test_at_rule_simple() {
    let input = "@simple-rule blah \"asd;asd\" blah;";

    let (frags, j) = at_rule(input.as_bytes(), 0).expect("should parse an at-rule");
    assert_eq!(frags_of(input, &frags), vec![]);

    assert_eq!(j, input.len());
}

#[test]
fn parse_test_at_rule_unknown() {
    let input = "@unknown blah \"asdasd\" blah {
        bunch of stuff {
            // things inside {
            blah
            ' { '
        }

        .bar {
            color: blue;

            .baz {
                color: green;
            }
        }
    }";

    let (frags, j) = at_rule(input.as_bytes(), 0).expect("should parse an at-rule");
    assert_eq!(frags_of(input, &frags), vec![]);

    assert_eq!(j, input.len());
}

#[test]
fn parse_test_at_rule_media() {
    let input = "@media blah \"asdasd\" blah {
        .foo {
            background-color: red;
        }

        .bar {
            color: blue;

            .baz {
                color: green;
            }
        }
    }";

    let (frags, j) = at_rule(input.as_bytes(), 0).expect("should parse an at-rule");
    assert_eq!(frags_of(input, &frags), classes(&["foo", "bar", "baz"]));

    assert_eq!(j, input.len());
}

#[test]
fn parse_errors_on_unterminated_input() {
    assert!(parse_css(b".foo { color: red;").is_err());
    assert!(parse_css(b".foo { content: \"oops; }").is_err());
    assert!(parse_css(b"/* never closed").is_err());
    assert!(parse_css(b":global(.foo { }").is_err());
}
