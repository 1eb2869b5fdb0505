use ssh_config_editor::line::{classify_line, keyword, Keyword, LineClass};
use ssh_config_editor::text::{chars_of, is_whitespace, lines_of};

fn strings(items: &[&str]) -> Vec<String> {
    items.iter().map(|s| s.to_string()).collect()
}

#[test]
fn whitespace_is_what_std_calls_whitespace() {
    let mut c = 0u32;
    while c <= 0x10ffff {
        if let Some(ch) = char::from_u32(c) {
            assert_eq!(is_whitespace(ch), ch.is_whitespace(), "U+{:04X}", c);
        }
        c += 1;
    }
}

#[test]
fn chars_of_keeps_every_character() {
    assert_eq!(chars_of(""), Vec::<char>::new());
    assert_eq!(chars_of("a\u{e9}\u{4e2d}\n"), vec!['a', '\u{e9}', '\u{4e2d}', '\n']);
}

#[test]
fn lines_of_splits_as_std_lines() {
    let samples = [
        "",
        "\n",
        "a",
        "a\n",
        "a\nb",
        "a\n\nb\n",
        "a\r\nb\r\n",
        "a\r",
        "a\r\r\nb",
        "\r\n",
        "\r",
        "a\rb\n",
        "  # c  \n\t\nHost x\n",
        "\n\n\n",
        "\u{e9}\u{2028}x\n\u{85}",
    ];
    for text in samples {
        let want: Vec<String> = text.lines().map(|l| l.to_string()).collect();
        assert_eq!(lines_of(text), want, "{:?}", text);
    }
}

#[test]
fn lines_of_exact_values() {
    assert_eq!(lines_of("a\r\nb"), strings(&["a", "b"]));
    assert_eq!(lines_of("a\r\r\n"), strings(&["a\r"]));
    assert_eq!(lines_of("a\n\n"), strings(&["a", ""]));
    assert_eq!(lines_of("x\r"), strings(&["x\r"]));
    assert!(lines_of("").is_empty());
}

#[test]
fn classify_comment_keeps_no_text_of_its_own() {
    assert_eq!(classify_line("# a comment"), LineClass::Comment);
    assert_eq!(classify_line("   \t#indented"), LineClass::Comment);
    assert_eq!(classify_line("#"), LineClass::Comment);
}

#[test]
fn classify_blank() {
    assert_eq!(classify_line(""), LineClass::Blank);
    assert_eq!(classify_line("   "), LineClass::Blank);
    assert_eq!(classify_line("\t \u{a0}\u{3000}"), LineClass::Blank);
}

#[test]
fn classify_malformed_has_no_value() {
    assert_eq!(classify_line("Host"), LineClass::Malformed);
    assert_eq!(classify_line("   Compression   "), LineClass::Malformed);
}

#[test]
fn classify_directive_splits_at_first_whitespace() {
    assert_eq!(
        classify_line("Host foo"),
        LineClass::Directive { key: "Host".to_string(), value: "foo".to_string() }
    );
    assert_eq!(
        classify_line("    User   bob  "),
        LineClass::Directive { key: "User".to_string(), value: "bob".to_string() }
    );
    assert_eq!(
        classify_line("ProxyCommand\tssh -W %h:%p jump"),
        LineClass::Directive {
            key: "ProxyCommand".to_string(),
            value: "ssh -W %h:%p jump".to_string()
        }
    );
    assert_eq!(
        classify_line("Host a b  c"),
        LineClass::Directive { key: "Host".to_string(), value: "a b  c".to_string() }
    );
    assert_eq!(
        classify_line("Key=value here"),
        LineClass::Directive { key: "Key=value".to_string(), value: "here".to_string() }
    );
}

#[test]
fn classify_agrees_with_splitn_on_whitespace() {
    let samples = [
        "Host foo",
        "  Port\t 22 ",
        "a b",
        "a  b  c ",
        "\u{a0}IdentityFile\u{2003}~/.ssh/id  ",
        "x\u{3000}y",
        "only",
        " # not a directive",
        "",
        "k \u{e9}t\u{e9}",
    ];
    for line in samples {
        let trimmed = line.trim();
        let want = if trimmed.starts_with('#') {
            LineClass::Comment
        } else if trimmed.is_empty() {
            LineClass::Blank
        } else {
            let parts: Vec<&str> = trimmed.splitn(2, char::is_whitespace).collect();
            if parts.len() < 2 {
                LineClass::Malformed
            } else {
                LineClass::Directive {
                    key: parts[0].trim().to_string(),
                    value: parts[1].trim().to_string(),
                }
            }
        };
        assert_eq!(classify_line(line), want, "{:?}", line);
    }
}

#[test]
fn keyword_ignores_case() {
    for key in ["host", "Host", "HOST", "hOsT"] {
        assert_eq!(keyword(key), Keyword::Host, "{}", key);
    }
    for key in ["include", "Include", "INCLUDE", "iNcLuDe"] {
        assert_eq!(keyword(key), Keyword::Include, "{}", key);
    }
    for key in ["", "hos", "hosts", "Hostname", "includes", "User", "h\u{f6}st", "\u{130}nclude"] {
        assert_eq!(keyword(key), Keyword::Other, "{:?}", key);
    }
}

#[test]
fn keyword_agrees_with_lowercasing() {
    // An ASCII character folds to its ASCII lower case, and what any other
    // character folds to holds something that is no letter of the two words:
    // so a key folds to `host` or `include` only if it reads so in ASCII.
    let mut c = 0u32;
    while c <= 0x10ffff {
        if let Some(ch) = char::from_u32(c) {
            let lower: String = ch.to_lowercase().collect();
            if ch.is_ascii() {
                assert_eq!(lower, ch.to_ascii_lowercase().to_string(), "U+{:04X}", c);
            } else {
                assert!(lower.chars().any(|l| !"hostinclude".contains(l)), "U+{:04X}", c);
            }
        }
        c += 1;
    }
    let keys = [
        "Host",
        "hOST",
        "Include",
        "INCLUDE",
        "Hostname",
        "host ",
        "\u{212a}",
        "\u{130}nclude",
        "incl\u{fc}de",
        "ho\u{17f}t",
        "",
    ];
    for key in keys {
        let want = match key.to_lowercase().as_str() {
            "host" => Keyword::Host,
            "include" => Keyword::Include,
            _ => Keyword::Other,
        };
        assert_eq!(keyword(key), want, "{:?}", key);
    }
}
