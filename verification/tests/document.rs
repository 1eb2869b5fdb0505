use ssh_config_editor::model::{ConfigLine, IncludedFileData, SshConfig};
use ssh_config_editor::parser::{feed_line, flush_host, OpenHost};

fn pair(key: &str, value: &str) -> (String, String) {
    (key.to_string(), value.to_string())
}

fn host(pattern: &str, options: &[(&str, &str)], source: &str) -> ConfigLine {
    ConfigLine::HostEntry {
        pattern: pattern.to_string(),
        options: options.iter().map(|(k, v)| pair(k, v)).collect(),
        source_file: source.to_string(),
    }
}

fn comment(text: &str, source: &str) -> ConfigLine {
    ConfigLine::Comment { text: text.to_string(), source_file: source.to_string() }
}

fn empty(source: &str) -> ConfigLine {
    ConfigLine::Empty { source_file: source.to_string() }
}

fn include_line(path: &str, source: &str) -> ConfigLine {
    ConfigLine::Include { path: path.to_string(), source_file: source.to_string() }
}

fn global(key: &str, value: &str, source: &str) -> ConfigLine {
    ConfigLine::GlobalOption {
        key: key.to_string(),
        value: value.to_string(),
        source_file: source.to_string(),
    }
}

fn parse(text: &str, source: &str) -> Vec<ConfigLine> {
    let mut config = SshConfig::new();
    config.parse_content(text, source);
    assert!(config.included_files.is_empty());
    config.lines
}

#[test]
fn new_document_is_empty() {
    let config = SshConfig::new();
    assert!(config.lines.is_empty());
    assert!(config.included_files.is_empty());
    assert_eq!(config.to_string("/any"), "");
}

#[test]
fn two_hosts_separated_by_a_blank_line() {
    let lines = parse("Host foo\n    User bob\n\nHost bar\n    Port 22\n", "/c");
    assert_eq!(
        lines,
        vec![
            host("foo", &[("User", "bob")], "/c"),
            empty("/c"),
            host("bar", &[("Port", "22")], "/c"),
        ]
    );
    for line in &lines {
        assert_eq!(line.source_file(), "/c");
    }
}

#[test]
fn options_before_any_host_are_global() {
    let lines = parse("Compression yes\nServerAliveInterval 60\nHost a\nPort 1\n", "f");
    assert_eq!(
        lines,
        vec![
            global("Compression", "yes", "f"),
            global("ServerAliveInterval", "60", "f"),
            host("a", &[("Port", "1")], "f"),
        ]
    );
}

#[test]
fn comment_and_blank_close_the_open_host() {
    let lines = parse("Host a\n  User u\n# note\n  Port 2\n\n  Port 3\n", "f");
    assert_eq!(
        lines,
        vec![
            host("a", &[("User", "u")], "f"),
            comment("# note", "f"),
            global("Port", "2", "f"),
            empty("f"),
            global("Port", "3", "f"),
        ]
    );
}

#[test]
fn comment_keeps_its_line_untrimmed() {
    let lines = parse("   # indented comment  \n", "f");
    assert_eq!(lines, vec![comment("   # indented comment  ", "f")]);
}

#[test]
fn include_closes_the_open_host_and_is_kept_as_written() {
    let lines = parse("Host a\n Port 1\ninclude   ~/.ssh/conf.d/*  \nPort 2\n", "f");
    assert_eq!(
        lines,
        vec![
            host("a", &[("Port", "1")], "f"),
            include_line("~/.ssh/conf.d/*", "f"),
            global("Port", "2", "f"),
        ]
    );
}

#[test]
fn host_keyword_in_any_case_and_other_keys_as_written() {
    let lines = parse("HOST a\n  pOrT 22\nhost b\n  USER x\n", "f");
    assert_eq!(
        lines,
        vec![host("a", &[("pOrT", "22")], "f"), host("b", &[("USER", "x")], "f")]
    );
}

#[test]
fn key_without_value_is_dropped() {
    let lines = parse("Host a\n  Compression\n  Port 1\nHost\nUser u\n", "f");
    assert_eq!(lines, vec![host("a", &[("Port", "1"), ("User", "u")], "f")]);
}

#[test]
fn duplicate_keys_and_patterns_are_kept() {
    let lines = parse("Host a\n  Port 1\n  Port 2\nHost a\n", "f");
    assert_eq!(
        lines,
        vec![host("a", &[("Port", "1"), ("Port", "2")], "f"), host("a", &[], "f")]
    );
}

#[test]
fn host_open_at_the_end_is_closed() {
    assert_eq!(parse("Host last", "f"), vec![host("last", &[], "f")]);
    assert_eq!(parse("", "f"), Vec::<ConfigLine>::new());
}

#[test]
fn parse_content_appends_to_what_is_there() {
    let mut config = SshConfig::new();
    config.parse_content("Host a\n", "one");
    config.parse_content("Host b\n", "two");
    assert_eq!(config.lines, vec![host("a", &[], "one"), host("b", &[], "two")]);
}

#[test]
fn feed_line_steps() {
    let mut lines: Vec<ConfigLine> = Vec::new();
    let (open, wanted) = feed_line(&mut lines, None, "Host a", "f");
    assert_eq!(open, Some(OpenHost { pattern: "a".to_string(), options: vec![] }));
    assert_eq!(wanted, None);
    assert!(lines.is_empty());
    let (open, wanted) = feed_line(&mut lines, open, "  Port 22", "f");
    assert_eq!(
        open,
        Some(OpenHost { pattern: "a".to_string(), options: vec![pair("Port", "22")] })
    );
    assert_eq!(wanted, None);
    let (open, wanted) = feed_line(&mut lines, open, "Include other", "f");
    assert_eq!(open, None);
    assert_eq!(wanted, Some("other".to_string()));
    assert_eq!(lines, vec![host("a", &[("Port", "22")], "f"), include_line("other", "f")]);
    let (open, wanted) = feed_line(&mut lines, open, "novalue", "f");
    assert_eq!((open, wanted), (None, None));
    assert_eq!(lines.len(), 2);
}

#[test]
fn flush_host_appends_only_an_open_host() {
    let mut lines: Vec<ConfigLine> = Vec::new();
    flush_host(&mut lines, None, "f");
    assert!(lines.is_empty());
    flush_host(
        &mut lines,
        Some(OpenHost { pattern: "p".to_string(), options: vec![pair("k", "v")] }),
        "f",
    );
    assert_eq!(lines, vec![host("p", &[("k", "v")], "f")]);
}

#[test]
fn render_each_kind_of_line() {
    let mut config = SshConfig::new();
    config.lines = vec![
        comment("  # top", "f"),
        empty("f"),
        global("Compression", "yes", "f"),
        include_line("conf.d/*", "f"),
        host("a b", &[("User", "u"), ("Port", "22")], "f"),
        host("c", &[], "f"),
    ];
    assert_eq!(
        config.to_string("f"),
        "  # top\n\nCompression yes\nInclude conf.d/*\nHost a b\n    User u\n    Port 22\nHost c\n"
    );
}

#[test]
fn render_keeps_only_the_lines_of_the_file() {
    let mut config = SshConfig::new();
    config.lines = vec![
        include_line("sub", "main"),
        host("x", &[("Port", "1")], "sub"),
        comment("# end", "main"),
        empty("sub"),
    ];
    assert_eq!(config.to_string("main"), "Include sub\n# end\n");
    assert_eq!(config.to_string("sub"), "Host x\n    Port 1\n\n");
    assert_eq!(config.to_string("other"), "");
}

#[test]
fn added_option_shows_in_its_file_only() {
    let mut config = SshConfig::new();
    config.lines = vec![
        include_line("sub", "main"),
        host("x", &[("User", "u")], "sub"),
        host("y", &[], "main"),
    ];
    let main_before = config.to_string("main");
    let sub_before = config.to_string("sub");
    assert!(config.add_option(1, "Port".to_string(), "2222".to_string()));
    assert_eq!(config.lines[1], host("x", &[("User", "u"), ("Port", "2222")], "sub"));
    let sub_after = config.to_string("sub");
    assert_eq!(sub_after, format!("{}    Port 2222\n", sub_before));
    assert!(sub_after.lines().any(|l| l == "    Port 2222"));
    assert_eq!(config.to_string("main"), main_before);
}

#[test]
fn add_option_needs_a_host_block() {
    let mut config = SshConfig::new();
    config.lines = vec![comment("# c", "f"), host("h", &[], "f")];
    let before = config.lines.clone();
    assert!(!config.add_option(0, "k".to_string(), "v".to_string()));
    assert!(!config.add_option(2, "k".to_string(), "v".to_string()));
    assert!(!config.add_option(usize::MAX, "k".to_string(), "v".to_string()));
    assert_eq!(config.lines, before);
}

#[test]
fn add_host_appends_to_the_chosen_file() {
    let mut config = SshConfig::new();
    config.parse_content("Host a\n", "main");
    let index = config.add_host("new".to_string(), "sub".to_string());
    assert_eq!(index, 1);
    assert_eq!(config.lines[1], host("new", &[], "sub"));
    assert_eq!(config.to_string("sub"), "Host new\n");
    assert_eq!(config.to_string("main"), "Host a\n");
}

#[test]
fn save_plan_lists_main_file_first_then_included_files() {
    let mut config = SshConfig::new();
    config.lines = vec![
        include_line("a", "/main"),
        host("x", &[], "/a"),
        include_line("b", "/main"),
        global("Port", "1", "/b"),
    ];
    config.included_files = vec![
        ("/a".to_string(), IncludedFileData { content: "old a".to_string(), lines: vec![] }),
        ("/b".to_string(), IncludedFileData { content: "old b".to_string(), lines: vec![] }),
    ];
    assert_eq!(
        config.save_plan("/main"),
        vec![
            ("/main".to_string(), "Include a\nInclude b\n".to_string()),
            ("/a".to_string(), "Host x\n".to_string()),
            ("/b".to_string(), "Port 1\n".to_string()),
        ]
    );
    assert_eq!(SshConfig::new().save_plan("m"), vec![("m".to_string(), String::new())]);
}

#[test]
fn written_text_is_the_file_line_by_line() {
    let text = "# first\r\n\t\nHOST  a\n\tuser   bob \nbroken\ninclude  x/*\nPort 1\n   # c\n";
    let mut config = SshConfig::new();
    config.parse_content(text, "f");
    assert_eq!(
        config.to_string("f"),
        "# first\n\nHost a\n    user bob\nInclude x/*\nPort 1\n   # c\n"
    );
}

#[test]
fn reading_what_was_written_gives_the_same_document() {
    let texts = [
        "Host foo\n    User bob\n\nHost bar\n    Port 22\n",
        "# c\nCompression yes\ninclude a b\nHOST x y\n\tk v w\n k2\tv2\n\n#end",
        "Host a\r\n  Port 1\r\n\r\nHost b\r\n",
        "  Port   22  \n\nHost *\n  ForwardAgent no\n  novalue\n  User\tme\n",
        "",
        "\n\n",
    ];
    for text in texts {
        let first = parse(text, "f");
        let mut config = SshConfig::new();
        config.lines = first.clone();
        let written = config.to_string("f");
        let second = parse(&written, "f");
        assert_eq!(second, first, "{:?}", text);
        let mut again = SshConfig::new();
        again.lines = second;
        assert_eq!(again.to_string("f"), written);
    }
}

#[test]
fn comment_ending_in_carriage_return_loses_it_on_reading_again() {
    let first = parse("# note\r\r\nHost a\n Port 1\n", "f");
    assert_eq!(first, vec![comment("# note\r", "f"), host("a", &[("Port", "1")], "f")]);
    let mut config = SshConfig::new();
    config.lines = first;
    let second = parse(&config.to_string("f"), "f");
    assert_eq!(second, vec![comment("# note", "f"), host("a", &[("Port", "1")], "f")]);
}
