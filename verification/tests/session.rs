use ssh_config_editor::model::{ConfigLine, SshConfig};
use ssh_config_editor::resolver::{expand, resolve, split_home};
use ssh_config_editor::session::{ParseSession, Reply, Request};

/// A file system held in memory: regular files with their text, directories,
/// other names for files, and what each glob pattern matches.
struct Files {
    texts: Vec<(String, String)>,
    unreadable: Vec<String>,
    directories: Vec<String>,
    canonical: Vec<(String, String)>,
    patterns: Vec<(String, Option<Vec<String>>)>,
    requests: Vec<Request>,
}

impl Files {
    fn new() -> Files {
        Files {
            texts: Vec::new(),
            unreadable: Vec::new(),
            directories: Vec::new(),
            canonical: Vec::new(),
            patterns: Vec::new(),
            requests: Vec::new(),
        }
    }

    fn file(mut self, path: &str, text: &str) -> Files {
        self.texts.push((path.to_string(), text.to_string()));
        self
    }

    fn pattern(mut self, pattern: &str, paths: &[&str]) -> Files {
        self.patterns
            .push((pattern.to_string(), Some(paths.iter().map(|p| p.to_string()).collect())));
        self
    }

    fn bad_pattern(mut self, pattern: &str) -> Files {
        self.patterns.push((pattern.to_string(), None));
        self
    }

    fn same_file(mut self, path: &str, canonical: &str) -> Files {
        self.canonical.push((path.to_string(), canonical.to_string()));
        self
    }

    fn text(&self, path: &str) -> Option<String> {
        if self.unreadable.iter().any(|p| p == path) {
            return None;
        }
        self.texts.iter().find(|(p, _)| p == path).map(|(_, t)| t.clone())
    }

    fn is_file(&self, path: &str) -> bool {
        self.texts.iter().any(|(p, _)| p == path) || self.unreadable.iter().any(|p| p == path)
    }

    fn canonical_of(&self, path: &str) -> Option<String> {
        self.canonical.iter().find(|(p, _)| p == path).map(|(_, c)| c.clone())
    }

    fn answer(&mut self, request: &Request) -> Reply {
        self.requests.push(request.clone());
        match request {
            Request::Expand { pattern } => {
                match self.patterns.iter().find(|(p, _)| p == pattern) {
                    Some((_, Some(paths))) => Reply::Matches { paths: paths.clone() },
                    Some((_, None)) => Reply::BadPattern,
                    None => {
                        let known = self.is_file(pattern)
                            || self.directories.iter().any(|d| d == pattern);
                        Reply::Matches {
                            paths: if known { vec![pattern.clone()] } else { Vec::new() },
                        }
                    }
                }
            }
            Request::Probe { path } => Reply::Probed {
                is_file: self.is_file(path),
                canonical: if self.is_file(path) { self.canonical_of(path) } else { None },
            },
            Request::Read { path } => Reply::Content { text: self.text(path) },
            Request::Done => panic!("nothing is asked"),
        }
    }

    fn parse(&mut self, root: &str, home: Option<&str>) -> SshConfig {
        let content = self.text(root).expect("the root file can be read");
        let mut session =
            ParseSession::start(root, self.canonical_of(root), &content, home.map(String::from));
        let mut request = session.request();
        let mut steps = 0;
        while request != Request::Done {
            steps += 1;
            assert!(steps < 10_000, "the session does not end");
            let reply = self.answer(&request);
            request = session.advance(reply);
            assert_eq!(request, session.request());
        }
        assert!(session.is_done());
        session.finish().expect("a session that is done has a document")
    }

    fn reads(&self) -> Vec<String> {
        let mut paths = Vec::new();
        for request in &self.requests {
            if let Request::Read { path } = request {
                paths.push(path.clone());
            }
        }
        paths
    }
}

fn host(pattern: &str, options: &[(&str, &str)], source: &str) -> ConfigLine {
    ConfigLine::HostEntry {
        pattern: pattern.to_string(),
        options: options.iter().map(|(k, v)| (k.to_string(), v.to_string())).collect(),
        source_file: source.to_string(),
    }
}

fn comment(text: &str, source: &str) -> ConfigLine {
    ConfigLine::Comment { text: text.to_string(), source_file: source.to_string() }
}

fn include_line(path: &str, source: &str) -> ConfigLine {
    ConfigLine::Include { path: path.to_string(), source_file: source.to_string() }
}

fn global(key: &str, value: &str, source: &str) -> ConfigLine {
    ConfigLine::GlobalOption {
        key: key.to_string(),
        value: value.to_string(),
        source_file: source.to_string(),
    }
}

fn included_paths(config: &SshConfig) -> Vec<String> {
    config.included_files.iter().map(|(p, _)| p.clone()).collect()
}

#[test]
fn file_without_includes_asks_for_nothing() {
    let mut files = Files::new().file("/c", "Host foo\n    User bob\n\nHost bar\n    Port 22\n");
    let config = files.parse("/c", None);
    assert_eq!(
        config.lines,
        vec![
            host("foo", &[("User", "bob")], "/c"),
            ConfigLine::Empty { source_file: "/c".to_string() },
            host("bar", &[("Port", "22")], "/c"),
        ]
    );
    assert!(config.included_files.is_empty());
    assert!(files.requests.is_empty());
}

#[test]
fn included_file_is_spliced_in_after_its_include_line() {
    let mut files = Files::new()
        .file("/home/u/.ssh/config", "Include sub.config")
        .file("/home/u/.ssh/sub.config", "Host x\n    Port 1\n");
    let config = files.parse("/home/u/.ssh/config", None);
    assert_eq!(
        config.lines,
        vec![
            include_line("sub.config", "/home/u/.ssh/config"),
            host("x", &[("Port", "1")], "/home/u/.ssh/sub.config"),
        ]
    );
    assert_eq!(config.included_files.len(), 1);
    assert_eq!(config.included_files[0].0, "/home/u/.ssh/sub.config");
    assert_eq!(config.included_files[0].1.content, "Host x\n    Port 1\n");
    assert!(config.included_files[0].1.lines.is_empty());
    assert_eq!(
        files.requests,
        vec![
            Request::Expand { pattern: "/home/u/.ssh/sub.config".to_string() },
            Request::Probe { path: "/home/u/.ssh/sub.config".to_string() },
            Request::Read { path: "/home/u/.ssh/sub.config".to_string() },
        ]
    );
}

#[test]
fn lines_after_an_include_follow_the_included_file() {
    let mut files = Files::new()
        .file("/d/main", "Host a\n  Port 1\nInclude sub\nPort 9\nHost b\n")
        .file("/d/sub", "# in sub\nHost s\n");
    let config = files.parse("/d/main", None);
    assert_eq!(
        config.lines,
        vec![
            host("a", &[("Port", "1")], "/d/main"),
            include_line("sub", "/d/main"),
            comment("# in sub", "/d/sub"),
            host("s", &[], "/d/sub"),
            global("Port", "9", "/d/main"),
            host("b", &[], "/d/main"),
        ]
    );
    assert_eq!(config.to_string("/d/main"), "Host a\n    Port 1\nInclude sub\nPort 9\nHost b\n");
    assert_eq!(config.to_string("/d/sub"), "# in sub\nHost s\n");
}

#[test]
fn files_that_include_each_other_are_each_parsed_once() {
    let mut files = Files::new()
        .file("/d/a", "Host a\nInclude b\n# tail a\n")
        .file("/d/b", "Host b\nInclude a\n# tail b\n");
    let config = files.parse("/d/a", None);
    assert_eq!(
        config.lines,
        vec![
            host("a", &[], "/d/a"),
            include_line("b", "/d/a"),
            host("b", &[], "/d/b"),
            include_line("a", "/d/b"),
            comment("# tail b", "/d/b"),
            comment("# tail a", "/d/a"),
        ]
    );
    assert_eq!(files.reads(), vec!["/d/b".to_string()]);
    assert_eq!(included_paths(&config), vec!["/d/b".to_string()]);
}

#[test]
fn file_that_includes_itself_is_parsed_once() {
    let mut files = Files::new().file("/d/a", "Include a\nHost a\n");
    let config = files.parse("/d/a", None);
    assert_eq!(config.lines, vec![include_line("a", "/d/a"), host("a", &[], "/d/a")]);
    assert!(files.reads().is_empty());
    assert!(config.included_files.is_empty());
}

#[test]
fn pattern_without_match_leaves_only_the_include_line() {
    let mut files = Files::new()
        .file("/d/main", "Include conf.d/*.conf\nHost a\n")
        .pattern("/d/conf.d/*.conf", &[]);
    let config = files.parse("/d/main", None);
    assert_eq!(
        config.lines,
        vec![include_line("conf.d/*.conf", "/d/main"), host("a", &[], "/d/main")]
    );
    assert!(config.included_files.is_empty());
    assert_eq!(
        files.requests,
        vec![Request::Expand { pattern: "/d/conf.d/*.conf".to_string() }]
    );
}

#[test]
fn matches_are_taken_in_order() {
    let mut files = Files::new()
        .file("/d/main", "Include conf.d/*\n")
        .file("/d/conf.d/1", "Host one\n")
        .file("/d/conf.d/2", "Host two\n")
        .pattern("/d/conf.d/*", &["/d/conf.d/1", "/d/conf.d/2"]);
    let config = files.parse("/d/main", None);
    assert_eq!(
        config.lines,
        vec![
            include_line("conf.d/*", "/d/main"),
            host("one", &[], "/d/conf.d/1"),
            host("two", &[], "/d/conf.d/2"),
        ]
    );
    assert_eq!(
        included_paths(&config),
        vec!["/d/conf.d/1".to_string(), "/d/conf.d/2".to_string()]
    );
}

#[test]
fn match_taken_up_by_an_earlier_match_is_passed_over() {
    let mut files = Files::new()
        .file("/d/main", "Include *.conf\n")
        .file("/d/b.conf", "Host b\nInclude c.conf\n")
        .file("/d/c.conf", "Host c\n")
        .pattern("/d/*.conf", &["/d/b.conf", "/d/c.conf"]);
    let config = files.parse("/d/main", None);
    assert_eq!(
        config.lines,
        vec![
            include_line("*.conf", "/d/main"),
            host("b", &[], "/d/b.conf"),
            include_line("c.conf", "/d/b.conf"),
            host("c", &[], "/d/c.conf"),
        ]
    );
    assert_eq!(files.reads(), vec!["/d/b.conf".to_string(), "/d/c.conf".to_string()]);
    assert_eq!(
        included_paths(&config),
        vec!["/d/c.conf".to_string(), "/d/b.conf".to_string()]
    );
}

#[test]
fn two_names_of_one_file_are_parsed_once() {
    let mut files = Files::new()
        .file("/d/main", "Include x\nInclude link\n")
        .file("/d/x", "Host x\n")
        .file("/d/link", "Host x\n")
        .same_file("/d/link", "/d/x")
        .same_file("/d/x", "/d/x");
    let config = files.parse("/d/main", None);
    assert_eq!(
        config.lines,
        vec![
            include_line("x", "/d/main"),
            host("x", &[], "/d/x"),
            include_line("link", "/d/main"),
        ]
    );
    assert_eq!(files.reads(), vec!["/d/x".to_string()]);
}

#[test]
fn root_is_known_by_its_canonical_path() {
    let mut files = Files::new()
        .file("/link/config", "Include /real/config\nHost a\n")
        .file("/real/config", "Include /real/config\nHost a\n")
        .same_file("/link/config", "/real/config")
        .same_file("/real/config", "/real/config");
    let config = files.parse("/link/config", None);
    assert_eq!(
        config.lines,
        vec![include_line("/real/config", "/link/config"), host("a", &[], "/link/config")]
    );
    assert!(files.reads().is_empty());
}

#[test]
fn directory_among_the_matches_is_passed_over() {
    let mut files = Files::new().file("/d/main", "Include sub\nHost a\n");
    files.directories.push("/d/sub".to_string());
    let config = files.parse("/d/main", None);
    assert_eq!(config.lines, vec![include_line("sub", "/d/main"), host("a", &[], "/d/main")]);
    assert!(config.included_files.is_empty());
    assert_eq!(
        files.requests,
        vec![
            Request::Expand { pattern: "/d/sub".to_string() },
            Request::Probe { path: "/d/sub".to_string() },
        ]
    );
}

#[test]
fn file_that_cannot_be_read_is_passed_over() {
    let mut files = Files::new().file("/d/main", "Include secret\nInclude secret\nHost a\n");
    files.unreadable.push("/d/secret".to_string());
    let config = files.parse("/d/main", None);
    assert_eq!(
        config.lines,
        vec![
            include_line("secret", "/d/main"),
            include_line("secret", "/d/main"),
            host("a", &[], "/d/main"),
        ]
    );
    assert!(config.included_files.is_empty());
    assert_eq!(files.reads(), vec!["/d/secret".to_string()]);
}

#[test]
fn pattern_that_is_no_glob_is_tried_as_one_path() {
    let mut files = Files::new()
        .file("/d/main", "Include odd[\nInclude gone[\n")
        .file("/d/odd[", "Host odd\n")
        .bad_pattern("/d/odd[")
        .bad_pattern("/d/gone[");
    let config = files.parse("/d/main", None);
    assert_eq!(
        config.lines,
        vec![
            include_line("odd[", "/d/main"),
            host("odd", &[], "/d/odd["),
            include_line("gone[", "/d/main"),
        ]
    );
    assert_eq!(included_paths(&config), vec!["/d/odd[".to_string()]);
    assert_eq!(
        files.requests,
        vec![
            Request::Expand { pattern: "/d/odd[".to_string() },
            Request::Probe { path: "/d/odd[".to_string() },
            Request::Read { path: "/d/odd[".to_string() },
            Request::Expand { pattern: "/d/gone[".to_string() },
            Request::Probe { path: "/d/gone[".to_string() },
        ]
    );
}

#[test]
fn tilde_stands_for_the_home_directory() {
    let mut files = Files::new()
        .file("/etc/ssh/config", "Include ~/.ssh/extra\n")
        .file("/home/u/.ssh/extra", "Host e\n");
    let config = files.parse("/etc/ssh/config", Some("/home/u"));
    assert_eq!(
        config.lines,
        vec![include_line("~/.ssh/extra", "/etc/ssh/config"), host("e", &[], "/home/u/.ssh/extra")]
    );
}

#[test]
fn tilde_without_home_directory_is_a_relative_path() {
    let mut files = Files::new().file("/etc/ssh/config", "Include ~/.ssh/extra\n");
    let config = files.parse("/etc/ssh/config", None);
    assert_eq!(config.lines, vec![include_line("~/.ssh/extra", "/etc/ssh/config")]);
    assert_eq!(
        files.requests,
        vec![Request::Expand { pattern: "/etc/ssh/~/.ssh/extra".to_string() }]
    );
}

#[test]
fn included_file_resolves_its_own_includes_from_its_directory() {
    let mut files = Files::new()
        .file("/a/main", "Include ../b/mid\n")
        .file("/a/../b/mid", "Include leaf\n")
        .file("/a/../b/leaf", "Host leaf\n");
    let config = files.parse("/a/main", None);
    assert_eq!(
        config.lines,
        vec![
            include_line("../b/mid", "/a/main"),
            include_line("leaf", "/a/../b/mid"),
            host("leaf", &[], "/a/../b/leaf"),
        ]
    );
    assert_eq!(
        included_paths(&config),
        vec!["/a/../b/leaf".to_string(), "/a/../b/mid".to_string()]
    );
}

#[test]
fn file_read_twice_under_one_path_is_listed_once() {
    let text = "Include sub\nInclude sub\n";
    let mut session = ParseSession::start("/d/main", None, text, None);
    assert_eq!(session.request(), Request::Expand { pattern: "/d/sub".to_string() });
    let mut request = session.advance(Reply::Matches { paths: vec!["/d/sub".to_string()] });
    assert_eq!(request, Request::Probe { path: "/d/sub".to_string() });
    request =
        session.advance(Reply::Probed { is_file: true, canonical: Some("/one".to_string()) });
    assert_eq!(request, Request::Read { path: "/d/sub".to_string() });
    request = session.advance(Reply::Content { text: Some("Host first\n".to_string()) });
    assert_eq!(request, Request::Expand { pattern: "/d/sub".to_string() });
    request = session.advance(Reply::Matches { paths: vec!["/d/sub".to_string()] });
    assert_eq!(request, Request::Probe { path: "/d/sub".to_string() });
    request =
        session.advance(Reply::Probed { is_file: true, canonical: Some("/two".to_string()) });
    assert_eq!(request, Request::Read { path: "/d/sub".to_string() });
    request = session.advance(Reply::Content { text: Some("Host second\n".to_string()) });
    assert_eq!(request, Request::Done);
    let config = session.finish().unwrap();
    assert_eq!(included_paths(&config), vec!["/d/sub".to_string()]);
    assert_eq!(config.included_files[0].1.content, "Host second\n");
    assert_eq!(config.to_string("/d/sub"), "Host first\nHost second\n");
}

#[test]
fn reply_that_answers_another_request_changes_nothing() {
    let mut session = ParseSession::start("/d/main", None, "Include sub\nHost a\n", None);
    let asked = Request::Expand { pattern: "/d/sub".to_string() };
    assert_eq!(session.request(), asked);
    assert_eq!(session.advance(Reply::Content { text: Some("Host no\n".to_string()) }), asked);
    assert_eq!(session.advance(Reply::Probed { is_file: true, canonical: None }), asked);
    assert!(!session.is_done());
    let probe = session.advance(Reply::Matches { paths: vec!["/d/sub".to_string()] });
    assert_eq!(probe, Request::Probe { path: "/d/sub".to_string() });
    assert_eq!(session.advance(Reply::BadPattern), probe);
    assert_eq!(session.advance(Reply::Matches { paths: vec![] }), probe);
    let read = session.advance(Reply::Probed { is_file: true, canonical: None });
    assert_eq!(read, Request::Read { path: "/d/sub".to_string() });
    assert_eq!(session.advance(Reply::Probed { is_file: true, canonical: None }), read);
    assert_eq!(session.advance(Reply::Content { text: None }), Request::Done);
    assert_eq!(session.advance(Reply::Matches { paths: vec!["/x".to_string()] }), Request::Done);
    let config = session.finish().unwrap();
    assert_eq!(config.lines, vec![include_line("sub", "/d/main"), host("a", &[], "/d/main")]);
}

#[test]
fn unfinished_session_has_no_document() {
    let session = ParseSession::start("/d/main", None, "Include sub\n", None);
    assert!(!session.is_done());
    assert!(session.finish().is_none());
}

#[test]
fn split_home_takes_the_tilde_and_the_slash_off() {
    assert_eq!(split_home("~/.ssh/conf"), Some(".ssh/conf".to_string()));
    assert_eq!(split_home("~/"), Some(String::new()));
    assert_eq!(split_home("~"), None);
    assert_eq!(split_home("~user/x"), None);
    assert_eq!(split_home("/abs/~/x"), None);
    assert_eq!(split_home(""), None);
}

#[test]
fn expand_puts_the_home_directory_in_place() {
    let home = Some("/home/u".to_string());
    assert_eq!(expand("~/.ssh/conf", &home), "/home/u/.ssh/conf");
    assert_eq!(expand("~/.ssh/conf", &None), "~/.ssh/conf");
    assert_eq!(expand("conf.d/*", &home), "conf.d/*");
    assert_eq!(expand("~other/x", &home), "~other/x");
}

#[test]
fn resolve_anchors_relative_paths_at_the_including_file() {
    let home = Some("/home/u".to_string());
    assert_eq!(resolve("sub.config", "/home/u/.ssh/config", &None), "/home/u/.ssh/sub.config");
    assert_eq!(resolve("conf.d/*.conf", "/etc/ssh/ssh_config", &home), "/etc/ssh/conf.d/*.conf");
    assert_eq!(resolve("/abs/file", "/etc/ssh/ssh_config", &home), "/abs/file");
    assert_eq!(resolve("~/x", "/etc/ssh/ssh_config", &home), "/home/u/x");
    assert_eq!(resolve("x", "config", &None), "x");
    assert_eq!(resolve("x", "/", &None), "x");
    assert_eq!(resolve("~/x", "dir/config", &Some("rel".to_string())), "dir/rel/x");
}

#[test]
fn session_for_the_user_expands_the_tilde_with_the_home_directory() {
    let home = dirs::home_dir().map(|dir| dir.to_string_lossy().into_owned());
    let explicit = ParseSession::start("/etc/ssh/config", None, "Include ~/extra\n", home.clone());
    let session = ParseSession::start_for_user("/etc/ssh/config", None, "Include ~/extra\n");
    assert_eq!(session.request(), explicit.request());
    let want = match home {
        Some(dir) => std::path::Path::new(&dir).join("extra").to_string_lossy().into_owned(),
        None => "/etc/ssh/~/extra".to_string(),
    };
    assert_eq!(session.request(), Request::Expand { pattern: want });
}

#[test]
fn session_for_the_user_parses_a_file_without_includes() {
    let session = ParseSession::start_for_user("/c", None, "Host a\n  Port 1\n");
    assert!(session.is_done());
    let config = session.finish().unwrap();
    assert_eq!(config.lines, vec![host("a", &[("Port", "1")], "/c")]);
}

#[test]
fn loading_again_what_was_saved_gives_the_same_document() {
    let mut files = Files::new()
        .file("/d/main", "# main\r\nHOST a\n\tPort   1\ninclude conf.d/*\n\nbroken\nUser u\n")
        .file("/d/conf.d/1", "host one\n  HostName   1.example \n  Include ../extra\nPort 2\n")
        .file("/d/conf.d/2", "\n\n   # two\nHost two")
        .file("/d/conf.d/../extra", "Host extra\n k v\n")
        .pattern("/d/conf.d/*", &["/d/conf.d/1", "/d/conf.d/2"]);
    let first = files.parse("/d/main", None);
    let plan = first.save_plan("/d/main");
    assert_eq!(
        plan.iter().map(|(path, _)| path.as_str()).collect::<Vec<&str>>(),
        vec!["/d/main", "/d/conf.d/../extra", "/d/conf.d/1", "/d/conf.d/2"]
    );
    assert_eq!(plan[0].1, "# main\nHost a\n    Port 1\nInclude conf.d/*\n\nUser u\n");
    assert_eq!(plan[2].1, "Host one\n    HostName 1.example\nInclude ../extra\nPort 2\n");
    for (path, text) in &plan {
        for entry in files.texts.iter_mut() {
            if &entry.0 == path {
                entry.1 = text.clone();
            }
        }
    }
    files.requests.clear();
    let second = files.parse("/d/main", None);
    assert_eq!(second.lines, first.lines);
    assert_eq!(included_paths(&second), included_paths(&first));
    assert_eq!(second.save_plan("/d/main"), plan);
}
