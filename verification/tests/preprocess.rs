use bf::bfpp::driver::strip_comments;
use bf::bfpp::includes::{resolve, Content, FileEntry, Link, LinkEntry, Resolution, Sources};
use bf::bfpp::repeat::expand_repeats;
use bf::bfpp::{preprocess, resolve_includes, Error};

fn link(from: &str, target: &str, path: &str, canonical: &str) -> LinkEntry {
    LinkEntry {
        from: from.to_string(),
        target: target.to_string(),
        link: Link::File { path: path.to_string(), canonical: canonical.to_string() },
    }
}

fn file(canonical: &str, text: &str) -> FileEntry {
    FileEntry { canonical: canonical.to_string(), content: Content::Text(text.to_string()) }
}

fn repeat_error(text: &str) -> String {
    match expand_repeats(text) {
        Err(Error::RepeatError { message }) => message,
        other => panic!("expected a repeat error, got {:?}", other),
    }
}

#[test]
fn strips_both_comment_forms() {
    assert_eq!(strip_comments("+ // one\n- # two\n>"), "+ \n- \n>");
    assert_eq!(strip_comments("a/b//c#d"), "a/b");
    assert_eq!(strip_comments("a#b//c"), "a");
    assert_eq!(strip_comments("/"), "/");
    assert_eq!(strip_comments(""), "");
    assert_eq!(strip_comments("\n\n"), "\n\n");
}

#[test]
fn strip_keeps_hash_of_directive_lines() {
    assert_eq!(strip_comments("  #include \"a\" // x\n"), "  #include \"a\" \n");
    assert_eq!(strip_comments("\u{a0}#includeX # y"), "\u{a0}#includeX # y");
    assert_eq!(strip_comments("x #include \"a\""), "x ");
}

#[test]
fn strip_normalizes_line_endings() {
    assert_eq!(strip_comments("+\r\n-\r\n"), "+\n-\n");
    assert_eq!(strip_comments("+\r"), "+");
    assert_eq!(strip_comments("+\r\r\n"), "+\r\n");
}

#[test]
fn expands_single_characters_and_blocks() {
    assert_eq!(expand_repeats("@repeat 3 +").unwrap(), "+++");
    assert_eq!(expand_repeats("a@repeat 2 { >+ }b").unwrap(), "a >+  >+ b");
    assert_eq!(expand_repeats("@repeat\t2\n{}x").unwrap(), "x");
    assert_eq!(expand_repeats("@repeat 2 \u{e9}").unwrap(), "\u{e9}\u{e9}");
    assert_eq!(expand_repeats("@repeat 02 @").unwrap(), "@@");
}

#[test]
fn expands_nested_macros() {
    assert_eq!(expand_repeats("@repeat 2 {a@repeat 3 b}").unwrap(), "abbbabbb");
    assert_eq!(expand_repeats("@repeat 2 {@repeat 2 {x}}!").unwrap(), "xxxx!");
}

#[test]
fn text_without_macros_is_unchanged() {
    let text = "++[->+<] } @ repeat @repea \u{1f600}\n";
    assert_eq!(expand_repeats(text).unwrap(), text);
}

#[test]
fn repeat_reports_each_failure() {
    assert_eq!(repeat_error("ab@repeat3 +"), "invalid @repeat syntax at byte 2");
    assert_eq!(repeat_error("@repeat"), "invalid @repeat syntax at byte 0");
    assert_eq!(repeat_error("@repeat x +"), "expected repeat count at byte 8");
    assert_eq!(repeat_error("@repeat 0 +"), "repeat count must be positive at byte 8");
    assert_eq!(repeat_error("\u{e9}@repeat 3+"), "invalid @repeat syntax at byte 2");
    assert_eq!(repeat_error("\u{1f600}@repeat 3 "), "missing repeat target at byte 4");
    assert_eq!(repeat_error("@repeat 3 \u{a0}"), "invalid repeat target at byte 10");
    assert_eq!(repeat_error("@repeat 3 { + "), "missing '}'");
    assert_eq!(
        repeat_error("@repeat 99999999999999999999999999999999999999999 +"),
        "repeat count overflow"
    );
}

#[test]
fn error_messages_are_rendered() {
    assert_eq!(Error::Usage.to_string(), "Usage: bfpp <input.bfpp> -o <output.bf>");
    let e = Error::ReadFailed { path: "a.bf".to_string(), source: "gone".to_string() };
    assert_eq!(e.to_string(), "failed to read 'a.bf': gone");
    let e = Error::WriteFailed { path: "b".to_string(), source: "full".to_string() };
    assert_eq!(e.to_string(), "failed to write 'b': full");
    let e = Error::InvalidUtf8 { path: "c".to_string() };
    assert_eq!(e.to_string(), "invalid UTF-8 in 'c'");
    let e = Error::IncludeError { path: "d".to_string(), message: "m".to_string() };
    assert_eq!(e.to_string(), "include error in 'd': m");
    let e = Error::RepeatError { message: "missing '}'".to_string() };
    assert_eq!(e.to_string(), "repeat error: missing '}'");
}

#[test]
fn resolves_nested_includes_in_place() {
    let sources = Sources {
        links: vec![
            link("", "main.bf", "main.bf", "/p/main.bf"),
            link("/p/main.bf", "lib/a.bf", "./lib/a.bf", "/p/lib/a.bf"),
            link("/p/lib/a.bf", "b.bf", "./lib/b.bf", "/p/lib/b.bf"),
        ],
        files: vec![
            file("/p/main.bf", "+\r\n  #include \"lib/a.bf\" // first\n-\n#include \"lib/a.bf\""),
            file("/p/lib/a.bf", "[\n#include \"b.bf\"\n]"),
            file("/p/lib/b.bf", ">\n"),
        ],
    };
    assert_eq!(resolve_includes(&sources, "main.bf").unwrap(), "+\n[\n>\n]\n-\n[\n>\n]");
}

#[test]
fn plain_source_passes_through() {
    let text = "++[>+<-]\r\n>.\n\n,[.,]";
    let sources = Sources {
        links: vec![link("", "p.bf", "p.bf", "/p.bf")],
        files: vec![file("/p.bf", text)],
    };
    assert_eq!(preprocess(&sources, "p.bf").unwrap(), "++[>+<-]\n>.\n\n,[.,]");
}

#[test]
fn preprocess_runs_all_three_stages() {
    let sources = Sources {
        links: vec![link("", "m", "m", "/m"), link("/m", "i", "i", "/i")],
        files: vec![
            file("/m", "#include \"i\"  # twice\n@repeat 2 { #include \"i\"\n+ } // done\n"),
            file("/i", "@repeat 3 - // three"),
        ],
    };
    assert_eq!(preprocess(&sources, "m").unwrap(), "--- \n \n+  \n+  \n");
}

#[test]
fn include_cycles_are_rejected() {
    let sources = Sources {
        links: vec![
            link("", "a", "a", "/a"),
            link("/a", "b", "./b", "/b"),
            link("/b", "c", "./c", "/c"),
            link("/c", "../b", "./../b", "/b"),
        ],
        files: vec![
            file("/a", "#include \"b\"\n"),
            file("/b", "+\n#include \"c\"\n"),
            file("/c", "#include \"../b\"\n"),
        ],
    };
    match resolve_includes(&sources, "a") {
        Err(Error::IncludeError { path, message }) => {
            assert_eq!(path, "./../b");
            assert_eq!(message, "include cycle: /b -> /c -> /b");
        }
        other => panic!("expected a cycle, got {:?}", other),
    }
}

#[test]
fn a_file_may_not_include_itself() {
    let sources = Sources {
        links: vec![link("", "a", "a", "/a"), link("/a", "a", "./a", "/a")],
        files: vec![file("/a", "#include \"a\"")],
    };
    match resolve_includes(&sources, "a") {
        Err(Error::IncludeError { path, message }) => {
            assert_eq!(path, "./a");
            assert_eq!(message, "include cycle: /a -> /a");
        }
        other => panic!("expected a cycle, got {:?}", other),
    }
}

#[test]
fn malformed_directives_are_rejected() {
    for bad in [
        "#include",
        "#include a",
        "#include \"a",
        "#include \"\"",
        "#include \"a\" b",
        "#include \"a\" /",
        "#includeX \"a\"",
    ] {
        let sources = Sources {
            links: vec![link("", "r", "r.bf", "/r"), link("/r", "a", "a", "/a")],
            files: vec![file("/r", bad), file("/a", "+")],
        };
        match resolve_includes(&sources, "r") {
            Err(Error::IncludeError { path, message }) => {
                assert_eq!(path, "r.bf");
                assert_eq!(message, "invalid include syntax");
            }
            other => panic!("expected a syntax error for {:?}, got {:?}", bad, other),
        }
    }
}

#[test]
fn well_formed_directives_are_accepted() {
    for good in [
        "#include \"a\"",
        "#include\"a\"",
        " \t#include   \"a\"   ",
        "#include \"a\"//c",
        "#include \"a\" #c",
    ] {
        let sources = Sources {
            links: vec![link("", "r", "r.bf", "/r"), link("/r", "a", "a", "/a")],
            files: vec![file("/r", good), file("/a", "+")],
        };
        assert_eq!(resolve_includes(&sources, "r").unwrap(), "+");
    }
}

#[test]
fn absolute_include_paths_are_rejected() {
    let sources = Sources {
        links: vec![
            link("", "r", "r.bf", "/r"),
            LinkEntry { from: "/r".to_string(), target: "/etc/x".to_string(), link: Link::Absolute },
        ],
        files: vec![file("/r", "#include \"/etc/x\"")],
    };
    match resolve_includes(&sources, "r") {
        Err(Error::IncludeError { path, message }) => {
            assert_eq!(path, "r.bf");
            assert_eq!(message, "include path must be relative");
        }
        other => panic!("expected a refusal, got {:?}", other),
    }
}

#[test]
fn unreadable_sources_are_reported() {
    let sources = Sources {
        links: vec![
            link("", "r", "r.bf", "/r"),
            LinkEntry {
                from: "/r".to_string(),
                target: "x".to_string(),
                link: Link::Unresolved { path: "./x".to_string(), source: "no such file".to_string() },
            },
            link("/r", "y", "./y", "/y"),
            link("/r", "z", "./z", "/z"),
        ],
        files: vec![
            file("/r", "#include \"x\""),
            FileEntry { canonical: "/y".to_string(), content: Content::Unreadable { source: "denied".to_string() } },
            FileEntry { canonical: "/z".to_string(), content: Content::InvalidUtf8 },
        ],
    };
    assert_eq!(resolve_includes(&sources, "r").unwrap_err().to_string(), "failed to read './x': no such file");

    let mut sources = sources;
    sources.files[0] = file("/r", "#include \"y\"");
    assert_eq!(resolve_includes(&sources, "r").unwrap_err().to_string(), "failed to read './y': denied");
    sources.files[0] = file("/r", "#include \"z\"");
    assert_eq!(resolve_includes(&sources, "r").unwrap_err().to_string(), "invalid UTF-8 in './z'");
}

#[test]
fn resolve_says_what_is_missing() {
    let mut sources = Sources { links: vec![], files: vec![] };
    match resolve(&sources, "r") {
        Resolution::NeedLink { path, from, target } => {
            assert_eq!(path, "");
            assert_eq!(from, "");
            assert_eq!(target, "r");
        }
        _ => panic!("expected a question"),
    }
    assert_eq!(resolve_includes(&sources, "r").unwrap_err().to_string(), "failed to read 'r': unknown source");
    sources.links.push(link("", "r", "r.bf", "/r"));
    match resolve(&sources, "r") {
        Resolution::NeedFile { canonical } => assert_eq!(canonical, "/r"),
        _ => panic!("expected a question"),
    }
    sources.files.push(file("/r", "+\n#include \"q\"\n"));
    match resolve(&sources, "r") {
        Resolution::NeedLink { path, from, target } => {
            assert_eq!(path, "r.bf");
            assert_eq!(from, "/r");
            assert_eq!(target, "q");
        }
        _ => panic!("expected a question"),
    }
    sources.links.push(link("/r", "q", "./q", "/q"));
    sources.files.push(file("/q", "-"));
    match resolve(&sources, "r") {
        Resolution::Done(text) => assert_eq!(text, "+\n-\n"),
        _ => panic!("expected the text"),
    }
}
