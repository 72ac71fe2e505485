use mdbook::path::{file_stem, join, parent, path_to_root, strip, with_extension};
use mdbook::renderer::html_handlebars::hbs_renderer::HtmlHandlebars;
use mdbook::source::{SourceNode, SourceTree};
use mdbook::text::{chars_of, index_of, index_of_pair, is_whitespace, lines_of, string_of, trim_chars};

#[test]
fn join_puts_one_slash_between() {
    assert_eq!(join("src", "intro.md"), "src/intro.md");
    assert_eq!(join("src/", "intro.md"), "src/intro.md");
    assert_eq!(join("", "intro.md"), "intro.md");
    assert_eq!(join("src", ""), "src/");
    assert_eq!(join("ch1/", "index.md"), "ch1/index.md");
    assert_eq!(join("a/b", "c/d.md"), "a/b/c/d.md");
}

#[test]
fn join_lets_a_rooted_path_stand_alone() {
    assert_eq!(join("src", "/etc/x"), "/etc/x");
    assert_eq!(join("", "/"), "/");
}

#[test]
fn with_extension_replaces_or_adds() {
    assert_eq!(with_extension("ch2", "md"), "ch2.md");
    assert_eq!(with_extension("intro.md", "md"), "intro.md");
    assert_eq!(with_extension("notes.txt", "md"), "notes.md");
    assert_eq!(with_extension("a/b.c/d", "md"), "a/b.c/d.md");
    assert_eq!(with_extension("a/b.tar.gz", "html"), "a/b.tar.html");
    assert_eq!(with_extension("ch1/index.md", "html"), "ch1/index.html");
    assert_eq!(with_extension("ch1/", "md"), "ch1.md");
}

#[test]
fn with_extension_takes_the_extension_away() {
    assert_eq!(with_extension("intro.md", ""), "intro");
    assert_eq!(with_extension("a/intro.md", ""), "a/intro");
    assert_eq!(with_extension("intro", ""), "intro");
}

#[test]
fn with_extension_keeps_names_that_start_with_a_dot() {
    assert_eq!(with_extension(".hidden", "md"), ".hidden.md");
    assert_eq!(with_extension("a/.hidden", ""), "a/.hidden");
    assert_eq!(with_extension("...", "md"), "...md");
}

#[test]
fn with_extension_leaves_paths_without_a_file_name() {
    assert_eq!(with_extension("", "md"), "");
    assert_eq!(with_extension("/", "md"), "/");
    assert_eq!(with_extension("..", "md"), "..");
    assert_eq!(with_extension("a/..", "md"), "a/..");
    assert_eq!(with_extension(".", "md"), ".");
}

#[test]
fn file_stem_is_the_name_without_extension() {
    assert_eq!(file_stem("a/intro.md"), Some("intro".to_string()));
    assert_eq!(file_stem("intro"), Some("intro".to_string()));
    assert_eq!(file_stem("ch1/index.md"), Some("index".to_string()));
    assert_eq!(file_stem(".hidden"), Some(".hidden".to_string()));
    assert_eq!(file_stem("a/b/"), Some("b".to_string()));
    assert_eq!(file_stem(""), None);
    assert_eq!(file_stem("a/.."), None);
}

#[test]
fn parent_is_the_directory_of_the_last_segment() {
    assert_eq!(parent("src/SUMMARY.md"), "src");
    assert_eq!(parent("a/b/SUMMARY.md"), "a/b");
    assert_eq!(parent("SUMMARY.md"), "");
    assert_eq!(parent("/SUMMARY.md"), "/");
    assert_eq!(parent("a//b"), "a");
    assert_eq!(parent("a/b/"), "a");
    assert_eq!(parent(""), "");
}

#[test]
fn strip_drops_slashes_at_the_end() {
    assert_eq!(strip("src/ch1/"), "src/ch1");
    assert_eq!(strip("src/ch1//"), "src/ch1");
    assert_eq!(strip("src"), "src");
    assert_eq!(strip("/"), "");
    assert_eq!(strip(""), "");
}

#[test]
fn source_tree_answers_from_what_was_added() {
    let mut fs = SourceTree::new();
    assert!(!fs.is_dir("src"));
    assert!(!fs.is_file("src/a.md"));
    assert_eq!(fs.read("src/a.md"), None);
    fs.add_directory("src/");
    fs.add_document("src/a.md", "# A\n");
    assert!(fs.is_dir("src"));
    assert!(fs.is_dir("src/"));
    assert!(!fs.is_file("src"));
    assert!(fs.is_file("src/a.md"));
    assert!(!fs.is_dir("src/a.md"));
    assert_eq!(fs.read("src/a.md"), Some(&"# A\n".to_string()));
    assert_eq!(fs.get("src"), Some(&SourceNode::Directory));
    assert_eq!(fs.get("other"), None);
}

#[test]
fn source_tree_keeps_what_was_added_last() {
    let mut fs = SourceTree::new();
    fs.add_document("x", "one");
    fs.add_document("x", "two");
    assert_eq!(fs.read("x"), Some(&"two".to_string()));
    fs.add_directory("x");
    assert!(fs.is_dir("x"));
    assert_eq!(fs.read("x"), None);
}

#[test]
fn chars_and_strings_convert_both_ways() {
    assert_eq!(chars_of("héllo"), vec!['h', 'é', 'l', 'l', 'o']);
    assert_eq!(string_of(&['h', 'é', 'l', 'l', 'o']), "héllo");
    assert_eq!(chars_of(""), Vec::<char>::new());
    assert_eq!(string_of(&[]), "");
}

#[test]
fn whitespace_is_the_unicode_property() {
    for c in [' ', '\t', '\n', '\r', '\u{b}', '\u{c}', '\u{85}', '\u{a0}', '\u{2003}', '\u{3000}'] {
        assert!(is_whitespace(c));
    }
    for c in ['a', '-', '\u{200b}', '\u{180e}', '\0', '_'] {
        assert!(!is_whitespace(c));
    }
    for code in 0u32..0x3100 {
        if let Some(c) = char::from_u32(code) {
            assert_eq!(is_whitespace(c), c.is_whitespace());
        }
    }
}

#[test]
fn trim_drops_white_space_at_both_ends() {
    assert_eq!(trim_chars(&chars_of("  \t a b \r\n")), &['a', ' ', 'b']);
    assert_eq!(trim_chars(&chars_of(" \t ")), &[] as &[char]);
    assert_eq!(trim_chars(&chars_of("x")), &['x']);
    assert_eq!(trim_chars(&chars_of("")), &[] as &[char]);
}

#[test]
fn searches_find_the_first_from_a_position() {
    let chars = chars_of("a](b](c)");
    assert_eq!(index_of(&chars, ']', 0), Some(1));
    assert_eq!(index_of(&chars, ']', 2), Some(4));
    assert_eq!(index_of(&chars, ']', 5), None);
    assert_eq!(index_of(&chars, 'x', 0), None);
    assert_eq!(index_of(&chars, 'a', 8), None);
    assert_eq!(index_of_pair(&chars, ']', '(', 0), Some(1));
    assert_eq!(index_of_pair(&chars, ']', '(', 2), Some(4));
    assert_eq!(index_of_pair(&chars, ']', '(', 5), None);
    assert_eq!(index_of_pair(&chars_of("]"), ']', '(', 0), None);
}

#[test]
fn lines_are_the_pieces_between_line_feeds() {
    assert_eq!(lines_of(&chars_of("a\nb\n")), vec!["a", "b", ""]);
    assert_eq!(lines_of(&chars_of("a\n\nb")), vec!["a", "", "b"]);
    assert_eq!(lines_of(&chars_of("")), vec![""]);
    assert_eq!(lines_of(&chars_of("a\r\nb")), vec!["a\r", "b"]);
}

#[test]
fn path_to_root_climbs_one_step_for_each_directory() {
    assert_eq!(path_to_root("intro.md"), "");
    assert_eq!(path_to_root("ch1/index.md"), "../");
    assert_eq!(path_to_root("a/b/c.md"), "../../");
    assert_eq!(path_to_root("a//b/./c.md"), "../../");
    assert_eq!(path_to_root("./a/../c.md"), "../");
    assert_eq!(path_to_root("/a/c.md"), "../");
    assert_eq!(path_to_root("print.md"), "");
    assert_eq!(path_to_root(""), "");
}

#[test]
fn page_source_prefers_the_document_then_the_directory() {
    let mut fs = SourceTree::new();
    fs.add_directory("src");
    fs.add_document("src/a.md", "");
    fs.add_directory("src/b");
    fs.add_directory("src/c");
    fs.add_document("src/c.md", "");
    let r = HtmlHandlebars::new();
    assert_eq!(r.page_source(&fs, "src", "a.md"), "src/a.md");
    assert_eq!(r.page_source(&fs, "src", "a"), "src/a.md");
    assert_eq!(r.page_source(&fs, "src", "a.txt"), "src/a.md");
    assert_eq!(r.page_source(&fs, "src", "b"), "src/b/index.md");
    assert_eq!(r.page_source(&fs, "src", "c"), "src/c.md");
    assert_eq!(r.page_source(&fs, "src", "missing"), "src/missing");
    assert_eq!(r.page_source(&fs, "", "missing.md"), "missing.md");
}
