use mdbook::book::bookitem::{BookItem, Chapter};
use mdbook::renderer::html_handlebars::hbs_renderer::{
    add_playpen_pre, build_header_links, fix_anchor_links, fix_code_blocks, partition_source, slug,
    weave, HtmlHandlebars,
};
use mdbook::renderer::html_handlebars::helpers::navigation::{next, previous};
use mdbook::renderer::html_handlebars::helpers::text::camel_case;
use mdbook::renderer::html_handlebars::helpers::toc::RenderToc;
use mdbook::text::{chars_of, contains, matches_at, push_decimal, push_without, swap_chars};

fn page(name: &str, path: &str, sub_items: Vec<BookItem>) -> Chapter {
    Chapter { name: name.to_string(), path: path.to_string(), sub_items }
}

fn chapter(name: &str, path: &str, sub_items: Vec<BookItem>) -> BookItem {
    BookItem::Chapter(String::new(), page(name, path, sub_items))
}

fn flat() -> Vec<BookItem> {
    vec![
        BookItem::Affix(page("Preface", "preface.md", vec![])),
        chapter("A", "a.md", vec![]),
        BookItem::Spacer,
        chapter("B", "dir/b.md", vec![]),
        chapter("Draft", "", vec![]),
        chapter("C", "c.md", vec![]),
    ]
}

fn pair(title: &str, link: &str) -> Option<(String, String)> {
    Some((title.to_string(), link.to_string()))
}

#[test]
fn renderer_can_be_made() {
    let _renderer: HtmlHandlebars = HtmlHandlebars::new();
    let _other: HtmlHandlebars = HtmlHandlebars::default();
}

#[test]
fn camel_case_drops_hyphens_and_raises_what_follows() {
    assert_eq!(camel_case("font-size"), "fontSize");
    assert_eq!(camel_case("a--b"), "aB");
    assert_eq!(camel_case("-x"), "X");
    assert_eq!(camel_case("abc"), "abc");
    assert_eq!(camel_case("a-"), "a");
    assert_eq!(camel_case(""), "");
    assert_eq!(camel_case("a-1-b"), "a1B");
}

#[test]
fn camel_case_raises_to_more_than_one_character() {
    assert_eq!(camel_case("stra-ße"), "straSSe");
}

#[test]
fn previous_is_the_page_before_the_first_with_the_path() {
    let items = flat();
    assert_eq!(previous(&items, "a.md"), pair("Preface", "preface"));
    assert_eq!(previous(&items, "dir/b.md"), pair("A", "a"));
    assert_eq!(previous(&items, "c.md"), pair("B", "dir/b"));
    assert_eq!(previous(&items, "preface.md"), None);
    assert_eq!(previous(&items, "missing.md"), None);
    assert_eq!(previous(&items, ""), None);
    assert_eq!(previous(&[], "a.md"), None);
}

#[test]
fn next_is_the_page_after_the_last_with_the_path() {
    let items = flat();
    assert_eq!(next(&items, "preface.md"), pair("A", "a"));
    assert_eq!(next(&items, "a.md"), pair("B", "dir/b"));
    assert_eq!(next(&items, "dir/b.md"), pair("C", "c"));
    assert_eq!(next(&items, "c.md"), None);
    assert_eq!(next(&items, "missing.md"), None);
    assert_eq!(next(&[], "a.md"), None);
}

#[test]
fn navigation_with_a_path_that_stands_twice() {
    let items = vec![
        chapter("One", "one.md", vec![]),
        chapter("X1", "x.md", vec![]),
        chapter("Two", "two.md", vec![]),
        chapter("X2", "x.md", vec![]),
        chapter("Three", "three.md", vec![]),
    ];
    assert_eq!(previous(&items, "x.md"), pair("One", "one"));
    assert_eq!(next(&items, "x.md"), pair("Three", "three"));
}

#[test]
fn toc_is_a_nested_list() {
    let items = vec![
        BookItem::Affix(page("Preface", "preface.md", vec![])),
        chapter("A", "a.md", vec![chapter("A1", "a/a1.md", vec![])]),
        BookItem::Spacer,
    ];
    assert_eq!(
        RenderToc.call(&items, "a.md"),
        "<ol class=\"chapter\"><li class=\"affix\"><a href=\"preface.html\">Preface</a></li>\
         <li class=\"item\"><a href=\"a.html\" class=\"active\">A</a><ol class=\"section\">\
         <li class=\"item\"><a href=\"a/a1.html\">A1</a></li></ol></li>\
         <li class=\"spacer\"></li></ol>"
    );
    assert_eq!(RenderToc.call(&vec![], "a.md"), "<ol class=\"chapter\"></ol>");
}

#[test]
fn toc_marks_the_page_that_is_shown() {
    let items = vec![BookItem::Affix(page("P", "p.md", vec![])), chapter("Q", "q", vec![])];
    assert_eq!(
        RenderToc.call(&items, "p.md"),
        "<ol class=\"chapter\"><li class=\"affix\"><a href=\"p.html\" class=\"active\">P</a></li>\
         <li class=\"item\"><a href=\"q.html\">Q</a></li></ol>"
    );
}

#[test]
fn partition_source_parts_head_and_rest() {
    assert_eq!(
        partition_source("#![feature(x)]\n\nfn f() {}\n\n#![late]\n"),
        ("#![feature(x)]\n\n".to_string(), "fn f() {}\n\n#![late]\n".to_string())
    );
    assert_eq!(partition_source("let x = 1;"), (String::new(), "let x = 1;\n".to_string()));
    assert_eq!(partition_source(""), (String::new(), String::new()));
    assert_eq!(partition_source("  \n"), ("  \n".to_string(), String::new()));
    assert_eq!(
        partition_source("  #![a]\r\nb\r\n"),
        ("  #![a]\n".to_string(), "b\n".to_string())
    );
    assert_eq!(partition_source("#!x\n"), (String::new(), "#!x\n".to_string()));
}

#[test]
fn partition_source_reads_lines_as_the_standard_library_does() {
    for s in ["a\nb", "a\nb\n", "a\r\nb\r", "\n\n", "a\r\n\r\nb\n", "\r", "x\r\r\ny", "\n"] {
        let mut joined = String::new();
        for line in s.lines() {
            joined.push_str(line);
            joined.push('\n');
        }
        let (before, after) = partition_source(s);
        assert_eq!(format!("{}{}", before, after), joined);
    }
}

#[test]
fn weave_puts_inserts_between_pieces() {
    let pieces = vec!["a".to_string(), "b".to_string(), "c".to_string()];
    let inserts = vec!["1".to_string(), "2".to_string()];
    assert_eq!(weave(&pieces, &inserts), "a1b2c");
    assert_eq!(weave(&pieces, &vec![]), "abc");
    assert_eq!(weave(&pieces, &vec!["x".to_string(); 5]), "axbxcx");
    assert_eq!(weave(&vec![], &inserts), "");
}

#[test]
fn fix_anchor_links_names_the_page() {
    assert_eq!(
        fix_anchor_links("<p><a href=\"#sec\">x</a></p>".to_string(), "page.html"),
        "<p><a href=\"page.html#sec\">x</a></p>"
    );
    assert_eq!(
        fix_anchor_links(
            "<a class=\"k\" href=\"#a\" id=\"i\">1</a> and <a href=\"#b\">2</a>".to_string(),
            "p"
        ),
        "<a class=\"k\" href=\"p#a\" id=\"i\">1</a> and <a href=\"p#b\">2</a>"
    );
    assert_eq!(
        fix_anchor_links("<a href=\"other.html#sec\">x</a>".to_string(), "page.html"),
        "<a href=\"other.html#sec\">x</a>"
    );
    assert_eq!(fix_anchor_links(String::new(), "page.html"), "");
}

#[test]
fn fix_code_blocks_parts_classes_by_spaces() {
    assert_eq!(
        fix_code_blocks("<pre><code class=\"language-rust,ignore\">x</code></pre>".to_string()),
        "<pre><code class=\"language-rust ignore\">x</code></pre>"
    );
    assert_eq!(
        fix_code_blocks("<code id=\"a\" class=\"a,b,c\" data-x=\"1\">".to_string()),
        "<code id=\"a\" class=\"a b c\" data-x=\"1\">"
    );
    assert_eq!(fix_code_blocks("<code>x</code>".to_string()), "<code>x</code>");
}

#[test]
fn add_playpen_pre_wraps_rust_code() {
    assert_eq!(
        add_playpen_pre("<code class=\"language-rust\">fn main() {}</code>".to_string()),
        "<pre class=\"playpen\"><code class=\"language-rust\">fn main() {}</code></pre>"
    );
    assert_eq!(
        add_playpen_pre("<code class=\"language-rust\">let x = 1;</code>".to_string()),
        "<pre class=\"playpen\"><code class=\"language-rust\"># #![allow(unused_variables)]\n\
         #fn main() {\nlet x = 1;\n\n#}</code></pre>"
    );
    assert_eq!(
        add_playpen_pre(
            "<code class=\"language-rust\">#![feature(x)]\nlet x = 1;\n</code>".to_string()
        ),
        "<pre class=\"playpen\"><code class=\"language-rust\"># #![allow(unused_variables)]\n\
         #![feature(x)]\n#fn main() {\nlet x = 1;\n\n#}</code></pre>"
    );
}

#[test]
fn add_playpen_pre_leaves_other_code() {
    let ignored = "<code class=\"language-rust ignore\">let x = 1;</code>";
    assert_eq!(add_playpen_pre(ignored.to_string()), ignored);
    let python = "a <code class=\"language-python\">x = 1</code> b";
    assert_eq!(add_playpen_pre(python.to_string()), python);
    assert_eq!(add_playpen_pre("plain".to_string()), "plain");
}

#[test]
fn build_header_links_gives_each_header_an_id() {
    assert_eq!(
        build_header_links("<h1>Hello World</h1>".to_string(), "p.html"),
        "<a class=\"header\" href=\"p.html#hello-world\" id=\"hello-world\"><h1>Hello World</h1></a>"
    );
    assert_eq!(build_header_links("<p>no header</p>".to_string(), "p.html"), "<p>no header</p>");
}

#[test]
fn build_header_links_numbers_ids_that_come_again() {
    assert_eq!(
        build_header_links(
            "<h1>Title</h1>a<h2>Title</h2>b<h2>Other</h2>c<h3><em>Title</em></h3>".to_string(),
            "p"
        ),
        "<a class=\"header\" href=\"p#title\" id=\"title\"><h1>Title</h1></a>a\
         <a class=\"header\" href=\"p#title-1\" id=\"title-1\"><h2>Title</h2></a>b\
         <a class=\"header\" href=\"p#other\" id=\"other\"><h2>Other</h2></a>c\
         <a class=\"header\" href=\"p#title-2\" id=\"title-2\"><h3><em>Title</em></h3></a>"
    );
}

#[test]
fn slug_keeps_letters_numbers_hyphens_and_underscores() {
    assert_eq!(slug("Hello World"), "hello-world");
    assert_eq!(slug("Foo &amp; Bar_baz-Q!"), "foo--bar_baz-q");
    assert_eq!(slug("<code>fn</code> <strong>main</strong>()"), "fn-main");
    assert_eq!(slug("Ünï cödé\u{a0}x"), "Ünï-cödéx");
    assert_eq!(slug("a\tb\nc"), "a-b-c");
    assert_eq!(slug("&lt;T&gt; &#39;a &quot;q&quot;"), "t-a-q");
    assert_eq!(slug("<e<em>m>x"), "emx");
    assert_eq!(slug(""), "");
}

#[test]
fn text_search_and_removal() {
    let hay = chars_of("abcabc");
    assert!(matches_at(&hay, &chars_of("bc"), 1));
    assert!(!matches_at(&hay, &chars_of("bc"), 2));
    assert!(matches_at(&hay, &chars_of(""), 6));
    assert!(!matches_at(&hay, &chars_of(""), 7));
    assert!(!matches_at(&hay, &chars_of("c"), 6));
    assert!(contains(&hay, &chars_of("cab")));
    assert!(contains(&hay, &chars_of("")));
    assert!(contains(&hay, &chars_of("abcabc")));
    assert!(!contains(&hay, &chars_of("abcabca")));
    assert!(!contains(&hay, &chars_of("ba")));
    let mut out = vec!['>'];
    push_without(&mut out, &chars_of("aaabaa"), &chars_of("aa"));
    assert_eq!(out, vec!['>', 'a', 'b']);
    let mut out = Vec::new();
    push_without(&mut out, &hay, &chars_of(""));
    assert_eq!(out, hay);
    assert_eq!(swap_chars(&chars_of("a,b,,c"), ',', ' '), chars_of("a b  c"));
}

#[test]
fn decimal_digits() {
    for (n, text) in [(0usize, "0"), (7, "7"), (10, "10"), (409, "409"), (usize::MAX, "")] {
        let mut out = String::from("n=");
        push_decimal(&mut out, n);
        if n == usize::MAX {
            assert_eq!(out, format!("n={}", usize::MAX));
        } else {
            assert_eq!(out, format!("n={}", text));
        }
    }
}
