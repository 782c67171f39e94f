use litpro::render::{escape_html, export_text, html_text};
use litpro::text::{find, is_whitespace, matches_at, split, split_whitespace, to_chars, to_string, trim};
use litpro::{Cell, LitPro, LitProError};

fn chars(s: &str) -> Vec<char> {
    s.chars().collect()
}

fn text(v: &[char]) -> String {
    v.iter().collect()
}

fn texts(v: &[Vec<char>]) -> Vec<String> {
    v.iter().map(|w| text(w)).collect()
}

const SAMPLES: [&str; 12] = [
    "",
    " ",
    "a",
    "  a b  ",
    "\t\nhello\u{a0}world \u{3000}",
    "a,b,c",
    ",,",
    "depends:a, b",
    "\u{2028}x\u{2029}",
    "no-space",
    " \u{85} \u{1680} ",
    "é 世界 ✓",
];

#[test]
fn white_space_is_what_std_calls_white_space() {
    let mut c = 0u32;
    while c <= 0x10FFFF {
        if let Some(ch) = char::from_u32(c) {
            assert_eq!(is_whitespace(ch), ch.is_whitespace(), "U+{:04X}", c);
        }
        c += 1;
    }
}

#[test]
fn to_chars_and_to_string_keep_the_text() {
    for s in SAMPLES {
        assert_eq!(to_chars(s), chars(s));
        assert_eq!(to_string(&chars(s)), s);
    }
    assert_eq!(to_chars("aé世"), vec!['a', 'é', '世']);
    assert_eq!(to_string(&['x', 'ß', '✓']), "xß✓");
}

#[test]
fn trim_is_what_std_trims() {
    for s in SAMPLES {
        assert_eq!(text(trim(&chars(s))), s.trim(), "{:?}", s);
    }
    assert_eq!(text(trim(&chars("  a b\t\n"))), "a b");
    assert_eq!(text(trim(&chars(" \n "))), "");
}

#[test]
fn split_whitespace_is_what_std_splits() {
    for s in SAMPLES {
        let expected: Vec<String> = s.split_whitespace().map(|w| w.to_string()).collect();
        assert_eq!(texts(&split_whitespace(&chars(s))), expected, "{:?}", s);
    }
    assert_eq!(texts(&split_whitespace(&chars("  a  bc\td "))), vec!["a", "bc", "d"]);
    assert!(split_whitespace(&chars("   ")).is_empty());
}

#[test]
fn split_is_what_std_splits() {
    for s in SAMPLES {
        let expected: Vec<String> = s.split(',').map(|w| w.to_string()).collect();
        assert_eq!(texts(&split(&chars(s), ',')), expected, "{:?}", s);
    }
    assert_eq!(texts(&split(&chars("a,,b,"), ',')), vec!["a", "", "b", ""]);
    assert_eq!(texts(&split(&chars(""), ',')), vec![""]);
}

#[test]
fn find_gives_the_first_occurrence() {
    let hay = chars("abcabcab");
    assert_eq!(find(&hay, &chars("abc"), 0), Some(0));
    assert_eq!(find(&hay, &chars("abc"), 1), Some(3));
    assert_eq!(find(&hay, &chars("abc"), 4), None);
    assert_eq!(find(&hay, &chars("ab"), 4), Some(6));
    assert_eq!(find(&hay, &chars("ab"), 7), None);
    assert_eq!(find(&hay, &chars("x"), 0), None);
    assert_eq!(find(&hay, &chars("abcabcabc"), 0), None);
    assert_eq!(find(&hay, &chars("b"), 100), None);
    assert_eq!(find(&hay, &chars(""), 3), Some(3));
    assert_eq!(find(&hay, &chars(""), 8), Some(8));
    assert_eq!(find(&hay, &chars(""), 9), None);
    assert_eq!(find(&[], &chars("a"), 0), None);
}

#[test]
fn find_agrees_with_std_on_ascii() {
    let hay = "--><!-- cell:a --> ```rust ``` <!-- cell:b -->";
    for pat in ["<!-- cell:", "-->", "```rust", "```", "zzz"] {
        for from in 0..=hay.len() {
            let expected = hay[from..].find(pat).map(|i| i + from);
            assert_eq!(find(&chars(hay), &chars(pat), from), expected);
        }
    }
}

#[test]
fn matches_at_compares_in_place() {
    let hay = chars("hello");
    assert!(matches_at(&hay, &chars("hel"), 0));
    assert!(matches_at(&hay, &chars("llo"), 2));
    assert!(!matches_at(&hay, &chars("llo"), 3));
    assert!(!matches_at(&hay, &chars("hex"), 0));
    assert!(matches_at(&hay, &chars(""), 5));
    assert!(!matches_at(&hay, &chars(""), 6));
    assert!(!matches_at(&hay, &chars("o"), usize::MAX));
}

#[test]
fn escape_replaces_the_five_characters() {
    assert_eq!(escape_html("&"), "&amp;");
    assert_eq!(escape_html("<"), "&lt;");
    assert_eq!(escape_html(">"), "&gt;");
    assert_eq!(escape_html("\""), "&quot;");
    assert_eq!(escape_html("'"), "&#x27;");
    assert_eq!(escape_html(""), "");
    assert_eq!(escape_html("plain text é"), "plain text é");
    assert_eq!(
        escape_html("if a < b && c > \"d\" { 'e' }"),
        "if a &lt; b &amp;&amp; c &gt; &quot;d&quot; { &#x27;e&#x27; }"
    );
    assert_eq!(escape_html("&amp;"), "&amp;amp;");
    assert_eq!(LitPro::new().escape_html("<b>"), "&lt;b&gt;");
}

#[test]
fn escape_is_what_replacing_one_by_one_gives() {
    for s in ["a&b<c>d\"e'f", "&&&", "<<>>", "&lt;", "'\"'", "x", ""] {
        let expected = s
            .replace("&", "&amp;")
            .replace("<", "&lt;")
            .replace(">", "&gt;")
            .replace("\"", "&quot;")
            .replace("'", "&#x27;");
        assert_eq!(escape_html(s), expected);
    }
}

#[test]
fn export_lists_each_cell_behind_its_name() {
    let cells = vec![
        Cell::new("a".to_string(), "let a = 1;".to_string(), Vec::new()),
        Cell::new("b".to_string(), "let b = a < 2;\nlet c = 3;".to_string(), vec!["a".to_string()]),
    ];
    assert_eq!(
        export_text(&cells),
        "// Exported from LitPro\n\n// Cell: a\nlet a = 1;\n\n// Cell: b\nlet b = a < 2;\nlet c = 3;\n\n"
    );
    assert_eq!(export_text(&Vec::new()), "// Exported from LitPro\n\n");
}

#[test]
fn export_of_a_processor_follows_the_document() {
    let mut litpro = LitPro::new();
    litpro
        .parse_cells("<!-- cell:z -->\n```rust\nZ\n```\n<!-- cell:a depends:z -->\n```rust\nA\n```\n")
        .unwrap();
    assert_eq!(
        litpro.export_litpro(),
        "// Exported from LitPro\n\n// Cell: z\nZ\n\n// Cell: a\nA\n\n"
    );
}

#[test]
fn html_page_escapes_the_code() {
    let cells = vec![Cell::new("a".to_string(), "if x < 1 && y > 2 { \"s\" }".to_string(), Vec::new())];
    let expected = r#"<!DOCTYPE html>
<html>
<head>
    <title>LitPro Documentation</title>
    <style>
        body { font-family: Arial, sans-serif; margin: 40px; }
        .cell { margin: 20px 0; padding: 15px; border-left: 3px solid #007acc; }
        .code { background: #f4f4f4; padding: 10px; border-radius: 4px; }
        pre { margin: 0; }
    </style>
</head>
<body>
    <h1>LitPro Documentation</h1>
    <div class="cell">
        <h3>Cell: a</h3>
        <div class="code">
            <pre><code class="language-rust">if x &lt; 1 &amp;&amp; y &gt; 2 { &quot;s&quot; }</code></pre>
        </div>
    </div>
</body>
</html>"#;
    assert_eq!(html_text(&cells), expected);
}

#[test]
fn html_page_without_cells_is_head_and_foot() {
    let page = LitPro::new().html_litpro();
    assert!(page.starts_with("<!DOCTYPE html>\n<html>\n<head>\n"));
    assert!(page.ends_with("    <h1>LitPro Documentation</h1>\n</body>\n</html>"));
    assert!(!page.contains("class=\"cell\""));
}

#[test]
fn html_page_lists_the_cells_in_the_order_of_the_document() {
    let mut litpro = LitPro::new();
    litpro
        .parse_cells("<!-- cell:z depends:a -->\n```rust\nZ\n```\n<!-- cell:a -->\n```rust\nA\n```\n")
        .unwrap();
    let page = litpro.html_litpro();
    let z = page.find("<h3>Cell: z</h3>").unwrap();
    let a = page.find("<h3>Cell: a</h3>").unwrap();
    assert!(z < a);
    assert_eq!(page.matches("<div class=\"cell\">").count(), 2);
}

#[test]
fn errors_have_their_messages() {
    assert_eq!(LitProError::CircularDependencyError.message(), "Circular dependency detected");
    assert_eq!(LitProError::ParseError("bad marker".to_string()).message(), "Parse Error: bad marker");
    assert_eq!(LitProError::ParseError(String::new()).message(), "Parse Error: ");
    let cause = std::io::Error::new(std::io::ErrorKind::Other, "disk full");
    assert_eq!(LitProError::IoError(cause).message(), "IO Error: disk full");
}
