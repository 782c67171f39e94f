use litpro::extract::{dependencies_of_word, dependencies_of_words, extract, read_cell};
use litpro::text::to_chars;
use litpro::{Cell, LitPro};

fn parsed(content: &str) -> LitPro {
    let mut litpro = LitPro::new();
    assert!(litpro.parse_cells(content).is_ok());
    litpro
}

fn chars(s: &str) -> Vec<char> {
    s.chars().collect()
}

fn strings(items: &[&str]) -> Vec<String> {
    items.iter().map(|s| s.to_string()).collect()
}

#[test]
fn test_parse_cells() {
    let content = r#"<!-- cell:test_id -->
```rust
let x = 5;
```
"#;

    let mut litpro = LitPro::new();
    assert!(litpro.parse_cells(content).is_ok());
    assert_eq!(litpro.len(), 1);
    assert!(litpro.contains_key("test_id"));
}

#[test]
fn cell_holds_id_code_and_no_dependencies() {
    let litpro = parsed("<!-- cell:test_id -->\n```rust\nlet x = 5;\n```\n");
    let cell = litpro.get("test_id").unwrap();
    assert_eq!(cell.id, "test_id");
    assert_eq!(cell.code, "let x = 5;");
    assert!(cell.dependencies.is_empty());
    assert!(!cell.executed);
}

#[test]
fn cell_new_is_not_executed() {
    let cell = Cell::new("a".to_string(), "code".to_string(), strings(&["b", "c"]));
    assert_eq!(cell.id, "a");
    assert_eq!(cell.code, "code");
    assert_eq!(cell.dependencies, strings(&["b", "c"]));
    assert!(!cell.executed);
}

#[test]
fn new_processor_is_empty() {
    let litpro = LitPro::new();
    assert_eq!(litpro.len(), 0);
    assert!(litpro.is_empty());
    assert!(!litpro.contains_key("a"));
    assert!(litpro.get("a").is_none());
    assert!(litpro.cells().is_empty());
}

#[test]
fn empty_document_has_no_cells() {
    assert!(parsed("").is_empty());
    assert!(parsed("no marker here\n```rust\nlet x = 1;\n```\n").is_empty());
}

#[test]
fn n_markers_with_blocks_give_n_cells() {
    let content = "# Title\n\n<!-- cell:setup -->\n```rust\nlet x = 10;\n```\n\ntext\n\n<!-- cell:compute depends:setup -->\n```rust\nlet y = x + 1;\n```\n\n<!-- cell:display depends:compute -->\n```rust\nprintln!(\"{}\", y);\n```\n";
    let litpro = parsed(content);
    assert_eq!(litpro.len(), 3);
    let ids: Vec<&str> = litpro.cells().iter().map(|c| c.id.as_str()).collect();
    assert_eq!(ids, vec!["setup", "compute", "display"]);
    assert_eq!(litpro.get("setup").unwrap().code, "let x = 10;");
    assert_eq!(litpro.get("compute").unwrap().code, "let y = x + 1;");
    assert_eq!(litpro.get("display").unwrap().code, "println!(\"{}\", y);");
    assert_eq!(litpro.get("compute").unwrap().dependencies, strings(&["setup"]));
    assert_eq!(litpro.get("display").unwrap().dependencies, strings(&["compute"]));
}

#[test]
fn marker_without_id_gives_no_cell() {
    assert!(parsed("<!-- cell: -->\n```rust\nlet x = 5;\n```\n").is_empty());
    assert!(parsed("<!-- cell:-->\n```rust\nlet x = 5;\n```\n").is_empty());
    assert!(parsed("<!-- cell:\n\t -->\n```rust\nlet x = 5;\n```\n").is_empty());
}

#[test]
fn marker_without_id_does_not_stop_the_scan() {
    let litpro = parsed("<!-- cell: -->\n<!-- cell:b -->\n```rust\nB\n```\n");
    assert_eq!(litpro.len(), 1);
    assert_eq!(litpro.get("b").unwrap().code, "B");
}

#[test]
fn marker_without_block_gives_no_cell() {
    assert!(parsed("<!-- cell:a -->\nno code\n").is_empty());
    assert!(parsed("<!-- cell:a -->\n```python\nx = 1\n```\n").is_empty());
    assert!(parsed("<!-- cell:a -->\n```rust\nlet x = 1;\n").is_empty());
    assert!(parsed("<!-- cell:a -->\n```rust").is_empty());
    assert!(parsed("<!-- cell:a -->").is_empty());
}

#[test]
fn marker_without_end_gives_no_cell() {
    assert!(parsed("<!-- cell:a \n```rust\nlet x = 1;\n```\n").is_empty());
    assert!(parsed("<!-- cell:").is_empty());
    assert!(parsed("<!-- cell").is_empty());
}

#[test]
fn block_before_marker_is_not_taken() {
    assert!(parsed("```rust\nlet x = 1;\n```\n<!-- cell:a -->\n").is_empty());
}

#[test]
fn marker_takes_the_next_block_even_behind_another_marker() {
    let litpro = parsed("<!-- cell:a -->\n<!-- cell:b -->\n```rust\nshared\n```\n");
    assert_eq!(litpro.len(), 2);
    assert_eq!(litpro.get("a").unwrap().code, "shared");
    assert_eq!(litpro.get("b").unwrap().code, "shared");
}

#[test]
fn marker_inside_a_marker_is_found() {
    let litpro = parsed("<!-- cell:a <!-- cell:b -->\n```rust\nX\n```\n");
    assert_eq!(litpro.len(), 2);
    assert_eq!(litpro.get("a").unwrap().code, "X");
    assert_eq!(litpro.get("b").unwrap().code, "X");
    let ids: Vec<&str> = litpro.cells().iter().map(|c| c.id.as_str()).collect();
    assert_eq!(ids, vec!["a", "b"]);
}

#[test]
fn later_cell_of_the_same_name_wins() {
    let litpro = parsed(
        "<!-- cell:a -->\n```rust\nfirst\n```\n<!-- cell:b -->\n```rust\nB\n```\n<!-- cell:a depends:b -->\n```rust\nsecond\n```\n",
    );
    assert_eq!(litpro.len(), 2);
    assert_eq!(litpro.get("a").unwrap().code, "second");
    assert_eq!(litpro.get("a").unwrap().dependencies, strings(&["b"]));
    let ids: Vec<&str> = litpro.cells().iter().map(|c| c.id.as_str()).collect();
    assert_eq!(ids, vec!["a", "b"]);
}

#[test]
fn a_new_parse_replaces_the_cells() {
    let mut litpro = parsed("<!-- cell:a -->\n```rust\nA\n```\n");
    assert!(litpro.parse_cells("<!-- cell:b -->\n```rust\nB\n```\n").is_ok());
    assert_eq!(litpro.len(), 1);
    assert!(litpro.contains_key("b"));
    assert!(!litpro.contains_key("a"));
}

#[test]
fn depends_list_is_split_on_commas() {
    let litpro = parsed("<!-- cell:x depends:a,b,c -->\n```rust\nX\n```\n");
    assert_eq!(litpro.get("x").unwrap().dependencies, strings(&["a", "b", "c"]));
    assert_eq!(dependencies_of_word(&chars("depends:a,b,c")), strings(&["a", "b", "c"]));
}

#[test]
fn depends_words_add_up_in_order() {
    let litpro = parsed("<!-- cell:x depends:a,b other depends:c depends:a -->\n```rust\nX\n```\n");
    assert_eq!(litpro.get("x").unwrap().dependencies, strings(&["a", "b", "c", "a"]));
    let words: Vec<Vec<char>> =
        vec![chars("x"), chars("depends:a,b"), chars("other"), chars("depends:c")];
    assert_eq!(dependencies_of_words(&words), strings(&["a", "b", "c"]));
}

#[test]
fn first_word_declares_nothing() {
    let words: Vec<Vec<char>> = vec![chars("depends:a"), chars("depends:b")];
    assert_eq!(dependencies_of_words(&words), strings(&["b"]));
    assert!(dependencies_of_words(&Vec::new()).is_empty());
    let litpro = parsed("<!-- cell:depends:a depends:b -->\n```rust\nX\n```\n");
    assert_eq!(litpro.get("depends:a").unwrap().dependencies, strings(&["b"]));
}

#[test]
fn depends_entries_may_be_empty() {
    assert_eq!(dependencies_of_word(&chars("depends:")), strings(&[""]));
    assert_eq!(dependencies_of_word(&chars("depends:a,,b,")), strings(&["a", "", "b", ""]));
    assert_eq!(dependencies_of_word(&chars("depends:,")), strings(&["", ""]));
}

#[test]
fn depends_entries_are_trimmed() {
    assert_eq!(dependencies_of_word(&chars("depends: a ,\tb\n, c")), strings(&["a", "b", "c"]));
}

#[test]
fn other_words_declare_nothing() {
    assert!(dependencies_of_word(&chars("depend:a")).is_empty());
    assert!(dependencies_of_word(&chars("xdepends:a")).is_empty());
    assert!(dependencies_of_word(&chars("Depends:a")).is_empty());
    assert!(dependencies_of_word(&chars("depends")).is_empty());
    assert!(dependencies_of_word(&chars("")).is_empty());
    let litpro = parsed("<!-- cell:x lang:rust tag -->\n```rust\nX\n```\n");
    assert!(litpro.get("x").unwrap().dependencies.is_empty());
}

#[test]
fn id_is_the_first_word_of_the_marker() {
    let litpro = parsed("<!-- cell:  \t spaced   depends:a -->\n```rust\nX\n```\n");
    assert!(litpro.contains_key("spaced"));
    let litpro = parsed("<!-- cell:tight-->\n```rust\nX\n```\n");
    assert!(litpro.contains_key("tight"));
}

#[test]
fn code_is_trimmed() {
    let litpro = parsed("<!-- cell:a -->\n```rust\n\n   let x = 1;\n\tlet y = 2;  \n\n```\n");
    assert_eq!(litpro.get("a").unwrap().code, "let x = 1;\n\tlet y = 2;");
}

#[test]
fn code_begins_right_behind_the_opening_fence() {
    let litpro = parsed("<!-- cell:a -->```rustlet x = 1;```");
    assert_eq!(litpro.get("a").unwrap().code, "let x = 1;");
    let litpro = parsed("<!-- cell:b -->```rust```");
    assert_eq!(litpro.get("b").unwrap().code, "");
}

#[test]
fn text_between_marker_and_block_is_passed_over() {
    let litpro = parsed("<!-- cell:a -->\nSome prose.\n```text\nnot this\n```rust\nthis\n```\n");
    assert_eq!(litpro.get("a").unwrap().code, "this");
}

#[test]
fn text_outside_ascii_is_read() {
    let litpro = parsed("Überschrift é\n<!-- cell:zelle depends:größe -->\n```rust\nlet s = \"héllo → 世界\";\n```\nSchluß ✓\n");
    assert_eq!(litpro.len(), 1);
    let cell = litpro.get("zelle").unwrap();
    assert_eq!(cell.code, "let s = \"héllo → 世界\";");
    assert_eq!(cell.dependencies, strings(&["größe"]));
}

#[test]
fn unicode_white_space_separates_words() {
    let litpro = parsed("<!-- cell:\u{a0}a\u{2003}depends:b\u{3000}-->\n```rust\n\u{2028}X\u{85}\n```\n");
    let cell = litpro.get("a").unwrap();
    assert_eq!(cell.dependencies, strings(&["b"]));
    assert_eq!(cell.code, "X");
}

#[test]
fn read_cell_reads_the_marker_at_the_index() {
    let text = to_chars("ab<!-- cell:a -->\n```rust\nA\n```\n");
    let cell = read_cell(&text, 2).unwrap();
    assert_eq!(cell.id, "a");
    assert_eq!(cell.code, "A");
    assert!(read_cell(&text, text.len()).is_none());
    assert!(read_cell(&text, usize::MAX).is_none());
    assert!(read_cell(&[], 0).is_none());
}

#[test]
fn extract_gives_the_cells_in_order_of_first_definition() {
    let text = to_chars("<!-- cell:b -->```rust 1 ```<!-- cell:a -->```rust 2 ```<!-- cell:b -->```rust 3 ```");
    let cells = extract(&text);
    assert_eq!(cells.len(), 2);
    assert_eq!(cells[0].id, "b");
    assert_eq!(cells[0].code, "3");
    assert_eq!(cells[1].id, "a");
    assert_eq!(cells[1].code, "2");
}
