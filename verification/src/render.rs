//! The two texts that are made from a set of cells: the plain code, and
//! the documentation as an HTML page.
//!
//! Both list the cells in the order in which the set holds them, which is
//! the order of their first definition in the document and need not be an
//! order in which they can run.

use vstd::prelude::*;
use vstd::string::StringExecFns;
use crate::cell::{Cell, CellModel, models};
use crate::text::to_chars;

verus! {

/// The first lines of the plain code.
pub const EXPORT_HEAD: &'static str = "// Exported from LitPro\n\n";

/// What stands before the name of a cell in the plain code.
pub const EXPORT_CELL: &'static str = "// Cell: ";

/// The beginning of the HTML page.
pub const HTML_HEAD: &'static str =
    "<!DOCTYPE html>\n<html>\n<head>\n    <title>LitPro Documentation</title>\n    <style>\n        body { font-family: Arial, sans-serif; margin: 40px; }\n        .cell { margin: 20px 0; padding: 15px; border-left: 3px solid #007acc; }\n        .code { background: #f4f4f4; padding: 10px; border-radius: 4px; }\n        pre { margin: 0; }\n    </style>\n</head>\n<body>\n    <h1>LitPro Documentation</h1>";

/// What stands before the name of a cell in the HTML page.
pub const HTML_CELL_OPEN: &'static str = "\n    <div class=\"cell\">\n        <h3>Cell: ";

/// What stands between the name of a cell and its code in the HTML page.
pub const HTML_CELL_CODE: &'static str =
    "</h3>\n        <div class=\"code\">\n            <pre><code class=\"language-rust\">";

/// What stands behind the code of a cell in the HTML page.
pub const HTML_CELL_CLOSE: &'static str = "</code></pre>\n        </div>\n    </div>";

/// The end of the HTML page.
pub const HTML_FOOT: &'static str = "\n</body>\n</html>";

/// What stands for the character `c` in HTML text.
pub open spec fn escaped_char(c: char) -> Seq<char> {
    if c == '&' {
        "&amp;"@
    } else if c == '<' {
        "&lt;"@
    } else if c == '>' {
        "&gt;"@
    } else if c == '"' {
        "&quot;"@
    } else if c == '\'' {
        "&#x27;"@
    } else {
        seq![c]
    }
}

/// `s` as HTML text: each of the characters `&`, `<`, `>`, `"` and `'`
/// gives way to its entity.
pub open spec fn escaped(s: Seq<char>) -> Seq<char>
    decreases s.len(),
{
    if s.len() == 0 {
        Seq::empty()
    } else {
        escaped(s.drop_last()) + escaped_char(s.last())
    }
}

/// One cell in the plain code: a comment line with its name, its code, and
/// an empty line.
pub open spec fn exported_cell(cell: CellModel) -> Seq<char> {
    EXPORT_CELL@ + cell.id + "\n"@ + cell.code + "\n\n"@
}

/// The first `upto` cells in the plain code.
pub open spec fn exported_cells(cells: Seq<CellModel>, upto: int) -> Seq<char>
    decreases upto,
{
    if upto <= 0 {
        Seq::empty()
    } else {
        exported_cells(cells, upto - 1) + exported_cell(cells[upto - 1])
    }
}

/// The plain code of `cells`.
pub open spec fn exported(cells: Seq<CellModel>) -> Seq<char> {
    EXPORT_HEAD@ + exported_cells(cells, cells.len() as int)
}

/// One cell in the HTML page: a block with its name as the heading and its
/// code, escaped.
pub open spec fn documented_cell(cell: CellModel) -> Seq<char> {
    HTML_CELL_OPEN@ + cell.id + HTML_CELL_CODE@ + escaped(cell.code) + HTML_CELL_CLOSE@
}

/// The first `upto` cells in the HTML page.
pub open spec fn documented_cells(cells: Seq<CellModel>, upto: int) -> Seq<char>
    decreases upto,
{
    if upto <= 0 {
        Seq::empty()
    } else {
        documented_cells(cells, upto - 1) + documented_cell(cells[upto - 1])
    }
}

/// The HTML page of `cells`.
pub open spec fn documented(cells: Seq<CellModel>) -> Seq<char> {
    HTML_HEAD@ + documented_cells(cells, cells.len() as int) + HTML_FOOT@
}

/// `s` as HTML text.
pub fn escape_html(s: &str) -> (out: String)
    ensures
        out@ == escaped(s@),
{
    let chars = to_chars(s);
    let mut out = String::new();
    let mut i: usize = 0;
    while i < chars.len()
        invariant
            i <= chars@.len(),
            out@ == escaped(chars@.take(i as int)),
        decreases chars@.len() - i,
    {
        let c: char = chars[i];
        if c == '&' {
            out.append("&amp;");
        } else if c == '<' {
            out.append("&lt;");
        } else if c == '>' {
            out.append("&gt;");
        } else if c == '"' {
            out.append("&quot;");
        } else if c == '\'' {
            out.append("&#x27;");
        } else {
            out.push(c);
            assert(out@ =~= escaped(chars@.take(i as int)) + seq![c]);
        }
        i += 1;
        assert(chars@.take(i as int).drop_last() =~= chars@.take(i - 1));
    }
    assert(chars@.take(i as int) =~= chars@);
    out
}

/// The plain code of `cells`.
pub fn export_text(cells: &Vec<Cell>) -> (out: String)
    ensures
        out@ == exported(models(cells@)),
{
    let mut out = String::from_str(EXPORT_HEAD);
    let mut i: usize = 0;
    assert(out@ =~= EXPORT_HEAD@ + exported_cells(models(cells@), 0));
    while i < cells.len()
        invariant
            i <= cells@.len(),
            out@ == EXPORT_HEAD@ + exported_cells(models(cells@), i as int),
        decreases cells@.len() - i,
    {
        let ghost before = out@;
        let cell = &cells[i];
        out.append(EXPORT_CELL);
        out.append(cell.id.as_str());
        out.append("\n");
        out.append(cell.code.as_str());
        out.append("\n\n");
        i += 1;
        assert(models(cells@)[i - 1] == cell@);
        assert(out@ =~= before + exported_cell(cell@));
        assert(out@ =~= EXPORT_HEAD@ + exported_cells(models(cells@), i as int));
    }
    out
}

/// The HTML page of `cells`.
pub fn html_text(cells: &Vec<Cell>) -> (out: String)
    ensures
        out@ == documented(models(cells@)),
{
    let mut out = String::from_str(HTML_HEAD);
    let mut i: usize = 0;
    assert(out@ =~= HTML_HEAD@ + documented_cells(models(cells@), 0));
    while i < cells.len()
        invariant
            i <= cells@.len(),
            out@ == HTML_HEAD@ + documented_cells(models(cells@), i as int),
        decreases cells@.len() - i,
    {
        let ghost before = out@;
        let cell = &cells[i];
        let code = escape_html(cell.code.as_str());
        out.append(HTML_CELL_OPEN);
        out.append(cell.id.as_str());
        out.append(HTML_CELL_CODE);
        out.append(code.as_str());
        out.append(HTML_CELL_CLOSE);
        i += 1;
        assert(models(cells@)[i - 1] == cell@);
        assert(out@ =~= before + documented_cell(cell@));
        assert(out@ =~= HTML_HEAD@ + documented_cells(models(cells@), i as int));
    }
    out.append(HTML_FOOT);
    out
}

} // verus!
