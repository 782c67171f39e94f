//! The cell extractor: finds the cell markers of a document and the fenced
//! code block that follows each of them.
//!
//! A marker has the shape `<!-- cell:ID depends:A,B -->`. Its body, the
//! text between `<!-- cell:` and the next `-->`, is split into words. The
//! first word names the cell; each later word that begins with `depends:`
//! adds the comma-separated names behind the colon to the cell's
//! dependencies; other words are passed over. The cell's code is what stands
//! between the next opening fence for Rust code behind the marker and the
//! closing fence that follows it, trimmed. A marker without a name, or with
//! no such block behind it, defines no cell.
//!
//! The scan for the next marker goes on one character behind the beginning
//! of the last one, not behind its code block: a marker that stands inside
//! another marker's body or code is a marker too, and two markers may share
//! one block.

use vstd::prelude::*;
use vstd::slice::slice_subrange;
use crate::cell::{Cell, CellModel, models, has_id, distinct_ids, insert_cell, insert};
use crate::text::{
    white_space, occurs_at, first_occurrence, words, fields, trimmed, runs,
    lemma_first_occurrence, lemma_words_from, to_chars, to_string, matches_at, find, trim,
    split_whitespace, split,
};

verus! {

/// The text that opens a cell marker.
pub open spec fn marker_open() -> Seq<char> {
    "<!-- cell:"@
}

/// The text that closes a cell marker.
pub open spec fn marker_close() -> Seq<char> {
    "-->"@
}

/// The text that opens a code block.
pub open spec fn fence_open() -> Seq<char> {
    "```rust"@
}

/// The text that closes a code block.
pub open spec fn fence_close() -> Seq<char> {
    "```"@
}

/// The text that begins a word of a marker which declares dependencies.
pub open spec fn depends_prefix() -> Seq<char> {
    "depends:"@
}

/// The dependencies that one word of a marker declares: for the word
/// `depends:` followed by a list, the fields of the list between its
/// commas, each trimmed; for any other word, none.
pub open spec fn word_dependencies(word: Seq<char>) -> Seq<Seq<char>> {
    if occurs_at(word, depends_prefix(), 0) {
        fields(word.skip(depends_prefix().len() as int), ',').map_values(
            |field: Seq<char>| trimmed(field),
        )
    } else {
        Seq::empty()
    }
}

/// The dependencies that the words of a marker declare, in the order in
/// which they are written. The first word is the cell's name and declares
/// none.
pub open spec fn declared_dependencies(words: Seq<Seq<char>>) -> Seq<Seq<char>>
    decreases words.len(),
{
    if words.len() <= 1 {
        Seq::empty()
    } else {
        declared_dependencies(words.drop_last()) + word_dependencies(words.last())
    }
}

/// The index at which the body of the marker at index `start` ends: that
/// of the first `-->` behind `<!-- cell:`.
pub open spec fn marker_end(text: Seq<char>, start: int) -> Option<int> {
    first_occurrence(text, marker_close(), start + marker_open().len())
}

/// The code of the first code block that opens at or after `from`: what
/// stands between the opening fence and the closing fence that follows it,
/// trimmed. There is none where either fence is missing.
pub open spec fn code_behind(text: Seq<char>, from: int) -> Option<Seq<char>> {
    match first_occurrence(text, fence_open(), from) {
        None => None,
        Some(fence) => {
            let code_start = fence + fence_open().len();
            match first_occurrence(text, fence_close(), code_start) {
                None => None,
                Some(code_end) => Some(trimmed(text.subrange(code_start, code_end))),
            }
        },
    }
}

/// The cell that the marker at index `start` of `text` defines, if it
/// defines one.
pub open spec fn marked_cell(text: Seq<char>, start: int) -> Option<CellModel> {
    match marker_end(text, start) {
        None => None,
        Some(end) => {
            let names = words(text.subrange(start + marker_open().len(), end));
            if names.len() == 0 {
                None
            } else {
                match code_behind(text, end + marker_close().len()) {
                    None => None,
                    Some(code) => Some(
                        CellModel {
                            id: names[0],
                            code,
                            dependencies: declared_dependencies(names),
                            executed: false,
                        },
                    ),
                }
            }
        },
    }
}

/// The indices at which the markers of `text` begin, from `from` on.
pub open spec fn marker_starts(text: Seq<char>, from: int) -> Seq<int>
    decreases text.len() - from,
    via marker_starts_decreases
{
    match first_occurrence(text, marker_open(), from) {
        None => Seq::empty(),
        Some(start) => seq![start] + marker_starts(text, start + 1),
    }
}

#[via_fn]
proof fn marker_starts_decreases(text: Seq<char>, from: int) {
    if 0 <= from {
        lemma_first_occurrence(text, marker_open(), from);
        lemma_lengths();
    }
}

/// `found` after the cells of the markers of `text` that begin at or after
/// `from` have been defined in it, one after the other.
pub open spec fn cells_from(text: Seq<char>, from: int, found: Seq<CellModel>) -> Seq<CellModel>
    decreases text.len() - from,
    via cells_from_decreases
{
    match first_occurrence(text, marker_open(), from) {
        None => found,
        Some(start) => cells_from(
            text,
            start + 1,
            match marked_cell(text, start) {
                Some(cell) => insert_cell(found, cell),
                None => found,
            },
        ),
    }
}

#[via_fn]
proof fn cells_from_decreases(text: Seq<char>, from: int, found: Seq<CellModel>) {
    if 0 <= from {
        lemma_first_occurrence(text, marker_open(), from);
        lemma_lengths();
    }
}

/// The cells that the document `text` defines: those of its markers, taken
/// from the first to the last, a later cell taking the place of an earlier
/// one of the same name.
pub open spec fn extracted(text: Seq<char>) -> Seq<CellModel> {
    cells_from(text, 0, Seq::empty())
}

/// The lengths of the five fixed texts.
pub proof fn lemma_lengths()
    ensures
        marker_open().len() == 10,
        marker_close().len() == 3,
        fence_open().len() == 7,
        fence_close().len() == 3,
        depends_prefix().len() == 8,
{
    reveal_strlit("<!-- cell:");
    reveal_strlit("-->");
    reveal_strlit("```rust");
    reveal_strlit("```");
    reveal_strlit("depends:");
}

/// A word made of `depends:` and a list declares the fields of the list
/// between its commas, each trimmed.
pub proof fn lemma_depends_word(list: Seq<char>)
    ensures
        word_dependencies(depends_prefix() + list) == fields(list, ',').map_values(
            |field: Seq<char>| trimmed(field),
        ),
{
    let word = depends_prefix() + list;
    assert(word.subrange(0, depends_prefix().len() as int) =~= depends_prefix());
    assert(word.skip(depends_prefix().len() as int) =~= list);
}

/// A marker defines a cell exactly if it has an end, a name before its end,
/// and a code block behind it. So a marker without a name defines none, and
/// neither does one that no code block follows.
pub proof fn lemma_marked_cell(text: Seq<char>, start: int)
    ensures
        marked_cell(text, start) is Some <==> {
            &&& marker_end(text, start) matches Some(end)
            &&& words(text.subrange(start + marker_open().len(), end)).len() > 0
            &&& code_behind(text, end + marker_close().len()) is Some
        },
        marked_cell(text, start) matches Some(cell) ==> {
            &&& marker_end(text, start) matches Some(end)
            &&& cell.id == words(text.subrange(start + marker_open().len(), end))[0]
            &&& cell.id.len() > 0
            &&& forall|j: int| 0 <= j < cell.id.len() ==> !white_space(#[trigger] cell.id[j])
            &&& Some(cell.code) == code_behind(text, end + marker_close().len())
            &&& !cell.executed
        },
{
    if let Some(end) = marker_end(text, start) {
        lemma_words_from(text.subrange(start + marker_open().len(), end), 0);
    }
}

/// Each cell of `insert_cell(found, cell)` is `cell` or a cell of `found`.
proof fn lemma_insert_cell_entries(found: Seq<CellModel>, cell: CellModel, i: int)
    requires
        0 <= i < insert_cell(found, cell).len(),
    ensures
        insert_cell(found, cell)[i] == cell || found.contains(insert_cell(found, cell)[i]),
{
    if has_id(found, cell.id) {
        if found[i].id != cell.id {
            assert(found[i] == insert_cell(found, cell)[i]);
        }
    } else if i < found.len() {
        assert(found[i] == insert_cell(found, cell)[i]);
    }
}

/// Each cell found from `from` on was in `found` before, or is the cell of
/// a marker that begins at or after `from`.
proof fn lemma_cells_from_markers(text: Seq<char>, from: int, found: Seq<CellModel>, i: int)
    requires
        0 <= from,
        0 <= i < cells_from(text, from, found).len(),
    ensures
        found.contains(cells_from(text, from, found)[i]) || exists|start: int|
            from <= start && #[trigger] occurs_at(text, marker_open(), start) && marked_cell(
                text,
                start,
            ) == Some(cells_from(text, from, found)[i]),
    decreases text.len() - from,
{
    lemma_first_occurrence(text, marker_open(), from);
    lemma_lengths();
    let cell = cells_from(text, from, found)[i];
    match first_occurrence(text, marker_open(), from) {
        None => {
            assert(found[i] == cell);
        },
        Some(first) => {
            let next = match marked_cell(text, first) {
                Some(c) => insert_cell(found, c),
                None => found,
            };
            lemma_cells_from_markers(text, first + 1, next, i);
            if next.contains(cell) {
                let k = choose|k: int| 0 <= k < next.len() && next[k] == cell;
                if let Some(c) = marked_cell(text, first) {
                    lemma_insert_cell_entries(found, c, k);
                    if cell == c {
                        assert(occurs_at(text, marker_open(), first));
                    }
                }
            } else {
                let start = choose|start: int|
                    first + 1 <= start && #[trigger] occurs_at(text, marker_open(), start)
                        && marked_cell(text, start) == Some(cell);
                assert(from <= start && occurs_at(text, marker_open(), start));
            }
        },
    }
}

/// Every cell of a document is the cell of one of its markers: a marker
/// that defines no cell leaves none.
pub proof fn lemma_extracted_from_markers(text: Seq<char>, i: int)
    requires
        0 <= i < extracted(text).len(),
    ensures
        exists|start: int|
            0 <= start && #[trigger] occurs_at(text, marker_open(), start) && marked_cell(
                text,
                start,
            ) == Some(extracted(text)[i]),
{
    lemma_cells_from_markers(text, 0, Seq::empty(), i);
}

/// Where every marker from `from` on defines a cell, under a name that no
/// other of them and no cell of `found` has, the cells found are those of
/// `found` and then one for each marker, in order.
proof fn lemma_cells_from_all_defined(text: Seq<char>, from: int, found: Seq<CellModel>)
    requires
        0 <= from,
        forall|i: int|
            0 <= i < marker_starts(text, from).len() ==> (#[trigger] marked_cell(
                text,
                marker_starts(text, from)[i],
            )) is Some,
        forall|i: int, j: int|
            0 <= i < j < marker_starts(text, from).len() ==> (#[trigger] marked_cell(
                text,
                marker_starts(text, from)[i],
            ))->0.id != (#[trigger] marked_cell(text, marker_starts(text, from)[j]))->0.id,
        forall|i: int|
            0 <= i < marker_starts(text, from).len() ==> !has_id(
                found,
                (#[trigger] marked_cell(text, marker_starts(text, from)[i]))->0.id,
            ),
    ensures
        cells_from(text, from, found) == found + marker_starts(text, from).map_values(
            |start: int| marked_cell(text, start)->0,
        ),
    decreases text.len() - from,
{
    lemma_first_occurrence(text, marker_open(), from);
    lemma_lengths();
    let starts = marker_starts(text, from);
    let cell_of = |start: int| marked_cell(text, start)->0;
    match first_occurrence(text, marker_open(), from) {
        None => {
            assert(found + starts.map_values(cell_of) =~= found);
        },
        Some(first) => {
            let rest = marker_starts(text, first + 1);
            assert(starts[0] == first);
            assert forall|i: int| 0 <= i < rest.len() implies rest[i] == #[trigger] starts[i + 1] by {}
            let cell = marked_cell(text, first)->0;
            assert(marked_cell(text, starts[0]) is Some);
            assert(!has_id(found, marked_cell(text, starts[0])->0.id));
            let next = found.push(cell);
            assert(insert_cell(found, cell) == next);
            assert forall|i: int| 0 <= i < rest.len() implies (#[trigger] marked_cell(
                text,
                rest[i],
            )) is Some by {
                assert(marked_cell(text, starts[i + 1]) is Some);
            }
            assert forall|i: int, j: int| 0 <= i < j < rest.len() implies (#[trigger] marked_cell(
                text,
                rest[i],
            ))->0.id != (#[trigger] marked_cell(text, rest[j]))->0.id by {
                assert(marked_cell(text, starts[i + 1])->0.id != marked_cell(
                    text,
                    starts[j + 1],
                )->0.id);
            }
            assert forall|i: int| 0 <= i < rest.len() implies !has_id(
                next,
                (#[trigger] marked_cell(text, rest[i]))->0.id,
            ) by {
                let id = marked_cell(text, rest[i])->0.id;
                assert(!has_id(found, marked_cell(text, starts[i + 1])->0.id));
                assert(marked_cell(text, starts[0])->0.id != marked_cell(
                    text,
                    starts[i + 1],
                )->0.id);
                if has_id(next, id) {
                    let k = choose|k: int| 0 <= k < next.len() && next[k].id == id;
                    if k < found.len() {
                        assert(found[k].id == id);
                    }
                }
            }
            lemma_cells_from_all_defined(text, first + 1, next);
            assert(next + rest.map_values(cell_of) =~= found + starts.map_values(cell_of));
        },
    }
}

/// A document each of whose markers defines a cell, each under another
/// name, has one cell for each marker: the cells of its markers, in order.
pub proof fn lemma_every_marker_a_cell(text: Seq<char>)
    requires
        forall|i: int|
            0 <= i < marker_starts(text, 0).len() ==> (#[trigger] marked_cell(
                text,
                marker_starts(text, 0)[i],
            )) is Some,
        forall|i: int, j: int|
            0 <= i < j < marker_starts(text, 0).len() ==> (#[trigger] marked_cell(
                text,
                marker_starts(text, 0)[i],
            ))->0.id != (#[trigger] marked_cell(text, marker_starts(text, 0)[j]))->0.id,
    ensures
        extracted(text) == marker_starts(text, 0).map_values(
            |start: int| marked_cell(text, start)->0,
        ),
        extracted(text).len() == marker_starts(text, 0).len(),
        forall|i: int|
            0 <= i < marker_starts(text, 0).len() ==> has_id(
                extracted(text),
                (#[trigger] marked_cell(text, marker_starts(text, 0)[i]))->0.id,
            ),
{
    let starts = marker_starts(text, 0);
    let cell_of = |start: int| marked_cell(text, start)->0;
    lemma_cells_from_all_defined(text, 0, Seq::empty());
    assert(Seq::<CellModel>::empty() + starts.map_values(cell_of) =~= starts.map_values(cell_of));
    assert forall|i: int| 0 <= i < starts.len() implies has_id(
        extracted(text),
        (#[trigger] marked_cell(text, starts[i]))->0.id,
    ) by {
        assert(extracted(text)[i].id == marked_cell(text, starts[i])->0.id);
    }
}

/// No two cells of a document share a name.
pub proof fn lemma_extracted_distinct(text: Seq<char>)
    ensures
        distinct_ids(extracted(text)),
{
    lemma_cells_from_distinct(text, 0, Seq::empty());
}

/// The cells found keep distinct names.
proof fn lemma_cells_from_distinct(text: Seq<char>, from: int, found: Seq<CellModel>)
    requires
        0 <= from,
        distinct_ids(found),
    ensures
        distinct_ids(cells_from(text, from, found)),
    decreases text.len() - from,
{
    lemma_first_occurrence(text, marker_open(), from);
    lemma_lengths();
    match first_occurrence(text, marker_open(), from) {
        None => {},
        Some(start) => {
            match marked_cell(text, start) {
                Some(cell) => {
                    crate::cell::lemma_insert_cell(found, cell);
                    lemma_cells_from_distinct(text, start + 1, insert_cell(found, cell));
                },
                None => {
                    lemma_cells_from_distinct(text, start + 1, found);
                },
            }
        },
    }
}

/// The dependencies that one word of a marker declares.
pub fn dependencies_of_word(word: &[char]) -> (deps: Vec<String>)
    ensures
        deps.deep_view() == word_dependencies(word@),
{
    let prefix = to_chars("depends:");
    let mut deps: Vec<String> = Vec::new();
    if matches_at(word, prefix.as_slice(), 0) {
        let list = slice_subrange(word, prefix.len(), word.len());
        let parts = split(list, ',');
        let mut k: usize = 0;
        while k < parts.len()
            invariant
                k <= parts@.len(),
                deps@.len() == k,
                forall|j: int| 0 <= j < k ==> #[trigger] deps@[j]@ == trimmed(parts@[j]@),
            decreases parts@.len() - k,
        {
            deps.push(to_string(trim(parts[k].as_slice())));
            k += 1;
        }
        assert(deps.deep_view() =~= word_dependencies(word@)) by {
            assert(list@ == word@.skip(depends_prefix().len() as int));
            assert forall|j: int| 0 <= j < deps@.len() implies deps.deep_view()[j]
                == word_dependencies(word@)[j] by {
                assert(runs(parts@)[j] == parts@[j]@);
            }
        }
    } else {
        assert(deps.deep_view() =~= word_dependencies(word@));
    }
    deps
}

/// The dependencies that the words of a marker declare.
pub fn dependencies_of_words(names: &Vec<Vec<char>>) -> (deps: Vec<String>)
    ensures
        deps.deep_view() == declared_dependencies(runs(names@)),
{
    let mut deps: Vec<String> = Vec::new();
    if names.len() <= 1 {
        assert(deps.deep_view() =~= declared_dependencies(runs(names@)));
        return deps;
    }
    let mut k: usize = 1;
    assert(deps.deep_view() =~= declared_dependencies(runs(names@).take(1)));
    while k < names.len()
        invariant
            1 <= k <= names@.len(),
            deps.deep_view() == declared_dependencies(runs(names@).take(k as int)),
        decreases names@.len() - k,
    {
        let ghost before = deps.deep_view();
        let mut more = dependencies_of_word(names[k].as_slice());
        let ghost added = more.deep_view();
        deps.append(&mut more);
        k += 1;
        assert(deps.deep_view() =~= before + added);
        assert(runs(names@).take(k as int).drop_last() =~= runs(names@).take(k - 1));
        assert(runs(names@).take(k as int).last() == names@[k - 1]@);
    }
    assert(runs(names@).take(k as int) =~= runs(names@));
    deps
}

/// The code of the first code block that opens at or after `from`.
pub fn read_code(text: &[char], from: usize) -> (found: Option<String>)
    ensures
        match found {
            Some(code) => code_behind(text@, from as int) == Some(code@),
            None => code_behind(text@, from as int) is None,
        },
{
    let fence = to_chars("```rust");
    let fence_end = to_chars("```");
    let code_start: usize = match find(text, fence.as_slice(), from) {
        None => { return None; },
        Some(i) => {
            proof {
                lemma_first_occurrence(text@, fence_open(), from as int);
            }
            assert(text@.len() == text.len());
            i + fence.len()
        },
    };
    match find(text, fence_end.as_slice(), code_start) {
        None => None,
        Some(code_end) => {
            proof {
                lemma_first_occurrence(text@, fence_close(), code_start as int);
            }
            Some(to_string(trim(slice_subrange(text, code_start, code_end))))
        },
    }
}

/// The cell that the marker at index `start` of `text` defines, if it
/// defines one.
pub fn read_cell(text: &[char], start: usize) -> (found: Option<Cell>)
    ensures
        match found {
            Some(cell) => marked_cell(text@, start as int) == Some(cell@),
            None => marked_cell(text@, start as int) is None,
        },
{
    let open = to_chars("<!-- cell:");
    let close = to_chars("-->");
    if open.len() > text.len() || start > text.len() - open.len() {
        return None;
    }
    let body_start: usize = start + open.len();
    let body_end: usize = match find(text, close.as_slice(), body_start) {
        None => { return None; },
        Some(i) => i,
    };
    proof {
        lemma_first_occurrence(text@, marker_close(), body_start as int);
    }
    let names = split_whitespace(slice_subrange(text, body_start, body_end));
    if names.len() == 0 {
        return None;
    }
    assert(runs(names@)[0] == names@[0]@);
    match read_code(text, body_end + close.len()) {
        None => None,
        Some(code) => {
            let id = to_string(names[0].as_slice());
            let dependencies = dependencies_of_words(&names);
            Some(Cell::new(id, code, dependencies))
        },
    }
}

/// The cells that the document `text` defines.
pub fn extract(text: &[char]) -> (cells: Vec<Cell>)
    ensures
        models(cells@) == extracted(text@),
        distinct_ids(models(cells@)),
{
    let open = to_chars("<!-- cell:");
    let mut cells: Vec<Cell> = Vec::new();
    let mut from: usize = 0;
    assert(models(cells@) =~= Seq::empty());
    loop
        invariant
            text@.len() == text.len(),
            open@ == marker_open(),
            distinct_ids(models(cells@)),
            cells_from(text@, from as int, models(cells@)) == extracted(text@),
        ensures
            models(cells@) == extracted(text@),
            distinct_ids(models(cells@)),
        decreases text@.len() - from,
    {
        match find(text, open.as_slice(), from) {
            None => { break ; },
            Some(start) => {
                proof {
                    lemma_first_occurrence(text@, marker_open(), from as int);
                    lemma_lengths();
                }
                if let Some(cell) = read_cell(text, start) {
                    insert(&mut cells, cell);
                }
                from = start + 1;
            },
        }
    }
    cells
}

} // verus!
