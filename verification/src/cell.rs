//! Cells: named units of code with the names of the cells they depend on,
//! and the sets of cells that a document defines.

use vstd::prelude::*;

verus! {

/// A named unit of code together with the ids of the cells it depends on.
#[derive(Debug)]
pub struct Cell {
    pub id: String,
    pub code: String,
    pub dependencies: Vec<String>,
    pub executed: bool,
}

/// The mathematical value of a `Cell`.
pub ghost struct CellModel {
    pub id: Seq<char>,
    pub code: Seq<char>,
    pub dependencies: Seq<Seq<char>>,
    pub executed: bool,
}

impl View for Cell {
    type V = CellModel;

    open spec fn view(&self) -> CellModel {
        CellModel {
            id: self.id@,
            code: self.code@,
            dependencies: self.dependencies.deep_view(),
            executed: self.executed,
        }
    }
}

impl Cell {
    /// A cell that has not been executed yet.
    pub fn new(id: String, code: String, dependencies: Vec<String>) -> (cell: Cell)
        ensures
            cell.id == id,
            cell.code == code,
            cell.dependencies == dependencies,
            !cell.executed,
    {
        Cell { id, code, dependencies, executed: false }
    }
}

/// The values of the cells of `cells`, in order.
pub open spec fn models(cells: Seq<Cell>) -> Seq<CellModel> {
    cells.map_values(|c: Cell| c@)
}

/// Whether a cell of `cells` is named `id`.
pub open spec fn has_id(cells: Seq<CellModel>, id: Seq<char>) -> bool {
    exists|i: int| 0 <= i < cells.len() && #[trigger] cells[i].id == id
}

/// Whether no two cells of `cells` share a name.
pub open spec fn distinct_ids(cells: Seq<CellModel>) -> bool {
    forall|i: int, j: int|
        0 <= i < j < cells.len() ==> #[trigger] cells[i].id != #[trigger] cells[j].id
}

/// `cells` after `cell` has been defined: it takes the place of the cell of
/// the same name, or comes last where there was none.
pub open spec fn insert_cell(cells: Seq<CellModel>, cell: CellModel) -> Seq<CellModel> {
    if has_id(cells, cell.id) {
        cells.map_values(
            |c: CellModel|
                if c.id == cell.id {
                    cell
                } else {
                    c
                },
        )
    } else {
        cells.push(cell)
    }
}

/// Defining a cell keeps the names distinct, keeps every name, and makes
/// the new cell the one of its name.
pub proof fn lemma_insert_cell(cells: Seq<CellModel>, cell: CellModel)
    requires
        distinct_ids(cells),
    ensures
        distinct_ids(insert_cell(cells, cell)),
        has_id(insert_cell(cells, cell), cell.id),
        forall|id: Seq<char>| has_id(cells, id) ==> has_id(insert_cell(cells, cell), id),
        forall|id: Seq<char>|
            has_id(insert_cell(cells, cell), id) ==> id == cell.id || has_id(cells, id),
        insert_cell(cells, cell).len() == cells.len() + if has_id(cells, cell.id) {
            0int
        } else {
            1int
        },
{
    let after = insert_cell(cells, cell);
    if has_id(cells, cell.id) {
        let k = choose|k: int| 0 <= k < cells.len() && cells[k].id == cell.id;
        assert(after[k].id == cell.id);
        assert forall|id: Seq<char>| has_id(cells, id) implies has_id(after, id) by {
            let i = choose|i: int| 0 <= i < cells.len() && cells[i].id == id;
            assert(after[i].id == id);
        }
        assert forall|id: Seq<char>| has_id(after, id) implies id == cell.id || has_id(
            cells,
            id,
        ) by {
            let i = choose|i: int| 0 <= i < after.len() && after[i].id == id;
            assert(cells[i].id == id || id == cell.id);
        }
        assert forall|i: int, j: int| 0 <= i < j < after.len() implies after[i].id
            != after[j].id by {
            assert(after[i].id == cells[i].id);
            assert(after[j].id == cells[j].id);
        }
    } else {
        assert(after[cells.len() as int].id == cell.id);
        assert forall|id: Seq<char>| has_id(cells, id) implies has_id(after, id) by {
            let i = choose|i: int| 0 <= i < cells.len() && cells[i].id == id;
            assert(after[i].id == id);
        }
        assert forall|id: Seq<char>| has_id(after, id) implies id == cell.id || has_id(
            cells,
            id,
        ) by {
            let i = choose|i: int| 0 <= i < after.len() && after[i].id == id;
            if i < cells.len() {
                assert(cells[i].id == id);
            }
        }
        assert forall|i: int, j: int| 0 <= i < j < after.len() implies after[i].id
            != after[j].id by {
            if j == cells.len() {
                assert(cells[i].id != cell.id);
            }
        }
    }
}

/// The index in `cells` of the cell named `id`.
pub fn position(cells: &Vec<Cell>, id: &String) -> (found: Option<usize>)
    ensures
        match found {
            Some(i) => i < cells@.len() && cells@[i as int].id@ == id@,
            None => !has_id(models(cells@), id@),
        },
        found is Some ==> forall|j: int| 0 <= j < found->0 ==> cells@[j].id@ != id@,
{
    let mut i: usize = 0;
    while i < cells.len()
        invariant
            i <= cells@.len(),
            forall|j: int| 0 <= j < i ==> cells@[j].id@ != id@,
        decreases cells@.len() - i,
    {
        if cells[i].id == *id {
            return Some(i);
        }
        i += 1;
    }
    assert forall|j: int| 0 <= j < models(cells@).len() implies models(cells@)[j].id != id@ by {
        assert(models(cells@)[j] == cells@[j]@);
    }
    None
}

/// Defines `cell` in `cells`: it takes the place of the cell of the same
/// name, or comes last where there was none.
pub fn insert(cells: &mut Vec<Cell>, cell: Cell)
    requires
        distinct_ids(models(old(cells)@)),
    ensures
        models(final(cells)@) == insert_cell(models(old(cells)@), cell@),
        distinct_ids(models(final(cells)@)),
{
    proof {
        lemma_insert_cell(models(cells@), cell@);
    }
    let ghost before = models(cells@);
    match position(cells, &cell.id) {
        Some(i) => {
            assert(before[i as int].id == cell@.id);
            cells.set(i, cell);
            assert(models(cells@) =~= insert_cell(before, cell@)) by {
                assert forall|j: int| 0 <= j < before.len() implies models(cells@)[j]
                    == insert_cell(before, cell@)[j] by {
                    if j != i {
                        assert(before[j].id != before[i as int].id);
                    }
                }
            }
        },
        None => {
            cells.push(cell);
            assert(models(cells@) =~= insert_cell(before, cell@));
        },
    }
}

} // verus!
