//! The processor: a set of cells, filled from a literate document.

use vstd::prelude::*;
use crate::cell::{Cell, CellModel, models, has_id, distinct_ids, position};
use crate::error::LitProError;
use crate::extract::{extract, extracted};
use crate::graph::DependencyGraph;
use crate::render::{escaped, exported, documented};
use crate::resolve::{
    is_execution_order, has_dependency_cycle, requirement_lists, missing, lemma_no_cells,
};
use crate::text::to_chars;

verus! {

/// `cells` with every cell marked as executed.
pub open spec fn all_executed(cells: Seq<CellModel>) -> Seq<CellModel> {
    cells.map_values(|c: CellModel| CellModel { executed: true, ..c })
}

/// `cells` with the cells that `order` names marked as executed.
spec fn executed_those(cells: Seq<CellModel>, order: Seq<Seq<char>>) -> Seq<CellModel> {
    cells.map_values(
        |c: CellModel|
            if order.contains(c.id) {
                CellModel { executed: true, ..c }
            } else {
                c
            },
    )
}

/// A literate document processor. It holds the cells of the document that
/// was parsed last, each under its own name, in the order in which the
/// names first occur in the document.
pub struct LitPro {
    cells: Vec<Cell>,
}

impl View for LitPro {
    type V = Seq<CellModel>;

    closed spec fn view(&self) -> Seq<CellModel> {
        models(self.cells@)
    }
}

impl LitPro {
    #[verifier::type_invariant]
    spec fn well_formed(self) -> bool {
        distinct_ids(models(self.cells@))
    }

    /// A processor without cells.
    pub fn new() -> (litpro: LitPro)
        ensures
            litpro@ == Seq::<CellModel>::empty(),
    {
        let cells: Vec<Cell> = Vec::new();
        assert(models(cells@) =~= Seq::<CellModel>::empty());
        LitPro { cells }
    }

    /// Replaces the cells by those that the document `content` defines.
    /// Markers that define no cell are passed over, so this never fails.
    pub fn parse_cells(&mut self, content: &str) -> (result: Result<(), LitProError>)
        ensures
            result is Ok,
            final(self)@ == extracted(content@),
            distinct_ids(final(self)@),
    {
        let text = to_chars(content);
        self.cells = extract(text.as_slice());
        Ok(())
    }

    /// The number of cells.
    pub fn len(&self) -> (n: usize)
        ensures
            n == self@.len(),
    {
        self.cells.len()
    }

    /// Whether there is no cell.
    pub fn is_empty(&self) -> (b: bool)
        ensures
            b == (self@.len() == 0),
    {
        self.cells.len() == 0
    }

    /// Whether a cell is named `id`.
    pub fn contains_key(&self, id: &str) -> (b: bool)
        ensures
            b == has_id(self@, id@),
    {
        let name = id.to_owned();
        let found = position(&self.cells, &name);
        proof {
            if let Some(i) = found {
                assert(self@[i as int].id == id@);
            }
        }
        found.is_some()
    }

    /// The cell named `id`.
    pub fn get(&self, id: &str) -> (found: Option<&Cell>)
        ensures
            match found {
                Some(cell) => cell@.id == id@ && self@.contains(cell@),
                None => !has_id(self@, id@),
            },
    {
        let name = id.to_owned();
        match position(&self.cells, &name) {
            Some(i) => {
                assert(self@[i as int] == self.cells@[i as int]@);
                Some(&self.cells[i])
            },
            None => None,
        }
    }

    /// The cells, in the order in which the set holds them.
    pub fn cells(&self) -> (cells: &Vec<Cell>)
        ensures
            models(cells@) == self@,
            distinct_ids(self@),
    {
        proof {
            use_type_invariant(self);
        }
        &self.cells
    }

    /// The dependency graph of the cells: one node for each cell, numbered
    /// as the set holds them, and for each cell the cells that its
    /// dependencies name.
    pub fn dependency_graph(&self) -> (g: DependencyGraph)
        ensures
            g@ == requirement_lists(self@),
    {
        proof {
            use_type_invariant(self);
        }
        crate::resolve::dependency_graph(&self.cells)
    }

    /// The dependencies that name no cell, each with the name of the cell
    /// that declares it. They are left out of the dependency graph.
    pub fn missing_dependencies(&self) -> (out: Vec<(String, String)>)
        ensures
            out.deep_view() == missing(self@),
    {
        crate::resolve::missing_dependencies(&self.cells)
    }

    /// The names of the cells in an order in which they can run: each cell
    /// after all the cells that it depends on. Fails if and only if the
    /// cells depend on each other in a circle.
    pub fn resolve_dependencies(&self) -> (result: Result<Vec<String>, LitProError>)
        ensures
            match result {
                Ok(order) => is_execution_order(self@, order.deep_view()),
                Err(error) => error is CircularDependencyError && has_dependency_cycle(self@),
            },
            result is Ok <==> !has_dependency_cycle(self@),
            self@.len() == 0 ==> (result matches Ok(order) && order@.len() == 0),
    {
        proof {
            use_type_invariant(self);
            if self@.len() == 0 {
                assert(self@ =~= Seq::<CellModel>::empty());
                lemma_no_cells(Seq::empty());
            }
        }
        match crate::resolve::execution_order(&self.cells) {
            Some(order) => Ok(order),
            None => Err(LitProError::CircularDependencyError),
        }
    }

    /// Parses the document `content` and runs its cells: puts them in an
    /// order in which they can run and marks each, in that order, as
    /// executed. Gives the order. Where the cells depend on each other in a
    /// circle, no cell is marked.
    pub fn run_litpro(&mut self, content: &str) -> (result: Result<Vec<String>, LitProError>)
        ensures
            match result {
                Ok(order) => {
                    &&& is_execution_order(extracted(content@), order.deep_view())
                    &&& final(self)@ == all_executed(extracted(content@))
                },
                Err(error) => {
                    &&& error is CircularDependencyError
                    &&& has_dependency_cycle(extracted(content@))
                    &&& final(self)@ == extracted(content@)
                },
            },
            result is Ok <==> !has_dependency_cycle(extracted(content@)),
    {
        let text = to_chars(content);
        let mut cells = extract(text.as_slice());
        let ghost parsed = models(cells@);
        let found = crate::resolve::execution_order(&cells);
        match found {
            None => {
                self.cells = cells;
                Err(LitProError::CircularDependencyError)
            },
            Some(order) => {
                let mut k: usize = 0;
                assert(models(cells@) =~= executed_those(parsed, order.deep_view().take(0)));
                while k < order.len()
                    invariant
                        k <= order@.len(),
                        distinct_ids(parsed),
                        is_execution_order(parsed, order.deep_view()),
                        models(cells@) == executed_those(parsed, order.deep_view().take(k as int)),
                    decreases order@.len() - k,
                {
                    let ghost names = order.deep_view();
                    let ghost before = models(cells@);
                    assert(names[k as int] == order@[k as int]@);
                    match position(&cells, &order[k]) {
                        Some(i) => {
                            cells[i].executed = true;
                            assert(models(cells@) =~= before.update(
                                i as int,
                                CellModel { executed: true, ..before[i as int] },
                            ));
                            assert(models(cells@) =~= executed_those(parsed, names.take(k + 1)))
                                by {
                                assert forall|x: int| 0 <= x < parsed.len() implies (names.take(
                                    k + 1,
                                ).contains(parsed[x].id) <==> names.take(k as int).contains(
                                    parsed[x].id,
                                ) || x == i) by {
                                    lemma_take_one_more(names, k as int, parsed[x].id);
                                    if x != i {
                                        if x < i {
                                            assert(parsed[x].id != parsed[i as int].id);
                                        } else {
                                            assert(parsed[i as int].id != parsed[x].id);
                                        }
                                    }
                                }
                            }
                        },
                        None => {
                            assert(has_id(parsed, names[k as int]));
                            let ghost x = choose|x: int|
                                0 <= x < parsed.len() && parsed[x].id == names[k as int];
                            assert(before[x].id == names[k as int]);
                            assert(false);
                        },
                    }
                    k += 1;
                }
                assert(models(cells@) =~= all_executed(parsed)) by {
                    assert(order.deep_view().take(k as int) =~= order.deep_view());
                    assert forall|x: int| 0 <= x < parsed.len() implies order.deep_view().contains(
                        parsed[x].id,
                    ) by {
                        assert(has_id(parsed, parsed[x].id));
                    }
                }
                assert(distinct_ids(models(cells@))) by {
                    assert forall|a: int, b: int| 0 <= a < b < parsed.len() implies models(
                        cells@,
                    )[a].id != models(cells@)[b].id by {
                        assert(parsed[a].id != parsed[b].id);
                    }
                }
                self.cells = cells;
                proof {
                    crate::resolve::lemma_execution_order_excludes_cycle(parsed, order.deep_view());
                }
                Ok(order)
            },
        }
    }

    /// The cells as plain code: each with a comment line that names it.
    pub fn export_litpro(&self) -> (out: String)
        ensures
            out@ == exported(self@),
    {
        crate::render::export_text(&self.cells)
    }

    /// The cells as an HTML page.
    pub fn html_litpro(&self) -> (out: String)
        ensures
            out@ == documented(self@),
    {
        crate::render::html_text(&self.cells)
    }

    /// `s` as HTML text: each of the characters `&`, `<`, `>`, `"` and `'`
    /// gives way to its entity.
    pub fn escape_html(&self, s: &str) -> (out: String)
        ensures
            out@ == escaped(s@),
    {
        crate::render::escape_html(s)
    }
}

/// One entry more in a prefix: it holds what the shorter prefix holds, and
/// the entry that was added.
proof fn lemma_take_one_more(names: Seq<Seq<char>>, k: int, id: Seq<char>)
    requires
        0 <= k < names.len(),
    ensures
        names.take(k + 1).contains(id) <==> names.take(k).contains(id) || names[k] == id,
{
    let shorter = names.take(k);
    let longer = names.take(k + 1);
    if longer.contains(id) {
        let m = choose|m: int| 0 <= m < longer.len() && longer[m] == id;
        if m < k {
            assert(shorter[m] == id);
        }
    }
    if shorter.contains(id) {
        let m = choose|m: int| 0 <= m < shorter.len() && shorter[m] == id;
        assert(longer[m] == id);
    }
    if names[k] == id {
        assert(longer[k] == id);
    }
}

} // verus!
