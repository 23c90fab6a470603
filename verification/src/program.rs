//! The notebook session: the file it belongs to and its cells, kept between
//! requests.

use crate::assemble::{assemble, manifest_of, source_of};
use crate::handlers::CodeRequest;
use crate::output::{classify, outcome_of, response_text};
use crate::store::{
    ascending, at_position, distinct_fragments, distinct_positions, has_fragment,
    lemma_insert_ordered_at, lemma_order_ignores_creation, lemma_ordered_ascending,
    lemma_ordered_same_cells, lemma_ordered_stable, ordered, same_cells, slot_of, updated, upserted,
    CellView,
};
use crate::text::{append_str, to_chars, to_string};
use vstd::prelude::*;

verus! {

/// One notebook cell.
///
/// - `fragment`: the cell's identity, which stays when cells change places
/// - `index`: the cell's current vertical position
/// - `contents`: the cell's source text
#[derive(Debug)]
pub struct Cell {
    pub fragment: u32,
    pub index: u32,
    pub contents: String,
}

impl View for Cell {
    type V = CellView;

    open spec fn view(&self) -> CellView {
        CellView { fragment: self.fragment, index: self.index, contents: self.contents@ }
    }
}

impl DeepView for Cell {
    type V = CellView;

    open spec fn deep_view(&self) -> CellView {
        self@
    }
}

impl Clone for Cell {
    fn clone(&self) -> (out: Cell)
        ensures
            out@ == self@,
    {
        Cell { fragment: self.fragment, index: self.index, contents: self.contents.clone() }
    }
}

/// The session as plain values; `cells` is in order of creation.
pub struct ProgramView {
    pub filename: Seq<char>,
    pub workspace: Seq<char>,
    pub cells: Seq<CellView>,
}

/// The state that lives as long as the service runs.
///
/// - `filename`: the file of the last request, to start afresh when it changes
/// - `workspace`: the directory in which the program is built
/// - `cells`: the notebook's cells in order of creation, one per identity
#[derive(Debug)]
pub struct Program {
    filename: String,
    workspace: String,
    cells: Vec<Cell>,
}

impl View for Program {
    type V = ProgramView;

    closed spec fn view(&self) -> ProgramView {
        ProgramView {
            filename: self.filename@,
            workspace: self.workspace@,
            cells: self.cells.deep_view(),
        }
    }
}

/// The program to build for a request: the two files to write, with the
/// places to write them to.
#[derive(Debug)]
pub struct Artifact {
    /// The identity of the cell that was run.
    pub fragment: u32,
    /// Whether the source holds the two marker statements.
    pub marked: bool,
    /// The directory of the source file.
    pub source_dir: String,
    /// The path of the source file.
    pub source_file: String,
    /// The program source.
    pub source: String,
    /// The path of the manifest.
    pub manifest_file: String,
    /// The dependency manifest.
    pub manifest: String,
}

/// An artifact as plain values.
pub struct ArtifactView {
    pub fragment: u32,
    pub marked: bool,
    pub source_dir: Seq<char>,
    pub source_file: Seq<char>,
    pub source: Seq<char>,
    pub manifest_file: Seq<char>,
    pub manifest: Seq<char>,
}

impl View for Artifact {
    type V = ArtifactView;

    open spec fn view(&self) -> ArtifactView {
        ArtifactView {
            fragment: self.fragment,
            marked: self.marked,
            source_dir: self.source_dir@,
            source_file: self.source_file@,
            source: self.source@,
            manifest_file: self.manifest_file@,
            manifest: self.manifest@,
        }
    }
}

/// The program to build from the session `program` where `fragment` is the
/// identity of the cell that was run: source and manifest are assembled
/// from the cells in ascending order of position, and go to `src/main.rs`
/// and `Cargo.toml` below the workspace.
pub open spec fn artifact_of(program: ProgramView, fragment: u32) -> ArtifactView {
    ArtifactView {
        fragment,
        marked: has_fragment(program.cells, fragment),
        source_dir: program.workspace + "/src"@,
        source_file: program.workspace + "/src"@ + "/main.rs"@,
        source: source_of(ordered(program.cells), fragment),
        manifest_file: program.workspace + "/Cargo.toml"@,
        manifest: manifest_of(ordered(program.cells), fragment),
    }
}

/// What is built depends on the cells' positions alone: two sessions with
/// one workspace that hold the same cells give the same program, in
/// whatever order the cells were created, provided that no two cells share
/// a position.
pub proof fn lemma_artifact_ignores_creation(a: ProgramView, b: ProgramView, fragment: u32)
    requires
        a.workspace == b.workspace,
        distinct_fragments(a.cells),
        distinct_fragments(b.cells),
        same_cells(a.cells, b.cells),
        distinct_positions(a.cells),
    ensures
        artifact_of(a, fragment) == artifact_of(b, fragment),
{
    lemma_order_ignores_creation(a.cells, b.cells);
    if has_fragment(a.cells, fragment) {
        let i = choose|i: int| 0 <= i < a.cells.len() && a.cells[i].fragment == fragment;
        assert(a.cells.contains(a.cells[i]));
        let j = choose|j: int| 0 <= j < b.cells.len() && b.cells[j] == a.cells[i];
        assert(b.cells[j].fragment == fragment);
    }
    if has_fragment(b.cells, fragment) {
        let i = choose|i: int| 0 <= i < b.cells.len() && b.cells[i].fragment == fragment;
        assert(b.cells.contains(b.cells[i]));
        let j = choose|j: int| 0 <= j < a.cells.len() && a.cells[j] == b.cells[i];
        assert(a.cells[j].fragment == fragment);
    }
}

impl Program {
    #[verifier::type_invariant]
    spec fn one_cell_per_fragment(&self) -> bool {
        distinct_fragments(self.cells.deep_view())
    }

    /// An empty session: no file, no workspace, no cells.
    pub fn new() -> (program: Program)
        ensures
            program@.filename == Seq::<char>::empty(),
            program@.workspace == Seq::<char>::empty(),
            program@.cells == Seq::<CellView>::empty(),
    {
        let program = Program { filename: String::new(), workspace: String::new(), cells: Vec::new() };
        assert(program.cells.deep_view() =~= Seq::<CellView>::empty());
        program
    }

    /// The file of the last request.
    pub fn filename(&self) -> (name: &String)
        ensures
            name@ == self@.filename,
    {
        &self.filename
    }

    /// The directory in which the program is built.
    pub fn workspace(&self) -> (dir: &String)
        ensures
            dir@ == self@.workspace,
    {
        &self.workspace
    }

    /// The cells in order of creation.
    pub fn cells(&self) -> (cells: &Vec<Cell>)
        ensures
            cells.deep_view() == self@.cells,
            distinct_fragments(self@.cells),
    {
        proof {
            use_type_invariant(self);
        }
        &self.cells
    }

    fn find_slot(&self, fragment: u32) -> (slot: Option<usize>)
        ensures
            distinct_fragments(self@.cells),
            match slot {
                Some(i) => i < self@.cells.len() && self@.cells[i as int].fragment == fragment
                    && slot_of(self@.cells, fragment) == i,
                None => !has_fragment(self@.cells, fragment),
            },
    {
        proof {
            use_type_invariant(self);
        }
        let mut i: usize = 0;
        while i < self.cells.len()
            invariant
                i <= self.cells.len(),
                forall|j: int| 0 <= j < i ==> self.cells.deep_view()[j].fragment != fragment,
                distinct_fragments(self.cells.deep_view()),
            decreases self.cells.len() - i,
        {
            if self.cells[i].fragment == fragment {
                proof {
                    let cells = self.cells.deep_view();
                    assert(cells[i as int].fragment == fragment);
                    let k = slot_of(cells, fragment);
                    assert(0 <= k < cells.len() && cells[k].fragment == fragment);
                }
                return Some(i);
            }
            i += 1;
        }
        None
    }

    /// The cell with the identity `fragment`, if the session has one.
    pub fn get(&self, fragment: u32) -> (cell: Option<&Cell>)
        ensures
            cell is Some <==> has_fragment(self@.cells, fragment),
            cell matches Some(c) ==> c@ == self@.cells[slot_of(self@.cells, fragment)],
    {
        match self.find_slot(fragment) {
            Some(i) => Some(&self.cells[i]),
            None => None,
        }
    }

    /// Creates the cell, or replaces position and contents of the cell that
    /// has its identity already.
    pub fn upsert(&mut self, fragment: u32, index: u32, contents: String)
        ensures
            final(self)@.cells == upserted(
                old(self)@.cells,
                CellView { fragment, index, contents: contents@ },
            ),
            final(self)@.filename == old(self)@.filename,
            final(self)@.workspace == old(self)@.workspace,
            distinct_fragments(final(self)@.cells),
    {
        let slot = self.find_slot(fragment);
        let ghost before = self.cells.deep_view();
        let cell = Cell { fragment, index, contents };
        let mut cells: Vec<Cell> = Vec::new();
        proof {
            assert(cells.deep_view() =~= Seq::<CellView>::empty());
        }
        core::mem::swap(&mut self.cells, &mut cells);
        match slot {
            Some(i) => {
                cells.set(i, cell);
                proof {
                    assert(cells.deep_view() =~= before.update(i as int, cell@));
                }
            },
            None => {
                cells.push(cell);
                proof {
                    assert(cells.deep_view() =~= before.push(cell@));
                }
            },
        }
        self.cells = cells;
    }

    /// Creates the cell that the request asks for. Where a cell has its
    /// identity already, the request's cell takes its place.
    pub fn create_cell(&mut self, cr: &CodeRequest)
        ensures
            final(self)@.cells == upserted(old(self)@.cells, cr@.cell()),
            final(self)@.filename == old(self)@.filename,
            final(self)@.workspace == old(self)@.workspace,
            distinct_fragments(final(self)@.cells),
    {
        self.upsert(cr.fragment, cr.index, cr.contents.clone());
    }

    /// Gives the cell with the request's identity the request's position
    /// and contents. A session without such a cell stays as it is.
    pub fn update_cell(&mut self, cr: &CodeRequest)
        ensures
            final(self)@.cells == updated(old(self)@.cells, cr@.cell()),
            final(self)@.filename == old(self)@.filename,
            final(self)@.workspace == old(self)@.workspace,
            distinct_fragments(final(self)@.cells),
    {
        if self.find_slot(cr.fragment).is_some() {
            self.upsert(cr.fragment, cr.index, cr.contents.clone());
        }
    }

    /// Takes note of the file and workspace that a request reports. Where
    /// either differs from what the session holds, every cell is dropped;
    /// the session holds the reported values afterwards.
    pub fn observe(&mut self, filename: &str, workspace: &str) -> (changed: bool)
        ensures
            changed == (old(self)@.filename != filename@ || old(self)@.workspace != workspace@),
            final(self)@.filename == filename@,
            final(self)@.workspace == workspace@,
            final(self)@.cells == if changed {
                Seq::<CellView>::empty()
            } else {
                old(self)@.cells
            },
            changed ==> ordered(final(self)@.cells) == Seq::<CellView>::empty(),
            distinct_fragments(final(self)@.cells),
    {
        proof {
            use_type_invariant(&*self);
        }
        let filename = filename.to_owned();
        let workspace = workspace.to_owned();
        let changed = self.filename != filename || self.workspace != workspace;
        if changed {
            let cells: Vec<Cell> = Vec::new();
            proof {
                assert(cells.deep_view() =~= Seq::<CellView>::empty());
            }
            self.cells = cells;
        }
        self.filename = filename;
        self.workspace = workspace;
        changed
    }

    /// The cells in ascending order of position; cells that share a position
    /// stay in order of creation.
    pub fn snapshot(&self) -> (out: Vec<Cell>)
        ensures
            out.deep_view() == ordered(self@.cells),
            out.len() == self@.cells.len(),
            same_cells(out.deep_view(), self@.cells),
            ascending(out.deep_view()),
            forall|index: u32| #[trigger]
                at_position(out.deep_view(), index) == at_position(self@.cells, index),
    {
        proof {
            lemma_ordered_same_cells(self@.cells);
            lemma_ordered_ascending(self@.cells);
            assert forall|index: u32| #[trigger]
                at_position(ordered(self@.cells), index) == at_position(self@.cells, index) by {
                lemma_ordered_stable(self@.cells, index);
            }
        }
        let mut out: Vec<Cell> = Vec::new();
        let mut i: usize = 0;
        proof {
            assert(self.cells.deep_view().take(0) =~= Seq::<CellView>::empty());
            assert(out.deep_view() =~= Seq::<CellView>::empty());
        }
        while i < self.cells.len()
            invariant
                i <= self.cells.len(),
                out.deep_view() == ordered(self.cells.deep_view().take(i as int)),
            decreases self.cells.len() - i,
        {
            let cell = self.cells[i].clone();
            let mut p: usize = out.len();
            while p > 0 && out[p - 1].index > cell.index
                invariant
                    p <= out.len(),
                    forall|j: int| p <= j < out.len() ==> out.deep_view()[j].index > cell.index,
                decreases p,
            {
                p -= 1;
            }
            let ghost before = out.deep_view();
            proof {
                lemma_insert_ordered_at(before, cell@, p as int);
                assert(self.cells.deep_view().take(i + 1).drop_last() =~= self.cells.deep_view().take(
                    i as int,
                ));
            }
            out.insert(p, cell);
            proof {
                assert(out.deep_view() =~= before.insert(p as int, cell@));
            }
            i += 1;
        }
        proof {
            assert(self.cells.deep_view().take(self.cells.len() as int) =~= self.cells.deep_view());
        }
        out
    }

    /// Builds the program for the cell with the identity `fragment`: every
    /// cell of the session in ascending order of position, with the marker
    /// statements round the statements of that cell.
    pub fn write_to_file(&self, fragment: u32) -> (artifact: Artifact)
        ensures
            artifact@ == artifact_of(self@, fragment),
    {
        let cells = self.snapshot();
        let built = assemble(&cells, fragment);
        proof {
            lemma_ordered_same_cells(self@.cells);
            let sorted = ordered(self@.cells);
            if has_fragment(sorted, fragment) {
                let i = choose|i: int| 0 <= i < sorted.len() && sorted[i].fragment == fragment;
                assert(sorted.contains(sorted[i]));
                let j = choose|j: int| 0 <= j < self@.cells.len() && self@.cells[j] == sorted[i];
                assert(self@.cells[j].fragment == fragment);
            }
            if has_fragment(self@.cells, fragment) {
                let i = choose|i: int|
                    0 <= i < self@.cells.len() && self@.cells[i].fragment == fragment;
                assert(self@.cells.contains(self@.cells[i]));
                let j = choose|j: int| 0 <= j < sorted.len() && sorted[j] == self@.cells[i];
                assert(sorted[j].fragment == fragment);
            }
        }
        let mut dir = to_chars(self.workspace.as_str());
        let mut manifest_file = to_chars(self.workspace.as_str());
        append_str(&mut manifest_file, "/Cargo.toml");
        append_str(&mut dir, "/src");
        let source_dir = to_string(&dir);
        append_str(&mut dir, "/main.rs");
        Artifact {
            fragment,
            marked: built.marked,
            source_dir,
            source_file: to_string(&dir),
            source: built.source,
            manifest_file: to_string(&manifest_file),
            manifest: built.manifest,
        }
    }

    /// The reply to the editor for what the toolchain wrote when it built
    /// and ran the program for the cell with the identity `fragment`.
    pub fn run(&self, fragment: u32, stdout: &str, stderr: &str) -> (response: String)
        ensures
            response@ == response_text(
                outcome_of(stdout@, stderr@, has_fragment(self@.cells, fragment)),
            ),
    {
        let marked = self.find_slot(fragment).is_some();
        classify(stdout, stderr, marked).response()
    }
}

} // verus!
