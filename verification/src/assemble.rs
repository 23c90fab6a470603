//! The assembler: one program source and one dependency manifest from the
//! notebook's cells, with markers round the statements of the cell that was
//! run.

use crate::program::Cell;
use crate::store::{has_fragment, CellView};
use crate::text::{
    append, append_str, find_char, first_index, occurs_at, occurs_in, same_text, split, split_on,
    starts_with, subrange, to_chars, to_string, trim, trim_end, trim_end_of, trimmed,
};
use vstd::prelude::*;

verus! {

/// A line that begins like this declares the entry point.
pub open spec fn entry_point_prefix() -> Seq<char> {
    "fn main()"@
}

/// A line that begins like this produces output.
pub open spec fn output_prefix() -> Seq<char> {
    "print"@
}

/// A line that begins like this is an import.
pub open spec fn import_prefix() -> Seq<char> {
    "use"@
}

/// An import that begins like this names the standard library.
pub open spec fn builtin_import_prefix() -> Seq<char> {
    "use std"@
}

/// What the program prints before the statements of the cell that was run.
pub open spec fn start_tag() -> Seq<char> {
    "rustkernel-start"@
}

/// What the program prints after the statements of the cell that was run.
pub open spec fn end_tag() -> Seq<char> {
    "rustkernel-end"@
}

/// The statement that prints the start tag.
pub open spec fn start_statement() -> Seq<char> {
    "println!(\"rustkernel-start\");\n"@
}

/// The statement that prints the end tag.
pub open spec fn end_statement() -> Seq<char> {
    "println!(\"rustkernel-end\");\n"@
}

/// The first line of every assembled source.
pub open spec fn source_header() -> Seq<char> {
    "#![allow(dead_code)]\n"@
}

/// The line that opens the one entry point of the assembled source.
pub open spec fn entry_point_open() -> Seq<char> {
    "fn main() {\n"@
}

/// What closes the entry point of the assembled source.
pub open spec fn entry_point_close() -> Seq<char> {
    "}"@
}

/// The manifest up to its list of dependencies.
pub open spec fn manifest_header() -> Seq<char> {
    "\n[package]\nname = 'output'\nversion = '0.0.1'\nedition = '2021'\n[dependencies]\n\n"@
}

/// What follows a crate's name in the manifest: any version will do.
pub open spec fn any_version() -> Seq<char> {
    "=\"*\"\n"@
}

/// What becomes of one line of a cell.
#[derive(Clone, Copy, Debug, PartialEq, Eq, Structural)]
pub enum LineKind {
    /// Declares the entry point: dropped, and the cell loses its closing
    /// delimiter.
    EntryPoint,
    /// Produces output in a cell that was not run: dropped.
    Suppressed,
    /// An import: hoisted above the entry point.
    Import,
    /// Anything else: a statement of the entry point.
    Body,
}

/// The kind of a trimmed line, in a cell that was run (`active`) or not.
pub open spec fn line_kind(line: Seq<char>, active: bool) -> LineKind {
    if entry_point_prefix().is_prefix_of(line) {
        LineKind::EntryPoint
    } else if output_prefix().is_prefix_of(line) && !active {
        LineKind::Suppressed
    } else if import_prefix().is_prefix_of(line) {
        LineKind::Import
    } else {
        LineKind::Body
    }
}

/// The kind of a trimmed line, in a cell that was run (`active`) or not.
pub fn classify_line(line: &Vec<char>, active: bool) -> (kind: LineKind)
    ensures
        kind == line_kind(line@, active),
{
    if starts_with(line, &to_chars("fn main()")) {
        LineKind::EntryPoint
    } else if starts_with(line, &to_chars("print")) && !active {
        LineKind::Suppressed
    } else if starts_with(line, &to_chars("use")) {
        LineKind::Import
    } else {
        LineKind::Body
    }
}

/// `name` with a hyphen for every underscore.
pub open spec fn hyphenated(name: Seq<char>) -> Seq<char> {
    name.map_values(|c: char| if c == '_' { '-' } else { c })
}

/// The crate that an import line asks for: what stands between the line's
/// first space and the first colon after it, hyphenated. An import of the
/// standard library, or a line without that shape, asks for none.
pub open spec fn crate_of(line: Seq<char>) -> Option<Seq<char>> {
    if !import_prefix().is_prefix_of(line) || builtin_import_prefix().is_prefix_of(line) {
        None
    } else {
        let space = first_index(line, ' ');
        if space >= line.len() {
            None
        } else {
            let path = line.skip(space + 1);
            let colon = first_index(path, ':');
            if colon >= path.len() {
                None
            } else {
                Some(hyphenated(path.take(colon)))
            }
        }
    }
}

/// The crate that an import line asks for, if it asks for one.
pub fn crate_name(line: &Vec<char>) -> (name: Option<Vec<char>>)
    ensures
        match name {
            Some(n) => crate_of(line@) == Some(n@),
            None => crate_of(line@) is None,
        },
{
    if !starts_with(line, &to_chars("use")) || starts_with(line, &to_chars("use std")) {
        return None;
    }
    let space = find_char(line, 0, ' ');
    proof {
        assert(line@.skip(0) =~= line@);
    }
    if space >= line.len() {
        return None;
    }
    let colon = find_char(line, space + 1, ':');
    if colon >= line.len() {
        return None;
    }
    let mut name: Vec<char> = Vec::new();
    let mut i: usize = space + 1;
    let ghost raw = line@.skip(space + 1).take(colon - space - 1);
    proof {
        assert(raw =~= line@.subrange(space + 1, colon as int));
    }
    while i < colon
        invariant
            space + 1 <= i <= colon < line.len(),
            raw == line@.subrange(space + 1, colon as int),
            name@ == hyphenated(raw.take(i - space - 1)),
        decreases colon - i,
    {
        let c = line[i];
        proof {
            assert(hyphenated(raw.take(i - space - 1)).push(if c == '_' { '-' } else { c })
                =~= hyphenated(raw.take(i - space)));
        }
        if c == '_' {
            name.push('-');
        } else {
            name.push(c);
        }
        i += 1;
    }
    proof {
        assert(raw.take(colon - space - 1) =~= raw);
    }
    Some(name)
}

/// The trimmed lines of a cell's contents.
pub open spec fn lines_of(contents: Seq<char>) -> Seq<Seq<char>> {
    split_on(contents, '\n').map_values(|line: Seq<char>| trimmed(line))
}

/// The import lines among `lines`, in order.
pub open spec fn imports_in(lines: Seq<Seq<char>>, active: bool) -> Seq<Seq<char>>
    decreases lines.len(),
{
    if lines.len() == 0 {
        lines
    } else if line_kind(lines.last(), active) == LineKind::Import {
        imports_in(lines.drop_last(), active).push(lines.last())
    } else {
        imports_in(lines.drop_last(), active)
    }
}

/// The statements among `lines`, in order, each ended by a newline.
pub open spec fn body_in(lines: Seq<Seq<char>>, active: bool) -> Seq<char>
    decreases lines.len(),
{
    if lines.len() == 0 {
        Seq::empty()
    } else if line_kind(lines.last(), active) == LineKind::Body {
        body_in(lines.drop_last(), active) + lines.last() + seq!['\n']
    } else {
        body_in(lines.drop_last(), active)
    }
}

/// Whether one of `lines` declares the entry point.
pub open spec fn declares_entry_point(lines: Seq<Seq<char>>) -> bool {
    exists|i: int| 0 <= i < lines.len() && entry_point_prefix().is_prefix_of(#[trigger] lines[i])
}

/// `body` without its trailing whitespace and without the character before
/// it, which closes the entry point that the cell declared.
pub open spec fn without_closing(body: Seq<char>) -> Seq<char> {
    let kept = trim_end_of(body);
    if kept.len() > 0 {
        kept.drop_last()
    } else {
        kept
    }
}

/// The statements that a cell gives to the entry point. A cell that
/// declares the entry point itself gives what stands inside it.
pub open spec fn cell_body(contents: Seq<char>, active: bool) -> Seq<char> {
    let lines = lines_of(contents);
    if declares_entry_point(lines) {
        without_closing(body_in(lines, active))
    } else {
        body_in(lines, active)
    }
}

/// What a cell gives to the entry point: its statements, between the two
/// marker statements where it is the cell that was run.
pub open spec fn cell_region(cell: CellView, active: u32) -> Seq<char> {
    if cell.fragment == active {
        start_statement() + cell_body(cell.contents, true) + end_statement()
    } else {
        cell_body(cell.contents, false)
    }
}

/// What one cell gives to the program.
pub struct CellParts {
    /// The cell's import lines.
    pub imports: Vec<Vec<char>>,
    /// The cell's statements.
    pub body: Vec<char>,
}

/// Sorts the lines of one cell into imports and statements.
pub fn scan_cell(contents: &Vec<char>, active: bool) -> (parts: CellParts)
    ensures
        parts.imports.deep_view() == imports_in(lines_of(contents@), active),
        parts.body@ == cell_body(contents@, active),
{
    let raw = split(contents, '\n');
    let ghost lines = lines_of(contents@);
    let mut imports: Vec<Vec<char>> = Vec::new();
    let mut body: Vec<char> = Vec::new();
    let mut entry: bool = false;
    let mut i: usize = 0;
    proof {
        assert(lines.take(0) =~= Seq::<Seq<char>>::empty());
        assert(imports.deep_view() =~= Seq::<Seq<char>>::empty());
    }
    while i < raw.len()
        invariant
            i <= raw.len(),
            raw.deep_view() == split_on(contents@, '\n'),
            lines == lines_of(contents@),
            imports.deep_view() == imports_in(lines.take(i as int), active),
            body@ == body_in(lines.take(i as int), active),
            entry <==> declares_entry_point(lines.take(i as int)),
        decreases raw.len() - i,
    {
        let line = trim(&raw[i]);
        let ghost seen = lines.take(i as int);
        let ghost next = lines.take(i + 1);
        proof {
            assert(raw.deep_view()[i as int] == raw[i as int]@);
            assert(line@ == lines[i as int]);
            assert(next.drop_last() =~= seen);
            assert(next.last() == line@);
            if declares_entry_point(next) {
                let j = choose|j: int|
                    0 <= j < next.len() && entry_point_prefix().is_prefix_of(#[trigger] next[j]);
                if j < i {
                    assert(seen[j] == next[j]);
                }
            }
            if declares_entry_point(seen) {
                let j = choose|j: int|
                    0 <= j < seen.len() && entry_point_prefix().is_prefix_of(#[trigger] seen[j]);
                assert(seen[j] == next[j]);
            }
        }
        match classify_line(&line, active) {
            LineKind::EntryPoint => {
                entry = true;
            },
            LineKind::Suppressed => {},
            LineKind::Import => {
                let ghost before = imports.deep_view();
                imports.push(line);
                proof {
                    assert(imports.deep_view() =~~= before.push(line@));
                }
            },
            LineKind::Body => {
                append(&mut body, &line);
                body.push('\n');
                proof {
                    assert(body@ =~= body_in(seen, active) + line@ + seq!['\n']);
                }
            },
        }
        i += 1;
    }
    proof {
        assert(lines.take(raw.len() as int) =~= lines);
    }
    if entry {
        let kept = trim_end(&body);
        if kept.len() > 0 {
            body = subrange(&kept, 0, kept.len() - 1);
        } else {
            body = kept;
        }
    }
    CellParts { imports, body }
}

/// Every import line of every cell, in the order of `cells`.
pub open spec fn all_imports(cells: Seq<CellView>, active: u32) -> Seq<Seq<char>>
    decreases cells.len(),
{
    if cells.len() == 0 {
        Seq::empty()
    } else {
        all_imports(cells.drop_last(), active) + imports_in(
            lines_of(cells.last().contents),
            cells.last().fragment == active,
        )
    }
}

/// `items` without the repetitions: each item stays where it stood first.
pub open spec fn distinct(items: Seq<Seq<char>>) -> Seq<Seq<char>>
    decreases items.len(),
{
    if items.len() == 0 {
        items
    } else if distinct(items.drop_last()).contains(items.last()) {
        distinct(items.drop_last())
    } else {
        distinct(items.drop_last()).push(items.last())
    }
}

/// The import lines that stand above the entry point: each line once.
pub open spec fn hoisted_imports(cells: Seq<CellView>, active: u32) -> Seq<Seq<char>> {
    distinct(all_imports(cells, active))
}

/// The crates that `imports` ask for, in order, one for each line that asks
/// for one.
pub open spec fn crate_names(imports: Seq<Seq<char>>) -> Seq<Seq<char>>
    decreases imports.len(),
{
    if imports.len() == 0 {
        imports
    } else {
        match crate_of(imports.last()) {
            Some(name) => crate_names(imports.drop_last()).push(name),
            None => crate_names(imports.drop_last()),
        }
    }
}

/// The crates that the manifest lists: each crate once.
pub open spec fn dependencies(cells: Seq<CellView>, active: u32) -> Seq<Seq<char>> {
    distinct(crate_names(all_imports(cells, active)))
}

/// `lines`, each ended by a newline.
pub open spec fn lines_text(lines: Seq<Seq<char>>) -> Seq<char>
    decreases lines.len(),
{
    if lines.len() == 0 {
        Seq::empty()
    } else {
        lines_text(lines.drop_last()) + lines.last() + seq!['\n']
    }
}

/// One manifest entry for each of `names`, asking for any version.
pub open spec fn entries_text(names: Seq<Seq<char>>) -> Seq<char>
    decreases names.len(),
{
    if names.len() == 0 {
        Seq::empty()
    } else {
        entries_text(names.drop_last()) + names.last() + any_version()
    }
}

/// The statements of the entry point: what each cell gives, in the order of
/// `cells`.
pub open spec fn inner_scope(cells: Seq<CellView>, active: u32) -> Seq<char>
    decreases cells.len(),
{
    if cells.len() == 0 {
        Seq::empty()
    } else {
        inner_scope(cells.drop_last(), active) + cell_region(cells.last(), active)
    }
}

/// The program source for `cells`, which are in order of assembly, where
/// `active` is the identity of the cell that was run.
pub open spec fn source_of(cells: Seq<CellView>, active: u32) -> Seq<char> {
    source_header() + lines_text(hoisted_imports(cells, active)) + entry_point_open() + inner_scope(
        cells,
        active,
    ) + entry_point_close()
}

/// The dependency manifest for `cells`.
pub open spec fn manifest_of(cells: Seq<CellView>, active: u32) -> Seq<char> {
    manifest_header() + entries_text(dependencies(cells, active))
}

/// `distinct` holds every item of `items`, nothing else, and nothing twice.
pub proof fn lemma_distinct(items: Seq<Seq<char>>)
    ensures
        distinct(items).no_duplicates(),
        forall|x: Seq<char>| #[trigger] distinct(items).contains(x) <==> items.contains(x),
    decreases items.len(),
{
    if items.len() > 0 {
        let front = items.drop_last();
        let last = items.last();
        lemma_distinct(front);
        let d = distinct(front);
        let out = distinct(items);
        assert forall|x: Seq<char>| #[trigger] out.contains(x) <==> items.contains(x) by {
            if out.contains(x) {
                let k = choose|k: int| 0 <= k < out.len() && out[k] == x;
                if k < d.len() {
                    assert(d[k] == x);
                    assert(d.contains(x));
                    assert(front.contains(x));
                    let m = choose|m: int| 0 <= m < front.len() && front[m] == x;
                    assert(items[m] == x);
                } else {
                    assert(items[items.len() - 1] == x);
                }
            }
            if items.contains(x) {
                let m = choose|m: int| 0 <= m < items.len() && items[m] == x;
                if m < front.len() {
                    assert(front[m] == x);
                    assert(front.contains(x));
                    assert(d.contains(x));
                    let k = choose|k: int| 0 <= k < d.len() && d[k] == x;
                    assert(out[k] == x);
                } else if !d.contains(x) {
                    assert(out[d.len() as int] == x);
                }
            }
        }
        if !d.contains(last) {
            assert forall|a: int, b: int| 0 <= a < out.len() && 0 <= b < out.len() && a != b implies out[a]
                != out[b] by {
                if a < d.len() && b < d.len() {
                    assert(out[a] == d[a] && out[b] == d[b]);
                } else if a < d.len() {
                    assert(d.contains(d[a]));
                } else {
                    assert(d.contains(d[b]));
                }
            }
        }
    }
}

/// An import line of known shape is an import in every cell, run or not.
pub proof fn lemma_import_kind(line: Seq<char>, active: bool)
    requires
        import_prefix().is_prefix_of(line),
    ensures
        line_kind(line, active) == LineKind::Import,
{
    reveal_strlit("use");
    reveal_strlit("print");
    reveal_strlit("fn main()");
    assert(line[0] == import_prefix()[0]);
    if entry_point_prefix().is_prefix_of(line) {
        assert(line[0] == entry_point_prefix()[0]);
    }
    if output_prefix().is_prefix_of(line) {
        assert(line[0] == output_prefix()[0]);
    }
}

/// `imports_in` holds every import line of `lines`.
pub proof fn lemma_imports_in_holds(lines: Seq<Seq<char>>, active: bool, line: Seq<char>)
    requires
        lines.contains(line),
        line_kind(line, active) == LineKind::Import,
    ensures
        imports_in(lines, active).contains(line),
    decreases lines.len(),
{
    let k = choose|k: int| 0 <= k < lines.len() && lines[k] == line;
    let front = lines.drop_last();
    let out = imports_in(lines, active);
    if k == lines.len() - 1 {
        assert(out[out.len() - 1] == line);
    } else {
        assert(front[k] == line);
        lemma_imports_in_holds(front, active, line);
        let m = choose|m: int|
            0 <= m < imports_in(front, active).len() && imports_in(front, active)[m] == line;
        assert(out[m] == line);
    }
}

/// `all_imports` holds every import line of every cell.
pub proof fn lemma_all_imports_holds(cells: Seq<CellView>, active: u32, i: int, line: Seq<char>)
    requires
        0 <= i < cells.len(),
        lines_of(cells[i].contents).contains(line),
        import_prefix().is_prefix_of(line),
    ensures
        all_imports(cells, active).contains(line),
    decreases cells.len(),
{
    let front = cells.drop_last();
    let last = imports_in(lines_of(cells.last().contents), cells.last().fragment == active);
    let out = all_imports(cells, active);
    if i == cells.len() - 1 {
        lemma_import_kind(line, cells.last().fragment == active);
        lemma_imports_in_holds(lines_of(cells.last().contents), cells.last().fragment == active, line);
        let m = choose|m: int| 0 <= m < last.len() && last[m] == line;
        assert(out[all_imports(front, active).len() + m] == line);
    } else {
        assert(front[i] == cells[i]);
        lemma_all_imports_holds(front, active, i, line);
        let m = choose|m: int|
            0 <= m < all_imports(front, active).len() && all_imports(front, active)[m] == line;
        assert(out[m] == line);
    }
}

/// `crate_names` holds the crate of every line that asks for one.
pub proof fn lemma_crate_names_holds(imports: Seq<Seq<char>>, line: Seq<char>)
    requires
        imports.contains(line),
        crate_of(line) is Some,
    ensures
        crate_names(imports).contains(crate_of(line)->0),
    decreases imports.len(),
{
    let k = choose|k: int| 0 <= k < imports.len() && imports[k] == line;
    let front = imports.drop_last();
    let out = crate_names(imports);
    if k == imports.len() - 1 {
        assert(out[out.len() - 1] == crate_of(line)->0);
    } else {
        assert(front[k] == line);
        lemma_crate_names_holds(front, line);
        let m = choose|m: int|
            0 <= m < crate_names(front).len() && crate_names(front)[m] == crate_of(line)->0;
        assert(out[m] == crate_of(line)->0);
    }
}

/// An import line that asks for a crate gives the manifest exactly one
/// entry for that crate, and stands above the entry point exactly once,
/// in however many cells and however often it is written.
pub proof fn lemma_one_entry_per_crate(cells: Seq<CellView>, active: u32, i: int, line: Seq<char>)
    requires
        0 <= i < cells.len(),
        lines_of(cells[i].contents).contains(line),
        crate_of(line) is Some,
    ensures
        dependencies(cells, active).no_duplicates(),
        dependencies(cells, active).contains(crate_of(line)->0),
        hoisted_imports(cells, active).no_duplicates(),
        hoisted_imports(cells, active).contains(line),
        exists|k: int|
            0 <= k < dependencies(cells, active).len() && #[trigger] dependencies(cells, active)[k]
                == crate_of(line)->0 && forall|m: int|
                0 <= m < dependencies(cells, active).len() && dependencies(cells, active)[m]
                    == crate_of(line)->0 ==> m == k,
{
    lemma_all_imports_holds(cells, active, i, line);
    lemma_crate_names_holds(all_imports(cells, active), line);
    lemma_distinct(all_imports(cells, active));
    lemma_distinct(crate_names(all_imports(cells, active)));
    let deps = dependencies(cells, active);
    let name = crate_of(line)->0;
    assert(deps.contains(name));
    let k = choose|k: int| 0 <= k < deps.len() && deps[k] == name;
    assert forall|m: int| 0 <= m < deps.len() && deps[m] == name implies m == k by {
        if m != k {
            assert(deps[m] != deps[k]);
        }
    }
}

/// Where one of `cells` is the cell that was run, the entry point of the
/// source holds that cell's statements between the two marker statements.
pub proof fn lemma_source_holds_markers(cells: Seq<CellView>, active: u32, i: int)
    requires
        0 <= i < cells.len(),
        cells[i].fragment == active,
    ensures
        occurs_in(
            inner_scope(cells, active),
            start_statement() + cell_body(cells[i].contents, true) + end_statement(),
        ),
        occurs_in(
            source_of(cells, active),
            start_statement() + cell_body(cells[i].contents, true) + end_statement(),
        ),
    decreases cells.len(),
{
    let region = start_statement() + cell_body(cells[i].contents, true) + end_statement();
    let front = cells.drop_last();
    let inner = inner_scope(cells, active);
    let at = if i == cells.len() - 1 {
        inner_scope(front, active).len() as int
    } else {
        assert(front[i] == cells[i]);
        lemma_source_holds_markers(front, active, i);
        choose|p: int| occurs_at(inner_scope(front, active), region, p)
    };
    assert(occurs_at(inner, region, at)) by {
        if i == cells.len() - 1 {
            assert(inner.subrange(at, at + region.len()) =~= region);
        } else {
            assert(inner.subrange(at, at + region.len()) =~= inner_scope(front, active).subrange(
                at,
                at + region.len(),
            ));
        }
    }
    let above = source_header() + lines_text(hoisted_imports(cells, active)) + entry_point_open();
    let source = source_of(cells, active);
    assert(occurs_at(source, region, above.len() + at)) by {
        assert(source.subrange(above.len() + at, above.len() + at + region.len())
            =~= inner.subrange(at, at + region.len()));
    }
}

/// What the assembler makes of the cells.
#[derive(Debug)]
pub struct Assembled {
    /// The program source.
    pub source: String,
    /// The dependency manifest.
    pub manifest: String,
    /// Whether the source holds the two marker statements, which it does
    /// where one of the cells is the cell that was run.
    pub marked: bool,
}

fn holds(list: &Vec<Vec<char>>, item: &Vec<char>) -> (found: bool)
    ensures
        found == list.deep_view().contains(item@),
{
    let mut i: usize = 0;
    while i < list.len()
        invariant
            i <= list.len(),
            forall|j: int| 0 <= j < i ==> list.deep_view()[j] != item@,
        decreases list.len() - i,
    {
        proof {
            assert(list.deep_view()[i as int] == list[i as int]@);
        }
        if same_text(&list[i], item) {
            return true;
        }
        i += 1;
    }
    false
}

fn push_distinct(list: &mut Vec<Vec<char>>, item: Vec<char>)
    ensures
        final(list).deep_view() == if old(list).deep_view().contains(item@) {
            old(list).deep_view()
        } else {
            old(list).deep_view().push(item@)
        },
{
    if !holds(list, &item) {
        let ghost before = list.deep_view();
        list.push(item);
        proof {
            assert(list.deep_view() =~~= before.push(item@));
        }
    }
}

fn render_lines(lines: &Vec<Vec<char>>, out: &mut Vec<char>)
    ensures
        final(out)@ == old(out)@ + lines_text(lines.deep_view()),
{
    let mut i: usize = 0;
    proof {
        assert(lines.deep_view().take(0) =~= Seq::<Seq<char>>::empty());
        assert(out@ =~= old(out)@ + lines_text(lines.deep_view().take(0)));
    }
    while i < lines.len()
        invariant
            i <= lines.len(),
            out@ == old(out)@ + lines_text(lines.deep_view().take(i as int)),
        decreases lines.len() - i,
    {
        let ghost before = out@;
        append(out, &lines[i]);
        out.push('\n');
        proof {
            let seen = lines.deep_view().take(i as int);
            let next = lines.deep_view().take(i + 1);
            assert(next.drop_last() =~= seen);
            assert(next.last() == lines[i as int]@);
            assert(out@ =~= old(out)@ + lines_text(next));
        }
        i += 1;
    }
    proof {
        assert(lines.deep_view().take(lines.len() as int) =~= lines.deep_view());
    }
}

fn render_entries(names: &Vec<Vec<char>>, out: &mut Vec<char>)
    ensures
        final(out)@ == old(out)@ + entries_text(names.deep_view()),
{
    let mut i: usize = 0;
    proof {
        assert(names.deep_view().take(0) =~= Seq::<Seq<char>>::empty());
        assert(out@ =~= old(out)@ + entries_text(names.deep_view().take(0)));
    }
    while i < names.len()
        invariant
            i <= names.len(),
            out@ == old(out)@ + entries_text(names.deep_view().take(i as int)),
        decreases names.len() - i,
    {
        append(out, &names[i]);
        append_str(out, "=\"*\"\n");
        proof {
            let seen = names.deep_view().take(i as int);
            let next = names.deep_view().take(i + 1);
            assert(next.drop_last() =~= seen);
            assert(next.last() == names[i as int]@);
            assert(out@ =~= old(out)@ + entries_text(next));
        }
        i += 1;
    }
    proof {
        assert(names.deep_view().take(names.len() as int) =~= names.deep_view());
    }
}

/// Takes the import lines of one cell into the lists of hoisted lines and
/// of crates, each of which holds nothing twice.
fn merge_imports(imports: &mut Vec<Vec<char>>, crates: &mut Vec<Vec<char>>, found: &Vec<Vec<char>>, Ghost(seen): Ghost<Seq<Seq<char>>>)
    requires
        old(imports).deep_view() == distinct(seen),
        old(crates).deep_view() == distinct(crate_names(seen)),
    ensures
        final(imports).deep_view() == distinct(seen + found.deep_view()),
        final(crates).deep_view() == distinct(crate_names(seen + found.deep_view())),
{
    let mut k: usize = 0;
    let ghost lines = found.deep_view();
    proof {
        assert(seen + lines.take(0) =~= seen);
    }
    while k < found.len()
        invariant
            k <= found.len(),
            lines == found.deep_view(),
            imports.deep_view() == distinct(seen + lines.take(k as int)),
            crates.deep_view() == distinct(crate_names(seen + lines.take(k as int))),
        decreases found.len() - k,
    {
        let line = subrange(&found[k], 0, found[k].len());
        proof {
            assert(line@ =~= found[k as int]@);
            assert(line@ == lines[k as int]);
            let so_far = seen + lines.take(k as int);
            let next = seen + lines.take(k + 1);
            assert(next.drop_last() =~= so_far);
            assert(next.last() == line@);
        }
        match crate_name(&line) {
            Some(name) => {
                proof {
                    let names = crate_names(seen + lines.take(k as int));
                    assert(names.push(name@).drop_last() =~= names);
                }
                push_distinct(crates, name);
            },
            None => {},
        }
        push_distinct(imports, line);
        k += 1;
    }
    proof {
        assert(lines.take(found.len() as int) =~= lines);
    }
}

/// Builds the program source and the dependency manifest from `cells`,
/// which are in order of assembly; `active` is the identity of the cell
/// that was run.
pub fn assemble(cells: &Vec<Cell>, active: u32) -> (out: Assembled)
    ensures
        out.source@ == source_of(cells.deep_view(), active),
        out.manifest@ == manifest_of(cells.deep_view(), active),
        out.marked == has_fragment(cells.deep_view(), active),
{
    let ghost all = cells.deep_view();
    let mut imports: Vec<Vec<char>> = Vec::new();
    let mut crates: Vec<Vec<char>> = Vec::new();
    let mut inner: Vec<char> = Vec::new();
    let mut marked: bool = false;
    let mut i: usize = 0;
    proof {
        assert(all.take(0) =~= Seq::<CellView>::empty());
        assert(imports.deep_view() =~= Seq::<Seq<char>>::empty());
        assert(crates.deep_view() =~= Seq::<Seq<char>>::empty());
    }
    while i < cells.len()
        invariant
            i <= cells.len(),
            all == cells.deep_view(),
            imports.deep_view() == hoisted_imports(all.take(i as int), active),
            crates.deep_view() == dependencies(all.take(i as int), active),
            inner@ == inner_scope(all.take(i as int), active),
            marked == has_fragment(all.take(i as int), active),
        decreases cells.len() - i,
    {
        let cell = &cells[i];
        let is_active = cell.fragment == active;
        let contents = to_chars(cell.contents.as_str());
        let parts = scan_cell(&contents, is_active);
        let ghost seen = all.take(i as int);
        let ghost next = all.take(i + 1);
        proof {
            assert(all[i as int] == cell@);
            assert(next.drop_last() =~= seen);
            assert(next.last() == cell@);
            if has_fragment(next, active) {
                let j = choose|j: int| 0 <= j < next.len() && next[j].fragment == active;
                if j < i {
                    assert(seen[j] == next[j]);
                }
            }
            if has_fragment(seen, active) {
                let j = choose|j: int| 0 <= j < seen.len() && seen[j].fragment == active;
                assert(next[j] == seen[j]);
            }
            if is_active {
                assert(next[i as int].fragment == active);
            }
        }
        merge_imports(&mut imports, &mut crates, &parts.imports, Ghost(all_imports(seen, active)));
        if is_active {
            marked = true;
            append_str(&mut inner, "println!(\"rustkernel-start\");\n");
            append(&mut inner, &parts.body);
            append_str(&mut inner, "println!(\"rustkernel-end\");\n");
        } else {
            append(&mut inner, &parts.body);
        }
        proof {
            assert(inner@ =~= inner_scope(seen, active) + cell_region(cell@, active));
        }
        i += 1;
    }
    proof {
        assert(all.take(cells.len() as int) =~= all);
    }
    let mut source: Vec<char> = to_chars("#![allow(dead_code)]\n");
    render_lines(&imports, &mut source);
    append_str(&mut source, "fn main() {\n");
    append(&mut source, &inner);
    append_str(&mut source, "}");
    let mut manifest: Vec<char> = to_chars(
        "\n[package]\nname = 'output'\nversion = '0.0.1'\nedition = '2021'\n[dependencies]\n\n",
    );
    render_entries(&crates, &mut manifest);
    Assembled { source: to_string(&source), manifest: to_string(&manifest), marked }
}

} // verus!
