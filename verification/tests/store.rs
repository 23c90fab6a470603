use rustkernel::handlers::CodeRequest;
use rustkernel::{Cell, Program};

fn request(index: u32, fragment: u32, contents: &str) -> CodeRequest {
    CodeRequest {
        index,
        fragment,
        filename: String::from("notes.md"),
        workspace: String::from("/tmp/notes"),
        contents: String::from(contents),
    }
}

fn summary(cells: &[Cell]) -> Vec<(u32, u32, String)> {
    cells.iter().map(|c| (c.fragment, c.index, c.contents.clone())).collect()
}

fn cell(fragment: u32, index: u32, contents: &str) -> (u32, u32, String) {
    (fragment, index, String::from(contents))
}

#[test]
fn new_program_is_empty() {
    let program = Program::new();
    assert_eq!(program.filename(), "");
    assert_eq!(program.workspace(), "");
    assert!(program.cells().is_empty());
    assert!(program.snapshot().is_empty());
    assert!(program.get(0).is_none());
}

#[test]
fn create_then_update_keeps_one_cell() {
    let mut program = Program::new();
    program.create_cell(&request(0, 7, "let a = 1;"));
    program.update_cell(&request(3, 7, "let a = 2;"));
    program.update_cell(&request(1, 7, "let a = 3;"));
    assert_eq!(summary(program.cells()), vec![cell(7, 1, "let a = 3;")]);
    let found = program.get(7).unwrap();
    assert_eq!(found.fragment, 7);
    assert_eq!(found.index, 1);
    assert_eq!(found.contents, "let a = 3;");
}

#[test]
fn upsert_creates_then_replaces() {
    let mut program = Program::new();
    program.upsert(4, 0, String::from("a"));
    program.upsert(9, 1, String::from("b"));
    program.upsert(4, 2, String::from("c"));
    assert_eq!(summary(program.cells()), vec![cell(4, 2, "c"), cell(9, 1, "b")]);
}

#[test]
fn upsert_twice_is_upsert_once() {
    let mut once = Program::new();
    once.upsert(4, 2, String::from("c"));
    let mut twice = Program::new();
    twice.upsert(4, 2, String::from("c"));
    twice.upsert(4, 2, String::from("c"));
    assert_eq!(summary(once.cells()), summary(twice.cells()));
}

#[test]
fn create_of_a_known_cell_replaces_it() {
    let mut program = Program::new();
    program.create_cell(&request(0, 1, "first"));
    program.create_cell(&request(1, 2, "second"));
    program.create_cell(&request(5, 1, "again"));
    assert_eq!(summary(program.cells()), vec![cell(1, 5, "again"), cell(2, 1, "second")]);
}

#[test]
fn update_of_an_unknown_cell_changes_nothing() {
    let mut program = Program::new();
    program.create_cell(&request(0, 1, "first"));
    program.update_cell(&request(3, 2, "second"));
    assert_eq!(summary(program.cells()), vec![cell(1, 0, "first")]);
    assert!(program.get(2).is_none());
}

#[test]
fn last_request_for_a_cell_wins_among_others() {
    let mut program = Program::new();
    for (index, fragment, contents) in
        [(0, 1, "a"), (1, 2, "b"), (2, 1, "c"), (0, 3, "d"), (7, 2, "e"), (4, 1, "f")]
    {
        program.upsert(fragment, index, String::from(contents));
    }
    assert_eq!(summary(program.cells()), vec![cell(1, 4, "f"), cell(2, 7, "e"), cell(3, 0, "d")]);
}

#[test]
fn snapshot_is_in_order_of_position() {
    let mut program = Program::new();
    program.upsert(10, 2, String::from("c"));
    program.upsert(11, 0, String::from("a"));
    program.upsert(12, 3, String::from("d"));
    program.upsert(13, 1, String::from("b"));
    assert_eq!(
        summary(&program.snapshot()),
        vec![cell(11, 0, "a"), cell(13, 1, "b"), cell(10, 2, "c"), cell(12, 3, "d")]
    );
    assert_eq!(
        summary(program.cells()),
        vec![cell(10, 2, "c"), cell(11, 0, "a"), cell(12, 3, "d"), cell(13, 1, "b")]
    );
}

#[test]
fn snapshot_keeps_creation_order_among_equal_positions() {
    let mut program = Program::new();
    program.upsert(5, 1, String::from("five"));
    program.upsert(3, 0, String::from("three"));
    program.upsert(4, 1, String::from("four"));
    program.upsert(6, 0, String::from("six"));
    program.upsert(2, 1, String::from("two"));
    assert_eq!(
        summary(&program.snapshot()),
        vec![
            cell(3, 0, "three"),
            cell(6, 0, "six"),
            cell(5, 1, "five"),
            cell(4, 1, "four"),
            cell(2, 1, "two")
        ]
    );
}

#[test]
fn snapshot_follows_positions_not_creation() {
    let mut moved = Program::new();
    moved.upsert(1, 0, String::from("one"));
    moved.upsert(2, 1, String::from("two"));
    moved.upsert(3, 2, String::from("three"));
    moved.upsert(3, 0, String::from("three"));
    moved.upsert(1, 1, String::from("one"));
    moved.upsert(2, 2, String::from("two"));

    let mut fresh = Program::new();
    fresh.upsert(3, 0, String::from("three"));
    fresh.upsert(1, 1, String::from("one"));
    fresh.upsert(2, 2, String::from("two"));

    assert_eq!(summary(&moved.snapshot()), summary(&fresh.snapshot()));
    assert_eq!(moved.write_to_file(2).source, fresh.write_to_file(2).source);
    assert_eq!(moved.write_to_file(2).manifest, fresh.write_to_file(2).manifest);
}

#[test]
fn observe_of_another_file_drops_every_cell() {
    let mut program = Program::new();
    assert!(program.observe("a.md", "/w"));
    program.upsert(1, 0, String::from("one"));
    program.upsert(2, 1, String::from("two"));
    assert!(program.observe("b.md", "/w"));
    assert!(program.snapshot().is_empty());
    assert!(program.cells().is_empty());
    assert_eq!(program.filename(), "b.md");
    assert_eq!(program.workspace(), "/w");
}

#[test]
fn observe_of_another_workspace_drops_every_cell() {
    let mut program = Program::new();
    program.observe("a.md", "/w");
    program.upsert(1, 0, String::from("one"));
    assert!(program.observe("a.md", "/other"));
    assert!(program.snapshot().is_empty());
    assert_eq!(program.filename(), "a.md");
    assert_eq!(program.workspace(), "/other");
}

#[test]
fn observe_of_the_same_place_keeps_the_cells() {
    let mut program = Program::new();
    program.observe("a.md", "/w");
    program.upsert(1, 0, String::from("one"));
    assert!(!program.observe("a.md", "/w"));
    assert_eq!(summary(program.cells()), vec![cell(1, 0, "one")]);
}

#[test]
fn observe_on_a_new_program() {
    let mut program = Program::new();
    assert!(!program.observe("", ""));
    assert!(program.observe("", "/w"));
}

#[test]
fn cell_clone_keeps_the_fields() {
    let first = Cell { fragment: 3, index: 9, contents: String::from("text") };
    let copy = first.clone();
    assert_eq!(copy.fragment, 3);
    assert_eq!(copy.index, 9);
    assert_eq!(copy.contents, "text");
}
