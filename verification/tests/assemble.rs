use rustkernel::assemble::{assemble, classify_line, crate_name, scan_cell, LineKind};
use rustkernel::{Cell, Program};

const HEADER: &str = "#![allow(dead_code)]\n";
const MANIFEST: &str =
    "\n[package]\nname = 'output'\nversion = '0.0.1'\nedition = '2021'\n[dependencies]\n\n";
const START: &str = "println!(\"rustkernel-start\");\n";
const END: &str = "println!(\"rustkernel-end\");\n";

fn chars(s: &str) -> Vec<char> {
    s.chars().collect()
}

fn text(v: &[char]) -> String {
    v.iter().collect()
}

fn cell(fragment: u32, index: u32, contents: &str) -> Cell {
    Cell { fragment, index, contents: String::from(contents) }
}

#[test]
fn two_cells_with_the_second_run() {
    let cells = vec![cell(1, 0, "let x = 1;"), cell(2, 1, "println(x);")];
    let built = assemble(&cells, 2);
    assert_eq!(
        built.source,
        format!("{HEADER}fn main() {{\nlet x = 1;\n{START}println(x);\n{END}}}")
    );
    assert_eq!(built.manifest, MANIFEST);
    assert!(built.marked);
}

#[test]
fn two_cells_with_the_first_run() {
    let cells = vec![cell(1, 0, "let x = 1;"), cell(2, 1, "println(x);")];
    let built = assemble(&cells, 1);
    assert_eq!(built.source, format!("{HEADER}fn main() {{\n{START}let x = 1;\n{END}}}"));
    assert!(built.marked);
}

#[test]
fn no_cell_run_means_no_markers() {
    let cells = vec![cell(1, 0, "let x = 1;"), cell(2, 1, "let y = 2;")];
    let built = assemble(&cells, 3);
    assert_eq!(built.source, format!("{HEADER}fn main() {{\nlet x = 1;\nlet y = 2;\n}}"));
    assert!(!built.marked);
}

#[test]
fn no_cells_at_all() {
    let built = assemble(&Vec::new(), 0);
    assert_eq!(built.source, format!("{HEADER}fn main() {{\n}}"));
    assert_eq!(built.manifest, MANIFEST);
    assert!(!built.marked);
}

#[test]
fn imports_are_hoisted_in_order_and_once() {
    let cells = vec![
        cell(1, 0, "use rand::Rng;\nlet a = 1;"),
        cell(2, 1, "use std::fmt;\nuse rand::Rng;\nlet b = 2;"),
        cell(3, 2, "  use serde_json::Value;  \nuse std::fmt;"),
    ];
    let built = assemble(&cells, 3);
    assert_eq!(
        built.source,
        format!(
            "{HEADER}use rand::Rng;\nuse std::fmt;\nuse serde_json::Value;\nfn main() {{\nlet a = 1;\nlet b = 2;\n{START}{END}}}"
        )
    );
    assert_eq!(built.manifest, format!("{MANIFEST}rand=\"*\"\nserde-json=\"*\"\n"));
}

#[test]
fn the_same_import_in_two_cells_is_one_entry() {
    let cells = vec![cell(1, 0, "use regex::Regex;"), cell(2, 1, "use regex::Regex;")];
    let built = assemble(&cells, 1);
    assert_eq!(built.manifest, format!("{MANIFEST}regex=\"*\"\n"));
    assert_eq!(built.source, format!("{HEADER}use regex::Regex;\nfn main() {{\n{START}{END}}}"));
}

#[test]
fn two_imports_from_one_crate_are_one_entry() {
    let cells = vec![cell(1, 0, "use rand::Rng;\nuse rand::thread_rng;")];
    let built = assemble(&cells, 9);
    assert_eq!(built.manifest, format!("{MANIFEST}rand=\"*\"\n"));
    assert_eq!(
        built.source,
        format!("{HEADER}use rand::Rng;\nuse rand::thread_rng;\nfn main() {{\n}}")
    );
}

#[test]
fn standard_imports_stay_out_of_the_manifest() {
    let cells = vec![cell(1, 0, "use std::collections::HashMap;")];
    let built = assemble(&cells, 1);
    assert_eq!(built.manifest, MANIFEST);
    assert_eq!(
        built.source,
        format!("{HEADER}use std::collections::HashMap;\nfn main() {{\n{START}{END}}}")
    );
}

#[test]
fn output_of_other_cells_is_dropped() {
    let cells = vec![
        cell(1, 0, "let x = 1;\nprintln!(\"{}\", x);"),
        cell(2, 1, "print!(\"two\");\nlet y = 2;"),
        cell(3, 2, "println!(\"three\");"),
    ];
    let built = assemble(&cells, 2);
    assert_eq!(
        built.source,
        format!("{HEADER}fn main() {{\nlet x = 1;\n{START}print!(\"two\");\nlet y = 2;\n{END}}}")
    );
}

#[test]
fn a_cell_with_its_own_entry_point_gives_what_is_inside() {
    let cells = vec![
        cell(1, 0, "let before = 0;"),
        cell(2, 1, "fn main() {\n    let x = 1;\n    let y = 2;\n}\n"),
        cell(3, 2, "let after = 3;"),
    ];
    let built = assemble(&cells, 3);
    assert_eq!(
        built.source,
        format!(
            "{HEADER}fn main() {{\nlet before = 0;\nlet x = 1;\nlet y = 2;\n{START}let after = 3;\n{END}}}"
        )
    );
}

#[test]
fn the_run_cell_with_its_own_entry_point() {
    let cells = vec![cell(2, 1, "use rand::Rng;\nfn main() {\nprintln!(\"hi\");\n}")];
    let built = assemble(&cells, 2);
    assert_eq!(
        built.source,
        format!("{HEADER}use rand::Rng;\nfn main() {{\n{START}println!(\"hi\");\n{END}}}")
    );
}

#[test]
fn an_entry_point_cell_without_statements_takes_nothing_from_others() {
    let cells = vec![cell(1, 0, "let x = 1;"), cell(2, 1, "fn main() {}")];
    let built = assemble(&cells, 5);
    assert_eq!(built.source, format!("{HEADER}fn main() {{\nlet x = 1;\n}}"));
}

#[test]
fn lines_are_trimmed_and_blank_lines_kept() {
    let cells = vec![cell(1, 0, "  let x = 1;  \n\n\tlet y = 2;\r\n")];
    let built = assemble(&cells, 0);
    assert_eq!(built.source, format!("{HEADER}fn main() {{\nlet x = 1;\n\nlet y = 2;\n\n}}"));
}

#[test]
fn line_kinds() {
    assert_eq!(classify_line(&chars("fn main() {"), true), LineKind::EntryPoint);
    assert_eq!(classify_line(&chars("fn main() {"), false), LineKind::EntryPoint);
    assert_eq!(classify_line(&chars("println!(\"x\");"), false), LineKind::Suppressed);
    assert_eq!(classify_line(&chars("println!(\"x\");"), true), LineKind::Body);
    assert_eq!(classify_line(&chars("print"), false), LineKind::Suppressed);
    assert_eq!(classify_line(&chars("use a::b;"), true), LineKind::Import);
    assert_eq!(classify_line(&chars("use a::b;"), false), LineKind::Import);
    assert_eq!(classify_line(&chars("let x = 1;"), true), LineKind::Body);
    assert_eq!(classify_line(&chars("let x = 1;"), false), LineKind::Body);
    assert_eq!(classify_line(&chars(""), false), LineKind::Body);
    assert_eq!(classify_line(&chars("fn main"), false), LineKind::Body);
    assert_eq!(classify_line(&chars(" use a::b;"), false), LineKind::Body);
}

#[test]
fn crate_names() {
    assert_eq!(crate_name(&chars("use rand::Rng;")).map(|n| text(&n)), Some(String::from("rand")));
    assert_eq!(
        crate_name(&chars("use serde_json::{json, Value};")).map(|n| text(&n)),
        Some(String::from("serde-json"))
    );
    assert_eq!(
        crate_name(&chars("use a_b_c::d_e;")).map(|n| text(&n)),
        Some(String::from("a-b-c"))
    );
    assert_eq!(crate_name(&chars("use std::fmt;")), None);
    assert_eq!(crate_name(&chars("use stdx::fmt;")), None);
    assert_eq!(crate_name(&chars("use rand;")), None);
    assert_eq!(crate_name(&chars("use")), None);
    assert_eq!(crate_name(&chars("user::x")), None);
    assert_eq!(crate_name(&chars("let x = a::b;")), None);
    assert_eq!(crate_name(&chars("use ::x;")).map(|n| text(&n)), Some(String::new()));
}

#[test]
fn an_import_without_a_path_is_hoisted_without_an_entry() {
    let cells = vec![cell(1, 0, "use rand;\nuseful();")];
    let built = assemble(&cells, 7);
    assert_eq!(built.source, format!("{HEADER}use rand;\nuseful();\nfn main() {{\n}}"));
    assert_eq!(built.manifest, MANIFEST);
}

#[test]
fn scan_cell_sorts_the_lines() {
    let parts = scan_cell(&chars("use a::b;\nlet x = 1;\nprint!(\"x\");\nuse c::d;"), false);
    assert_eq!(parts.imports, vec![chars("use a::b;"), chars("use c::d;")]);
    assert_eq!(text(&parts.body), "let x = 1;\n");
    let parts = scan_cell(&chars("use a::b;\nlet x = 1;\nprint!(\"x\");\nuse c::d;"), true);
    assert_eq!(text(&parts.body), "let x = 1;\nprint!(\"x\");\n");
}

#[test]
fn scan_cell_strips_the_closing_delimiter() {
    let parts = scan_cell(&chars("fn main() {\nlet x = 1;\n}\n\n"), true);
    assert_eq!(text(&parts.body), "let x = 1;\n");
    let parts = scan_cell(&chars("fn main() {\nlet x = 1; }"), true);
    assert_eq!(text(&parts.body), "let x = 1; ");
    let parts = scan_cell(&chars("fn main() {\n\n"), true);
    assert_eq!(text(&parts.body), "");
}

#[test]
fn write_to_file_names_the_files() {
    let mut program = Program::new();
    program.observe("notes.md", "/home/me/notes");
    program.upsert(2, 1, String::from("println(x);"));
    program.upsert(1, 0, String::from("use rand::Rng;\nlet x = 1;"));
    let artifact = program.write_to_file(2);
    assert_eq!(artifact.fragment, 2);
    assert!(artifact.marked);
    assert_eq!(artifact.source_dir, "/home/me/notes/src");
    assert_eq!(artifact.source_file, "/home/me/notes/src/main.rs");
    assert_eq!(artifact.manifest_file, "/home/me/notes/Cargo.toml");
    assert_eq!(
        artifact.source,
        format!("{HEADER}use rand::Rng;\nfn main() {{\nlet x = 1;\n{START}println(x);\n{END}}}")
    );
    assert_eq!(artifact.manifest, format!("{MANIFEST}rand=\"*\"\n"));
}

#[test]
fn write_to_file_for_an_unknown_cell() {
    let mut program = Program::new();
    program.upsert(1, 0, String::from("let x = 1;"));
    let artifact = program.write_to_file(5);
    assert!(!artifact.marked);
    assert_eq!(artifact.source_dir, "/src");
    assert_eq!(artifact.source, format!("{HEADER}fn main() {{\nlet x = 1;\n}}"));
}
