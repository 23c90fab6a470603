use rustkernel::handlers::{code_request, parse_request, parse_u32, RequestFramingError};
use rustkernel::Program;

fn chars(s: &str) -> Vec<char> {
    s.chars().collect()
}

#[test]
fn numbers() {
    assert_eq!(parse_u32(&chars("0")), Some(0));
    assert_eq!(parse_u32(&chars("7")), Some(7));
    assert_eq!(parse_u32(&chars("007")), Some(7));
    assert_eq!(parse_u32(&chars("+12")), Some(12));
    assert_eq!(parse_u32(&chars("4294967295")), Some(u32::MAX));
    assert_eq!(parse_u32(&chars("4294967296")), None);
    assert_eq!(parse_u32(&chars("99999999999999999999")), None);
    assert_eq!(parse_u32(&chars("")), None);
    assert_eq!(parse_u32(&chars("+")), None);
    assert_eq!(parse_u32(&chars("-1")), None);
    assert_eq!(parse_u32(&chars("1 ")), None);
    assert_eq!(parse_u32(&chars(" 1")), None);
    assert_eq!(parse_u32(&chars("1+")), None);
    assert_eq!(parse_u32(&chars("++1")), None);
    assert_eq!(parse_u32(&chars("12a")), None);
    assert_eq!(parse_u32(&chars("\u{661}")), None);
}

#[test]
fn numbers_are_those_of_str() {
    for s in ["0", "10", "+3", "4294967295", "4294967296", "", "+", "x", "1x", "0000000000001"] {
        assert_eq!(parse_u32(&chars(s)), s.parse::<u32>().ok(), "{:?}", s);
    }
}

#[test]
fn a_request_has_five_fields() {
    let cr = parse_request("3\x0017\0notes.md\0/home/me/notes\0let x = 1;\nlet y = 2;").unwrap();
    assert_eq!(cr.index, 3);
    assert_eq!(cr.fragment, 17);
    assert_eq!(cr.filename, "notes.md");
    assert_eq!(cr.workspace, "/home/me/notes");
    assert_eq!(cr.contents, "let x = 1;\nlet y = 2;");
}

#[test]
fn what_follows_the_fifth_field_is_not_read() {
    let cr = parse_request("1\x002\0f\0w\0c\0\0\0\0").unwrap();
    assert_eq!(cr.contents, "c");
    let cr = parse_request("1\x002\0f\0w\0\0more").unwrap();
    assert_eq!(cr.contents, "");
    let cr = parse_request("1\x002\0\0\0").unwrap();
    assert_eq!(cr.filename, "");
    assert_eq!(cr.workspace, "");
    assert_eq!(cr.contents, "");
}

#[test]
fn too_few_fields() {
    for text in ["", "1", "1\x002", "1\x002\0f", "1\x002\0f\0w", "x\0y\0f\0w"] {
        assert_eq!(parse_request(text).unwrap_err(), RequestFramingError::MissingField, "{:?}", text);
    }
}

#[test]
fn a_bad_position() {
    for text in ["\x002\0f\0w\0c", "x\x002\0f\0w\0c", "-1\x002\0f\0w\0c", "4294967296\x002\0f\0w\0c"] {
        assert_eq!(parse_request(text).unwrap_err(), RequestFramingError::BadIndex, "{:?}", text);
    }
    assert_eq!(parse_request("x\0y\0f\0w\0c").unwrap_err(), RequestFramingError::BadIndex);
}

#[test]
fn a_bad_identity() {
    for text in ["1\0\0f\0w\0c", "1\0two\0f\0w\0c", "1\x002.0\0f\0w\0c"] {
        assert_eq!(parse_request(text).unwrap_err(), RequestFramingError::BadFragment, "{:?}", text);
    }
}

#[test]
fn a_request_creates_its_cell_and_builds() {
    let mut program = Program::new();
    let artifact = code_request("0\x001\0notes.md\0/w\0let x = 1;", &mut program).unwrap();
    assert_eq!(program.filename(), "notes.md");
    assert_eq!(program.workspace(), "/w");
    assert_eq!(program.cells().len(), 1);
    assert_eq!(artifact.fragment, 1);
    assert!(artifact.marked);
    assert_eq!(artifact.source_file, "/w/src/main.rs");
    assert_eq!(
        artifact.source,
        "#![allow(dead_code)]\nfn main() {\nprintln!(\"rustkernel-start\");\nlet x = 1;\nprintln!(\"rustkernel-end\");\n}"
    );
}

#[test]
fn requests_for_one_file_build_on_each_other() {
    let mut program = Program::new();
    code_request("0\x001\0notes.md\0/w\0let x = 1;", &mut program).unwrap();
    code_request("1\x002\0notes.md\0/w\0println(x);", &mut program).unwrap();
    let artifact = code_request("0\x001\0notes.md\0/w\0let x = 5;", &mut program).unwrap();
    assert_eq!(program.cells().len(), 2);
    assert_eq!(
        artifact.source,
        "#![allow(dead_code)]\nfn main() {\nprintln!(\"rustkernel-start\");\nlet x = 5;\nprintln!(\"rustkernel-end\");\n}"
    );
    let artifact = code_request("1\x002\0notes.md\0/w\0println(x);", &mut program).unwrap();
    assert_eq!(
        artifact.source,
        "#![allow(dead_code)]\nfn main() {\nlet x = 5;\nprintln!(\"rustkernel-start\");\nprintln(x);\nprintln!(\"rustkernel-end\");\n}"
    );
    assert_eq!(program.run(artifact.fragment, "rustkernel-start\n5\nrustkernel-end\n", ""), "0\x005");
}

#[test]
fn a_request_from_another_file_starts_afresh() {
    let mut program = Program::new();
    code_request("0\x001\0notes.md\0/w\0let x = 1;", &mut program).unwrap();
    code_request("1\x002\0notes.md\0/w\0let y = 2;", &mut program).unwrap();
    let artifact = code_request("0\x003\0other.md\0/w\0let z = 3;", &mut program).unwrap();
    assert_eq!(program.filename(), "other.md");
    assert_eq!(program.cells().len(), 1);
    assert_eq!(program.cells()[0].fragment, 3);
    assert_eq!(
        artifact.source,
        "#![allow(dead_code)]\nfn main() {\nprintln!(\"rustkernel-start\");\nlet z = 3;\nprintln!(\"rustkernel-end\");\n}"
    );
}

#[test]
fn text_that_is_no_request_leaves_the_session() {
    let mut program = Program::new();
    code_request("0\x001\0notes.md\0/w\0let x = 1;", &mut program).unwrap();
    let refused = code_request("zero\x001\0other.md\0/w\0let x = 2;", &mut program);
    assert_eq!(refused.unwrap_err(), RequestFramingError::BadIndex);
    assert_eq!(program.filename(), "notes.md");
    assert_eq!(program.cells().len(), 1);
    assert_eq!(program.cells()[0].contents, "let x = 1;");
}
