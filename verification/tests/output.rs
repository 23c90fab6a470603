use rustkernel::output::{classify, extract, Outcome};
use rustkernel::Program;

fn chars(s: &str) -> Vec<char> {
    s.chars().collect()
}

fn extracted(stdout: &str) -> Option<String> {
    extract(&chars(stdout)).map(|p| p.iter().collect())
}

fn success(outcome: Outcome) -> String {
    match outcome {
        Outcome::Success(payload) => payload,
        other => panic!("no success: {:?}", other),
    }
}

fn build_failure(outcome: Outcome) -> String {
    match outcome {
        Outcome::BuildFailure(diagnostics) => diagnostics,
        other => panic!("no build failure: {:?}", other),
    }
}

#[test]
fn the_marked_region_comes_back() {
    let outcome = classify("rustkernel-start\n1\nrustkernel-end\n", "", true);
    assert_eq!(success(outcome), "1");
}

#[test]
fn extraction_undoes_marking() {
    for payload in ["", "x", "1\n2\n3", "a b", "no newline", "{}", "rustkernel", "start-end"] {
        let stdout = format!("rustkernel-start{payload}rustkernel-end");
        assert_eq!(extracted(&stdout), Some(String::from(payload)), "{:?}", payload);
    }
}

#[test]
fn extraction_trims_the_payload() {
    for payload in ["\n1\n", "  x  ", "\n\n", "\t a \u{a0}b \r\n"] {
        let stdout = format!("rustkernel-start{payload}rustkernel-end");
        assert_eq!(extracted(&stdout), Some(String::from(payload.trim())), "{:?}", payload);
    }
}

#[test]
fn a_payload_that_holds_a_tag_comes_back_whole() {
    assert_eq!(
        extracted("rustkernel-start a rustkernel-end b rustkernel-end"),
        Some(String::from("a rustkernel-end b"))
    );
    assert_eq!(
        extracted("rustkernel-start a rustkernel-start b rustkernel-end"),
        Some(String::from("a rustkernel-start b"))
    );
}

#[test]
fn output_round_the_marked_region_is_dropped() {
    assert_eq!(
        extracted("Compiling...\nrustkernel-start\nhello\nrustkernel-end\nbye\n"),
        Some(String::from("hello"))
    );
}

#[test]
fn a_diagnostic_makes_a_build_failure() {
    let stderr = "   Compiling output v0.0.1\nerror: expected `;`\n --> src/main.rs:3:1\n";
    for stdout in ["", "rustkernel-start\n1\nrustkernel-end\n", "anything"] {
        for marked in [true, false] {
            assert_eq!(build_failure(classify(stdout, stderr, marked)), stderr);
        }
    }
}

#[test]
fn a_panic_makes_a_build_failure() {
    let stderr = "thread 'main' panicked at src/main.rs:4:5:\nboom\n";
    let outcome = classify("rustkernel-start\n", stderr, true);
    assert_eq!(build_failure(outcome), stderr);
}

#[test]
fn a_warning_is_no_diagnostic() {
    let stderr = "warning: unused variable: `x`\nerror:\n    Finished dev\n";
    let outcome = classify("rustkernel-start\nok\nrustkernel-end\n", stderr, true);
    assert_eq!(success(outcome), "ok");
}

#[test]
fn missing_tags_are_an_extraction_failure() {
    for stdout in [
        "",
        "plain output\n",
        "rustkernel-start\nno end\n",
        "no start\nrustkernel-end\n",
        "rustkernel-end\nrustkernel-start\n",
        "rustkernel-star\nrustkernel-en\n",
    ] {
        let outcome = classify(stdout, "", true);
        assert!(matches!(outcome, Outcome::ExtractionFailure), "{:?}", stdout);
        assert_eq!(extracted(stdout), None, "{:?}", stdout);
    }
}

#[test]
fn without_markers_the_whole_output_comes_back() {
    let outcome = classify("  all of it\n", "", false);
    assert_eq!(success(outcome), "  all of it\n");
    let outcome = classify("rustkernel-start\n1\nrustkernel-end\n", "", false);
    assert_eq!(success(outcome), "rustkernel-start\n1\nrustkernel-end\n");
}

#[test]
fn responses() {
    assert_eq!(Outcome::Success(String::from("42")).response(), "0\042");
    assert_eq!(Outcome::Success(String::new()).response(), "0\0");
    assert_eq!(Outcome::BuildFailure(String::from("error: x")).response(), "1\0error: x");
    assert_eq!(Outcome::ExtractionFailure.response(), "2\0");
}

#[test]
fn run_replies_for_the_cell_that_was_run() {
    let mut program = Program::new();
    program.upsert(1, 0, String::from("let x = 1;"));
    program.upsert(2, 1, String::from("println!(\"{}\", x);"));
    assert_eq!(program.run(2, "rustkernel-start\n1\nrustkernel-end\n", ""), "0\01");
    assert_eq!(program.run(2, "1\n", ""), "2\0");
    assert_eq!(program.run(2, "", "error: boom"), "1\0error: boom");
    assert_eq!(program.run(9, "1\n", ""), "0\01\n");
}
