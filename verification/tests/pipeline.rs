//! End-to-end behavior of the diff parser, noise filter and serializer.

use diffnoise::parse_file_diffs;
use diffnoise::process_changed_block;
use diffnoise::process_file_diffs;
use diffnoise::render_file_diffs;
use diffnoise::rules::apply_replacements;
use diffnoise::Changed;
use diffnoise::ChunkBlock;
use diffnoise::DiffLine;
use diffnoise::FileDiff;
use diffnoise::ParseError;

fn cs(s: &str) -> Vec<char> {
    s.chars().collect()
}

fn st(v: &[char]) -> String {
    v.iter().collect()
}

fn parse_ok(input: &str) -> Vec<FileDiff> {
    parse_file_diffs(&cs(input)).unwrap()
}

fn run_pipeline(input: &str) -> String {
    let tree = parse_ok(input);
    let filtered = process_file_diffs(tree);
    st(&render_file_diffs(&filtered))
}

fn line(body: &str, tail: &str) -> DiffLine {
    DiffLine { body: cs(body), tail: cs(tail) }
}

fn transform(s: &str) -> String {
    st(&apply_replacements(&cs(s)))
}

// Round-trip: parsing and re-serializing reproduces the input exactly.

#[test]
fn round_trip_simple() {
    let input = "--- a/f.cc\n+++ b/f.cc\n@@ -1,2 +1,2 @@\n ctx\n-old line\n+new line\n";
    let tree = parse_ok(input);
    assert_eq!(st(&render_file_diffs(&tree)), input);
}

#[test]
fn round_trip_git_header() {
    let input = "diff --git a/x.cc b/x.cc\nindex 28c373b242560..75f0f75e738a2 100644\n\
                 --- a/x.cc\n+++ b/x.cc\n@@ -27,8 +27,8 @@ SomeFunction(\n ctx\n-a\n+b\n";
    let tree = parse_ok(input);
    assert_eq!(tree.len(), 1);
    assert_eq!(st(&render_file_diffs(&tree)), input);
}

#[test]
fn round_trip_no_hunks() {
    let input = "--- a/f\n+++ b/f\n";
    let tree = parse_ok(input);
    assert_eq!(tree.len(), 1);
    assert_eq!(tree[0].chunks.len(), 0);
    assert_eq!(st(&render_file_diffs(&tree)), input);
}

#[test]
fn round_trip_multiple_hunks() {
    let input = "--- a/f\n+++ b/f\n@@ -1 +1 @@\n-a\n+b\n@@ -9 +9 @@\n ctx\n-c\n+d\n more\n";
    let tree = parse_ok(input);
    assert_eq!(tree[0].chunks.len(), 2);
    assert_eq!(st(&render_file_diffs(&tree)), input);
}

#[test]
fn round_trip_two_files() {
    let input = "--- a/f\n+++ b/f\n@@ -1 +1 @@\n-a\n+b\n--- a/g\n+++ b/g\n@@ -2 +2 @@\n-c\n+d\n";
    let tree = parse_ok(input);
    assert_eq!(tree.len(), 2);
    assert_eq!(st(&render_file_diffs(&tree)), input);
}

#[test]
fn round_trip_no_trailing_newline() {
    let input = "--- a/f\n+++ b/f\n@@ -1 +1 @@\n-old\n+new";
    let tree = parse_ok(input);
    assert_eq!(st(&render_file_diffs(&tree)), input);
}

#[test]
fn round_trip_no_newline_marker() {
    let input = "--- a/f\n+++ b/f\n@@ -1 +1 @@\n-old\n\\ No newline at end of file\n+new\n\
                 \\ No newline at end of file\n";
    let tree = parse_ok(input);
    assert_eq!(st(&render_file_diffs(&tree)), input);
}

#[test]
fn round_trip_empty_input() {
    let tree = parse_ok("");
    assert_eq!(tree.len(), 0);
    assert_eq!(st(&render_file_diffs(&tree)), "");
}

// Parse errors.

#[test]
fn fatal_on_bad_tag() {
    let input = "--- a/f\n+++ b/f\n@@ -1 +1 @@\n*boom\n";
    let r = parse_file_diffs(&cs(input));
    assert!(matches!(r, Err(ParseError::BadLineTag)));
}

#[test]
fn fatal_on_empty_hunk_line() {
    let input = "--- a/f\n+++ b/f\n@@ -1 +1 @@\n\n";
    let r = parse_file_diffs(&cs(input));
    assert!(matches!(r, Err(ParseError::BadLineTag)));
}

#[test]
fn fatal_on_bad_annotation() {
    let input = "--- a/f\n+++ b/f\n@@ -1 +1 @@\n-old\n\\ Something else entirely\n";
    let r = parse_file_diffs(&cs(input));
    assert!(matches!(r, Err(ParseError::BadAnnotation)));
}

#[test]
fn fatal_on_orphan_annotation() {
    let input = "--- a/f\n+++ b/f\n@@ -1 +1 @@\n\\ No newline at end of file\n";
    let r = parse_file_diffs(&cs(input));
    assert!(matches!(r, Err(ParseError::OrphanAnnotation)));
}

#[test]
fn fatal_on_missing_file_header() {
    let r = parse_file_diffs(&cs("hello world\n"));
    assert!(matches!(r, Err(ParseError::MissingFileHeader)));
}

#[test]
fn fatal_on_missing_hunk_header() {
    let r = parse_file_diffs(&cs("--- a/f\n+++ b/f\nBinary files differ\n"));
    assert!(matches!(r, Err(ParseError::MissingHunkHeader)));
}

// The substitution table.

#[test]
fn substitution_notreached() {
    assert_eq!(transform("NOTREACHED_NORETURN();"), "NOTREACHED();");
}

#[test]
fn substitution_order_tap_down_before_tap() {
    // The longer enumerator must be rewritten by its own rule, not mangled
    // by the shorter prefix rule.
    assert_eq!(
        transform("x = ET_GESTURE_TAP_DOWN;"),
        "x = EventType::kGestureTapDown;"
    );
    assert_eq!(transform("x = ET_GESTURE_TAP;"), "x = EventType::kGestureTap;");
}

#[test]
fn substitution_corrective_qualification() {
    // An already qualified use is first over-qualified by the enumerator
    // rule and then corrected by the final rule.
    assert_eq!(transform("x = ui::ET_UNKNOWN;"), "x = EventType::kUnknown;");
}

#[test]
fn substitution_leaves_other_text_alone() {
    assert_eq!(transform("nothing to see here"), "nothing to see here");
    assert_eq!(transform(""), "");
}

// Per-block decisions.

#[test]
fn pure_insertion_kept() {
    let block = Changed { removed: vec![], added: vec![line("brand new", "\n")] };
    let r = process_changed_block(block);
    assert!(matches!(r, Some(ChunkBlock::Changed(_))));
}

#[test]
fn pure_deletion_kept() {
    let block = Changed { removed: vec![line("gone", "\n")], added: vec![] };
    let r = process_changed_block(block);
    assert!(matches!(r, Some(ChunkBlock::Changed(_))));
}

#[test]
fn whitespace_comment_insensitive_equivalence() {
    let block = Changed {
        removed: vec![line("  foo( ET_UNKNOWN ,", "\n")],
        added: vec![line("foo(EventType::kUnknown,", "\n")],
    };
    assert!(process_changed_block(block).is_none());
}

#[test]
fn comment_reflow_equivalence() {
    let block = Changed {
        removed: vec![line("// aaa", "\n"), line("// bbb", "\n")],
        added: vec![line("// aaa bbb", "\n")],
    };
    assert!(process_changed_block(block).is_none());
}

#[test]
fn whitespace_runs_collapse() {
    let block = Changed {
        removed: vec![line("int\t\tx =  ET_UNKNOWN;", "\n")],
        added: vec![line("int x = EventType::kUnknown;", "\n")],
    };
    assert!(process_changed_block(block).is_none());
}

#[test]
fn real_change_kept() {
    let block = Changed {
        removed: vec![line("int x = 1;", "\n")],
        added: vec![line("int x = 2;", "\n")],
    };
    assert!(matches!(process_changed_block(block), Some(ChunkBlock::Changed(_))));
}

// Hunk and file elision.

#[test]
fn hunk_elision_cascade() {
    // The hunk's only changed block is noise; the context-only rest of the
    // hunk, and with it the whole file, disappears.
    let input = "--- a/f\n+++ b/f\n@@ -1,3 +1,3 @@\n ctx1\n-NOTREACHED_NORETURN();\n\
                 +NOTREACHED();\n ctx2\n";
    assert_eq!(run_pipeline(input), "");
}

#[test]
fn file_with_real_hunk_survives() {
    let noise = "--- a/f\n+++ b/f\n@@ -1 +1 @@\n-NOTREACHED_NORETURN();\n+NOTREACHED();\n";
    let real = "--- a/g\n+++ b/g\n@@ -1 +1 @@\n-int x = 1;\n+int x = 2;\n";
    let input = format!("{noise}{real}");
    assert_eq!(run_pipeline(&input), real);
}

#[test]
fn partial_elision_keeps_context() {
    // Only the noise block is dropped; the hunk survives on its real change
    // and keeps its (now possibly orphaned) context lines.
    let input = "--- a/f\n+++ b/f\n@@ -1,4 +1,4 @@\n ctx\n-NOTREACHED_NORETURN();\n\
                 +NOTREACHED();\n-int x = 1;\n+int x = 2;\n";
    let expected = "--- a/f\n+++ b/f\n@@ -1,4 +1,4 @@\n ctx\n-int x = 1;\n+int x = 2;\n";
    assert_eq!(run_pipeline(input), expected);
}

// End-to-end examples.

#[test]
fn end_to_end_elided() {
    let input = "--- a/f\n+++ b/f\n@@ -1,2 +1,2 @@\n-  int x = ET_UNKNOWN;\n\
                 +int x = EventType::kUnknown;\n";
    assert_eq!(run_pipeline(input), "");
}

#[test]
fn end_to_end_kept_verbatim() {
    let input = "--- a/f\n+++ b/f\n@@ -1,2 +1,2 @@\n-  int x = ET_UNKNOWN;\n\
                 +int x = EventType::kKeyPressed;\n";
    assert_eq!(run_pipeline(input), input);
}

// Idempotent filtering: re-parsing the filtered output and filtering again
// changes nothing.

#[test]
fn filtering_idempotent() {
    let input = "--- a/f\n+++ b/f\n@@ -1,4 +1,4 @@\n ctx\n-NOTREACHED_NORETURN();\n\
                 +NOTREACHED();\n-int x = 1;\n+int x = 2;\n\
                 --- a/g\n+++ b/g\n@@ -1 +1 @@\n-ET_UNKNOWN\n+EventType::kUnknown\n";
    let first = run_pipeline(input);
    let second = run_pipeline(&first);
    assert_eq!(second, first);
}

// Grammar edge cases.

#[test]
fn header_like_lines_inside_hunk_start_new_file() {
    // A removed line "-- x" renders as "--- x"; followed by an added line
    // "++ y" it matches the file-header pattern and opens a new file
    // section, exactly as line-anchored scanning prescribes.
    let input = "--- a/f\n+++ b/f\n@@ -1 +1 @@\n--- x\n+++ y\n";
    let tree = parse_ok(input);
    assert_eq!(tree.len(), 2);
    assert_eq!(st(&render_file_diffs(&tree)), input);
}

#[test]
fn malformed_index_line_is_no_header() {
    // A "diff --git" line whose index line is malformed completes no file
    // header, so the input does not begin with one.
    let input = "diff --git a/x b/x\nindex not-a-hash\n--- a/x\n+++ b/x\n@@ -1 +1 @@\n-a\n+b\n";
    let r = parse_file_diffs(&cs(input));
    assert!(matches!(r, Err(ParseError::MissingFileHeader)));
}

#[test]
fn context_line_resembling_hunk_header_stays_context() {
    let input = "--- a/f\n+++ b/f\n@@ -1 +1 @@\n @@ -9 +9 @@ not a header\n-a\n+b\n";
    let tree = parse_ok(input);
    assert_eq!(tree.len(), 1);
    assert_eq!(tree[0].chunks.len(), 1);
    assert_eq!(st(&render_file_diffs(&tree)), input);
}

#[test]
fn marker_between_removed_and_added_shares_block() {
    // The no-newline marker attaches to the removed line before it, and the
    // added run still joins the same changed block; the whole block is
    // elided as noise.
    let input = "--- a/f\n+++ b/f\n@@ -1 +1 @@\n-NOTREACHED_NORETURN();\n\
                 \\ No newline at end of file\n+NOTREACHED();\n";
    let tree = parse_ok(input);
    assert_eq!(st(&render_file_diffs(&tree)), input);
    assert_eq!(run_pipeline(input), "");
}

#[test]
fn round_trip_marker_at_end_of_input_without_newline() {
    let input = "--- a/f\n+++ b/f\n@@ -1 +1 @@\n+new\n\\ No newline at end of file";
    let tree = parse_ok(input);
    assert_eq!(st(&render_file_diffs(&tree)), input);
}
