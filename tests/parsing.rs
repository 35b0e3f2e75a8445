use unidiff::diff::Diff;
use unidiff::parser::ParseError;

const FIRST_HUNK_PATCH: &str = r#"diff --git a/src/diff.rs b/src/diff.rs
index 3757767..0aeba60 100644
--- a/src/diff.rs
+++ b/src/diff.rs
@@ -37,13 +37,12 @@ impl Diff {
             deltas: deltas_regex.captures_iter(&diff_str).map(|cap| {
                 let header = group_as_string(&cap, "header");
                 let hunk = group_as_string(&cap, "hunk");
+            dbg!("DELTA");
-                Delta {
-                    file_header: header.clone(),
-                    old_file: group_as_string(&cap, "old_file"),
-                    new_file: group_as_string(&cap, "new_file"),
-                    hunks: hunks_regex.captures_iter(&hunk)
+                let hunks = hunks_regex.captures_iter(&hunk)
                         .map(|hunk_cap| {
+            dbg!("HUNK");
+
                             Hunk {
                                 file_header: header.clone(),
                                 old_start: group_as_u32(&hunk_cap, "old_start"),
"#;

const REST: &str = r#"@@ -60,6 +59,7 @@ impl Diff {
                 }
             }).collect()
+            // @@ -1,1 +1,1 @@ inside a body line
         }
     }
 
diff --git a/src/main.rs b/src/main.rs
index 1111111..2222222 100644
--- a/src/main.rs
+++ b/src/main.rs
@@ -1,3 +1,4 @@
 use std::io;
+use std::fmt;
 
 fn main() {
@@ -10,4 +11,4 @@ fn main() {
-    println!("a");
+    println!("b");
+diff --git a/not/a b/header
 }
"#;

const EMPTY_FILE_PATCH: &str = "diff --git a/empty.txt b/empty.txt\nnew file mode 100644\nindex 0000000..e69de29\n";

fn example() -> String {
    format!("{}{}", FIRST_HUNK_PATCH, REST)
}

#[test]
fn parse_example() {
    let diff = Diff::parse(&example()).unwrap();
    assert_eq!(diff.deltas.len(), 2);
    assert_eq!(diff.deltas[0].hunks.len(), 2);
    assert_eq!(diff.deltas[1].hunks.len(), 2);
}

#[test]
fn format_hunk_patch() {
    let diff = Diff::parse(&example()).unwrap();
    assert_eq!(diff.deltas[0].hunks[0].format_patch(), FIRST_HUNK_PATCH);
}

#[test]
fn parse_example_empty_file() {
    let diff = Diff::parse(EMPTY_FILE_PATCH).unwrap();
    assert_eq!(diff.deltas.len(), 1);
    assert_eq!(diff.deltas[0].hunks.len(), 0);
}

#[test]
fn empty_file_keeps_its_header_and_no_paths() {
    let diff = Diff::parse(EMPTY_FILE_PATCH).unwrap();
    assert_eq!(diff.deltas[0].file_header, EMPTY_FILE_PATCH);
    assert_eq!(diff.deltas[0].old_file, "");
    assert_eq!(diff.deltas[0].new_file, "");
    assert_eq!(diff.to_string(), EMPTY_FILE_PATCH);
}

#[test]
fn whole_diff_renders_back_to_input() {
    let input = example();
    let diff = Diff::parse(&input).unwrap();
    assert_eq!(diff.commit, None);
    assert_eq!(diff.to_string(), input);
}

#[test]
fn delta_renders_header_then_hunks() {
    let diff = Diff::parse(&example()).unwrap();
    let second = &diff.deltas[1];
    assert_eq!(
        second.to_string(),
        format!("{}{}{}", second.file_header, second.hunks[0].to_string(), second.hunks[1].to_string())
    );
    assert!(REST.ends_with(&second.to_string()));
}

#[test]
fn every_hunk_reparses_to_itself() {
    let diff = Diff::parse(&example()).unwrap();
    for delta in diff.deltas.iter() {
        for hunk in delta.hunks.iter() {
            let patch = hunk.format_patch();
            assert_eq!(patch, format!("{}{}\n{}", delta.file_header, hunk.header(), hunk.content));
            let again = Diff::parse(&patch).unwrap();
            assert_eq!(again.deltas.len(), 1);
            assert_eq!(again.deltas[0].hunks.len(), 1);
            assert_eq!(&again.deltas[0].hunks[0], hunk);
        }
    }
}

#[test]
fn deltas_and_hunks_keep_input_order() {
    let diff = Diff::parse(&example()).unwrap();
    assert_eq!(diff.deltas[0].old_file, "a/src/diff.rs");
    assert_eq!(diff.deltas[0].new_file, "b/src/diff.rs");
    assert_eq!(diff.deltas[1].old_file, "a/src/main.rs");
    assert_eq!(diff.deltas[1].new_file, "b/src/main.rs");
    assert_eq!(diff.deltas[0].hunks[0].old_start, 37);
    assert_eq!(diff.deltas[0].hunks[1].old_start, 60);
    assert_eq!(diff.deltas[1].hunks[0].old_start, 1);
    assert_eq!(diff.deltas[1].hunks[1].old_start, 10);
    assert_eq!(diff.deltas[1].hunks[0].old_file, "a/src/main.rs");
    assert_eq!(diff.deltas[1].hunks[0].file_header, diff.deltas[1].file_header);
}

#[test]
fn range_numbers_are_read_exactly() {
    let diff = Diff::parse(&example()).unwrap();
    let hunk = &diff.deltas[0].hunks[0];
    assert_eq!(hunk.old_start, 37);
    assert_eq!(hunk.old_lines, 13);
    assert_eq!(hunk.new_start, 37);
    assert_eq!(hunk.new_lines, 12);
    assert_eq!(hunk.header_suffix, " impl Diff {");
}

#[test]
fn headers_render_with_and_without_suffix() {
    let diff = Diff::parse(&example()).unwrap();
    let hunk = &diff.deltas[0].hunks[1];
    assert_eq!(hunk.display_header(), "@@ -60,6 +59,7 @@");
    assert_eq!(hunk.header(), "@@ -60,6 +59,7 @@ impl Diff {");
    let bare = &diff.deltas[1].hunks[0];
    assert_eq!(bare.display_header(), "@@ -1,3 +1,4 @@");
    assert_eq!(bare.header(), "@@ -1,3 +1,4 @@");
}

#[test]
fn header_like_text_in_body_stays_in_body() {
    let diff = Diff::parse(&example()).unwrap();
    assert!(diff.deltas[0].hunks[1].content.contains("// @@ -1,1 +1,1 @@ inside a body line"));
    assert!(diff.deltas[1].hunks[1].content.contains("+diff --git a/not/a b/header\n"));
    assert!(diff.deltas[0].hunks[0].content.starts_with("             deltas:"));
}

#[test]
fn leading_line_is_the_commit() {
    let input = format!("4f1c2ab9\n{}", example());
    let diff = Diff::parse(&input).unwrap();
    assert_eq!(diff.commit, Some("4f1c2ab9".to_string()));
    assert_eq!(diff.deltas.len(), 2);
    assert_eq!(format!("4f1c2ab9\n{}", diff.to_string()), input);
}

#[test]
fn empty_input_has_nothing() {
    let diff = Diff::parse("").unwrap();
    assert_eq!(diff.commit, None);
    assert_eq!(diff.deltas.len(), 0);
    assert_eq!(diff.to_string(), "");
}

#[test]
fn commit_only_input() {
    let diff = Diff::parse("HEAD\n").unwrap();
    assert_eq!(diff.commit, Some("HEAD".to_string()));
    assert_eq!(diff.deltas.len(), 0);
}

#[test]
fn missing_closing_marker_is_rejected() {
    let input = "diff --git a/x b/x\n--- a/x\n+++ b/x\n@@ -1,2 +1,2\n-a\n+b\n";
    assert_eq!(Diff::parse(input).unwrap_err(), ParseError::Syntax);
}

#[test]
fn missing_closing_marker_after_a_hunk_is_rejected() {
    let input = "diff --git a/x b/x\n--- a/x\n+++ b/x\n@@ -1,1 +1,1 @@\n-a\n+b\n@@ -5,1 +5,1\n-c\n+d\n";
    assert_eq!(Diff::parse(input).unwrap_err(), ParseError::Syntax);
}

#[test]
fn range_without_count_is_rejected() {
    let input = "diff --git a/x b/x\n--- a/x\n+++ b/x\n@@ -1 +1 @@\n-a\n+b\n";
    assert_eq!(Diff::parse(input).unwrap_err(), ParseError::Syntax);
}

#[test]
fn missing_new_file_line_is_rejected() {
    let input = "diff --git a/x b/x\n--- a/x\n@@ -1,1 +1,1 @@\n-a\n+b\n";
    assert_eq!(Diff::parse(input).unwrap_err(), ParseError::Syntax);
}

#[test]
fn hunk_without_file_lines_is_rejected() {
    let input = "diff --git a/x b/x\nindex 1..2\n@@ -1,1 +1,1 @@\n-a\n+b\n";
    assert_eq!(Diff::parse(input).unwrap_err(), ParseError::Syntax);
}

#[test]
fn text_after_commit_must_open_a_delta() {
    let input = "HEAD\nsomething else\n";
    assert_eq!(Diff::parse(input).unwrap_err(), ParseError::Syntax);
}

#[test]
fn oversized_range_number_is_an_invariant_violation() {
    let input = "diff --git a/x b/x\n--- a/x\n+++ b/x\n@@ -4294967296,1 +1,1 @@\n-a\n+b\n";
    assert_eq!(Diff::parse(input).unwrap_err(), ParseError::InvariantViolation);
}

#[test]
fn largest_range_number_is_accepted() {
    let input = "diff --git a/x b/x\n--- a/x\n+++ b/x\n@@ -4294967295,0 +0,1 @@\n+b\n";
    let diff = Diff::parse(input).unwrap();
    let hunk = &diff.deltas[0].hunks[0];
    assert_eq!(hunk.old_start, 4294967295);
    assert_eq!(hunk.old_lines, 0);
    assert_eq!(hunk.new_start, 0);
    assert_eq!(hunk.display_header(), "@@ -4294967295,0 +0,1 @@");
    assert_eq!(diff.to_string(), input);
}

#[test]
fn leading_zero_is_rejected() {
    let input = "diff --git a/x b/x\n--- a/x\n+++ b/x\n@@ -01,1 +1,1 @@\n-a\n+b\n";
    assert_eq!(Diff::parse(input).unwrap_err(), ParseError::Syntax);
}

#[test]
fn non_ascii_text_is_kept() {
    let input = "diff --git a/é b/é\n--- a/é\n+++ b/é\n@@ -1,1 +1,1 @@ fn ü\n-ä\n+ö\n";
    let diff = Diff::parse(input).unwrap();
    assert_eq!(diff.deltas[0].old_file, "a/é");
    assert_eq!(diff.deltas[0].hunks[0].header_suffix, " fn ü");
    assert_eq!(diff.deltas[0].hunks[0].content, "-ä\n+ö\n");
    assert_eq!(diff.to_string(), input);
}

#[test]
fn last_body_line_without_line_break_is_kept() {
    let input = "diff --git a/x b/x\n--- a/x\n+++ b/x\n@@ -1,1 +1,1 @@\n-a\n+b";
    let diff = Diff::parse(input).unwrap();
    assert_eq!(diff.deltas[0].hunks[0].content, "-a\n+b");
    assert_eq!(diff.to_string(), input);
}

#[test]
fn header_line_without_line_break_is_rejected() {
    let input = "diff --git a/x b/x\n--- a/x\n+++ b/x\n@@ -1,1 +1,1 @@";
    assert_eq!(Diff::parse(input).unwrap_err(), ParseError::Syntax);
}

#[test]
fn commit_line_without_line_break_is_rejected() {
    assert_eq!(Diff::parse("HEAD").unwrap_err(), ParseError::Syntax);
}

#[test]
fn deleted_empty_file_then_changed_file() {
    let input = format!(
        "diff --git a/gone.txt b/gone.txt\ndeleted file mode 100644\nindex e69de29..0000000\n{}",
        "diff --git a/x b/x\n--- a/x\n+++ b/x\n@@ -2,1 +2,1 @@ fn f\n-a\n+b\n"
    );
    let diff = Diff::parse(&input).unwrap();
    assert_eq!(diff.deltas.len(), 2);
    assert_eq!(diff.deltas[0].hunks.len(), 0);
    assert_eq!(diff.deltas[1].hunks.len(), 1);
    assert_eq!(diff.deltas[1].hunks[0].format_patch(), "diff --git a/x b/x\n--- a/x\n+++ b/x\n@@ -2,1 +2,1 @@ fn f\n-a\n+b\n");
    assert_eq!(diff.to_string(), input);
}

#[test]
fn delta_marker_inside_a_line_stays_in_the_body() {
    let input = "diff --git a/x b/x\n--- a/x\n+++ b/x\n@@ -1,1 +1,1 @@\n-a\n+bdiff --git c\n";
    let diff = Diff::parse(input).unwrap();
    assert_eq!(diff.deltas.len(), 1);
    assert_eq!(diff.deltas[0].hunks.len(), 1);
    assert_eq!(diff.deltas[0].hunks[0].content, "-a\n+bdiff --git c\n");
}

#[test]
fn hunk_marker_inside_a_line_stays_in_the_body() {
    let input = "diff --git a/x b/x\n--- a/x\n+++ b/x\n@@ -1,1 +1,1 @@\n-a\n+b@@ -2,1 +2,1 @@\n";
    let diff = Diff::parse(input).unwrap();
    assert_eq!(diff.deltas[0].hunks.len(), 1);
    assert_eq!(diff.deltas[0].hunks[0].content, "-a\n+b@@ -2,1 +2,1 @@\n");
}

#[test]
fn old_file_line_without_new_file_line_is_rejected() {
    assert_eq!(Diff::parse("diff --git a b\n--- x").unwrap_err(), ParseError::Syntax);
}

#[test]
fn oversized_count_is_an_invariant_violation() {
    let input = "diff --git a/x b/x\n--- a/x\n+++ b/x\n@@ -1,99999999999 +1,1 @@\n-a\n+b\n";
    assert_eq!(Diff::parse(input).unwrap_err(), ParseError::InvariantViolation);
}
