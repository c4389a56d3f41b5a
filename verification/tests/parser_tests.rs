use diffview::{parse, parse_index_line, Change, DiffEntry, DiffLine, LineClass, ParsedDiff};

fn expect_line(d: &ParsedDiff, i: usize) -> &DiffLine {
    match &d.entries[i] {
        DiffEntry::Line(l) => l,
        DiffEntry::Header(_) => panic!("entry {} is a header, expected a content row", i),
    }
}

#[test]
fn single_section_example() {
    let input = "diff --git a/foo.txt b/foo.txt\nindex aaa..bbb 100644\n--- a/foo.txt\n+++ b/foo.txt\n@@ -1,2 +1,2 @@\n hello\n-world\n+World";
    let out = parse(input);
    assert_eq!(out.entries.len(), 4);
    match &out.entries[0] {
        DiffEntry::Header(h) => {
            assert_eq!(h.old_path, "foo.txt");
            assert_eq!(h.new_path, "foo.txt");
        }
        DiffEntry::Line(_) => panic!("expected a header first"),
    }
    let l1 = expect_line(&out, 1);
    assert!(matches!(l1.line_class, LineClass::Context));
    assert_eq!(l1.old_line_number, Some(1));
    assert_eq!(l1.new_line_number, Some(1));
    assert_eq!(l1.text, "hello");
    let l2 = expect_line(&out, 2);
    assert!(matches!(l2.line_class, LineClass::Removal));
    assert_eq!(l2.old_line_number, Some(2));
    assert_eq!(l2.new_line_number, None);
    assert_eq!(l2.text, "world");
    let l3 = expect_line(&out, 3);
    assert!(matches!(l3.line_class, LineClass::Addition));
    assert_eq!(l3.old_line_number, None);
    assert_eq!(l3.new_line_number, Some(2));
    assert_eq!(l3.text, "World");
}

#[test]
fn second_section_resets_counters() {
    let mut input = String::from("diff --git a/one b/one\n");
    for _ in 0..50 {
        input.push_str(" filler\n");
    }
    input.push_str("diff --git a/two b/two\n two-first\n");
    let out = parse(&input);
    let n = out.entries.len();
    assert_eq!(n, 53);
    let before = expect_line(&out, 50);
    assert_eq!(before.old_line_number, Some(50));
    assert_eq!(before.new_line_number, Some(50));
    match &out.entries[51] {
        DiffEntry::Header(h) => {
            assert_eq!(h.old_path, "two");
            assert_eq!(h.new_path, "two");
        }
        DiffEntry::Line(_) => panic!("expected the second header"),
    }
    let first = expect_line(&out, 52);
    assert_eq!(first.old_line_number, Some(1));
    assert_eq!(first.new_line_number, Some(1));
    assert_eq!(first.text, "two-first");
}

#[test]
fn counters_before_first_boundary_stay_zero_based() {
    let out = parse(" a\n b");
    assert_eq!(out.entries.len(), 2);
    let l0 = expect_line(&out, 0);
    assert_eq!(l0.old_line_number, Some(0));
    assert_eq!(l0.new_line_number, Some(0));
    let l1 = expect_line(&out, 1);
    assert_eq!(l1.old_line_number, Some(1));
    assert_eq!(l1.new_line_number, Some(1));
}

#[test]
fn hunk_and_identity_lines_produce_nothing() {
    let out = parse("@@ -1,2 +1,2 @@\n--- a/f\n+++ b/f\n@\n x");
    assert_eq!(out.entries.len(), 1);
    let l = expect_line(&out, 0);
    assert!(matches!(l.line_class, LineClass::Context));
    assert_eq!(l.old_line_number, Some(0));
    assert_eq!(l.new_line_number, Some(0));
    assert_eq!(l.text, "x");
}

#[test]
fn old_numbers_increase_by_one_within_section() {
    let input = "diff --git a/f b/f\n a\n-b\n+c\n d\n-e";
    let out = parse(input);
    let mut old_numbers = Vec::new();
    for entry in &out.entries {
        if let DiffEntry::Line(l) = entry {
            match l.line_class {
                LineClass::Context | LineClass::Removal => {
                    old_numbers.push(l.old_line_number.unwrap());
                }
                LineClass::Addition => assert_eq!(l.old_line_number, None),
            }
        }
    }
    assert_eq!(old_numbers, vec![1, 2, 3, 4]);
}

#[test]
fn new_numbers_increase_by_one_within_section() {
    let input = "diff --git a/f b/f\n a\n-b\n+c\n d\n+e";
    let out = parse(input);
    let mut new_numbers = Vec::new();
    for entry in &out.entries {
        if let DiffEntry::Line(l) = entry {
            match l.line_class {
                LineClass::Context | LineClass::Addition => {
                    new_numbers.push(l.new_line_number.unwrap());
                }
                LineClass::Removal => assert_eq!(l.new_line_number, None),
            }
        }
    }
    assert_eq!(new_numbers, vec![1, 2, 3, 4]);
}

#[test]
fn consecutive_changes_advance_only_their_side() {
    let out = parse("diff --git a/f b/f\n+a\n+b\n-c\n-d");
    let a0 = expect_line(&out, 1);
    assert_eq!(a0.new_line_number, Some(1));
    assert_eq!(a0.old_line_number, None);
    let a1 = expect_line(&out, 2);
    assert_eq!(a1.new_line_number, Some(2));
    let r0 = expect_line(&out, 3);
    assert_eq!(r0.old_line_number, Some(1));
    assert_eq!(r0.new_line_number, None);
    let r1 = expect_line(&out, 4);
    assert_eq!(r1.old_line_number, Some(2));
}

#[test]
fn index_line_is_dropped_by_parse() {
    let out = parse("index aaa..bbb 100644");
    assert_eq!(out.entries.len(), 0);
}

#[test]
fn index_line_yields_blob_identifiers() {
    let ids = parse_index_line("index aaa..bbb 100644");
    assert_eq!(ids, Some((String::from("aaa"), String::from("bbb"))));
}

#[test]
fn index_line_prefix_is_not_checked_for_a_space() {
    let ids = parse_index_line("indexx aa..bb 100644");
    assert_eq!(ids, Some((String::from("aa"), String::from("bb"))));
}

#[test]
fn malformed_index_lines_yield_nothing() {
    assert_eq!(parse_index_line("index aaa.bbb 100644"), None);
    assert_eq!(parse_index_line("index aaa..bbb"), None);
    assert_eq!(parse_index_line("index a..b..c 100644"), None);
    assert_eq!(parse_index_line("nondex aaa..bbb 100644"), None);
    assert_eq!(parse_index_line("index"), None);
}

#[test]
fn malformed_boundary_is_skipped_without_reset() {
    let out = parse("diff --git a/x b/y extra\n z");
    assert_eq!(out.entries.len(), 1);
    let l = expect_line(&out, 0);
    assert_eq!(l.old_line_number, Some(0));
    assert_eq!(l.new_line_number, Some(0));
}

#[test]
fn boundary_with_short_tokens_still_parses() {
    let out = parse("diff --git a b\n w");
    assert_eq!(out.entries.len(), 2);
    match &out.entries[0] {
        DiffEntry::Header(h) => {
            assert_eq!(h.old_path, "");
            assert_eq!(h.new_path, "");
        }
        DiffEntry::Line(_) => panic!("expected a header"),
    }
    let l = expect_line(&out, 1);
    assert_eq!(l.old_line_number, Some(1));
    assert_eq!(l.new_line_number, Some(1));
}

#[test]
fn ambiguous_prefixes_follow_first_match() {
    let out = parse("+++x\n++x\n--x\n---\n-\n+\n ");
    assert_eq!(out.entries.len(), 5);
    let a = expect_line(&out, 0);
    assert!(matches!(a.line_class, LineClass::Addition));
    assert_eq!(a.text, "+x");
    let r = expect_line(&out, 1);
    assert!(matches!(r.line_class, LineClass::Removal));
    assert_eq!(r.text, "-x");
    let r2 = expect_line(&out, 2);
    assert!(matches!(r2.line_class, LineClass::Removal));
    assert_eq!(r2.text, "");
    let a2 = expect_line(&out, 3);
    assert!(matches!(a2.line_class, LineClass::Addition));
    assert_eq!(a2.text, "");
    let c = expect_line(&out, 4);
    assert!(matches!(c.line_class, LineClass::Context));
    assert_eq!(c.text, "");
}

#[test]
fn empty_and_unrecognized_input_yields_no_entries() {
    assert_eq!(parse("").entries.len(), 0);
    assert_eq!(parse("a\n\nb").entries.len(), 0);
}

#[test]
fn trailing_terminator_adds_no_record() {
    let out = parse(" a\n");
    assert_eq!(out.entries.len(), 1);
    assert_eq!(expect_line(&out, 0).text, "a");
}

#[test]
fn only_first_character_is_inspected() {
    let out = parse("diff --git a/f b/f\n +added-looking context\n- removed with space");
    let c = expect_line(&out, 1);
    assert!(matches!(c.line_class, LineClass::Context));
    assert_eq!(c.text, "+added-looking context");
    let r = expect_line(&out, 2);
    assert!(matches!(r.line_class, LineClass::Removal));
    assert_eq!(r.text, " removed with space");
}

#[test]
fn change_payload_feeds_the_parser() {
    let change = Change { diff: String::from("diff --git a/f b/f\n only") };
    let out = parse(&change.diff);
    assert_eq!(out.entries.len(), 2);
    assert_eq!(expect_line(&out, 1).text, "only");
}
