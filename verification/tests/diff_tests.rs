use oxen::utf8_diff::{diff, text_diff_from_groups, ChangeTag, ChangeType, LineChange};

fn change(tag: ChangeTag, value: &str) -> LineChange {
    LineChange { tag, value: value.to_string(), old_index: None, new_index: None }
}

#[test]
fn large_shifted_text_diff_returns_without_timing_out() {
    let mut original = String::new();
    let mut compare = String::new();
    for idx in 0..20_000 {
        original.push_str(&format!("line-{idx}\n"));
        compare.push_str(&format!("line-{}\n", idx + 1));
    }
    compare.push_str("tail\n");
    let started = std::time::Instant::now();
    let result = diff(Some(original), None, Some(compare), None).expect("large text diff should succeed");
    assert!(started.elapsed() < std::time::Duration::from_secs(2), "large text diff should not hang");
    assert!(
        result.lines.iter().any(|line| line.modification == ChangeType::Added && line.text == "tail"),
        "diff should include the inserted tail line"
    );
}

#[test]
fn identical_texts_have_an_empty_diff() {
    let d = diff(Some("a\nb\n".to_string()), Some("one.txt".to_string()), Some("a\nb\n".to_string()), None).unwrap();
    assert!(d.lines.is_empty());
    assert_eq!(d.filename1, Some("one.txt".to_string()));
    assert_eq!(d.filename2, None);
}

#[test]
fn a_missing_text_is_empty() {
    let d = diff(None, None, Some("x\r\ny\n".to_string()), None).unwrap();
    let lines: Vec<(ChangeType, &str)> = d.lines.iter().map(|l| (l.modification, l.text.as_str())).collect();
    assert_eq!(lines, vec![(ChangeType::Added, "x"), (ChangeType::Added, "y")]);
}

#[test]
fn groups_are_separated_and_line_endings_dropped() {
    let groups = vec![
        vec![change(ChangeTag::Equal, "a\n"), change(ChangeTag::Delete, "b\r\n"), change(ChangeTag::Insert, "c\r")],
        vec![change(ChangeTag::Insert, "d")],
    ];
    let d = text_diff_from_groups(None, Some("f".to_string()), groups);
    let lines: Vec<(ChangeType, &str)> = d.lines.iter().map(|l| (l.modification, l.text.as_str())).collect();
    assert_eq!(
        lines,
        vec![
            (ChangeType::Unchanged, "a"),
            (ChangeType::Removed, "b"),
            (ChangeType::Added, "c"),
            (ChangeType::Unchanged, "..."),
            (ChangeType::Added, "d"),
        ]
    );
    let unchanged = text_diff_from_groups(None, None, vec![vec![change(ChangeTag::Equal, "a\n")]]);
    assert!(unchanged.lines.is_empty());
}

#[test]
fn a_deleted_line_comes_out_removed() {
    let d = diff(Some("a\nb\nc\n".to_string()), None, Some("a\nc\n".to_string()), None).unwrap();
    assert!(d.lines.iter().any(|l| l.modification == ChangeType::Removed && l.text == "b"));
    assert!(!d.lines.iter().any(|l| l.modification == ChangeType::Added));
}

#[test]
fn groups_keep_three_lines_of_context() {
    let original: String = (1..=20).map(|i| format!("{i}\n")).collect();
    let compare = original.replace("10\n", "x\n");
    let d = diff(Some(original), None, Some(compare), None).unwrap();
    let lines: Vec<(ChangeType, &str)> = d.lines.iter().map(|l| (l.modification, l.text.as_str())).collect();
    assert_eq!(
        lines,
        vec![
            (ChangeType::Unchanged, "7"),
            (ChangeType::Unchanged, "8"),
            (ChangeType::Unchanged, "9"),
            (ChangeType::Removed, "10"),
            (ChangeType::Added, "x"),
            (ChangeType::Unchanged, "11"),
            (ChangeType::Unchanged, "12"),
            (ChangeType::Unchanged, "13"),
        ]
    );
}
