use ris_merge::index::TagIndex;
use ris_merge::load::LoadError;
use ris_merge::scan::{merge_lines, MergeError, Parsing, ParsingContext};
use ris_merge::tags::{deserialize_tags, tags_from, RawTags};

const HEADER: &str = "Title,Authors,Abstract,Published Year,Published Month,Journal,Volume,Issue,Pages,Accession Number,DOI,Ref,Covidence #,Study,Notes,Tags";

fn csv_with(rows: &[(&str, &str)]) -> Vec<u8> {
    let mut text = String::from(HEADER);
    text.push('\n');
    for (title, tags) in rows {
        text.push_str(&format!("\"{}\",a,b,2020,Jan,J,1,2,3-4,acc,doi,ref,#1,S,N,\"{}\"\n", title, tags));
    }
    text.into_bytes()
}

fn index_with(rows: &[(&str, &str)]) -> TagIndex {
    TagIndex::from_csv(&csv_with(rows)).unwrap()
}

fn load_err(r: Result<TagIndex, LoadError>) -> LoadError {
    match r {
        Ok(_) => panic!("expected the export to be refused"),
        Err(e) => e,
    }
}

fn lines(text: &[&str]) -> Vec<String> {
    text.iter().map(|s| s.to_string()).collect()
}

#[test]
fn single_record_gets_keywords_before_end() {
    let index = index_with(&[("Study A", "alpha; beta")]);
    let out = merge_lines(&lines(&["TY  - JOUR", "TI  - Study A", "ER  -"]), &index).unwrap();
    assert_eq!(out, lines(&["TY  - JOUR", "TI  - Study A", "KW  - alpha", "KW  - beta", "ER  -"]));
}

#[test]
fn blank_line_between_records_is_dropped() {
    let index = index_with(&[("One", "x"), ("Two", "y;z")]);
    let input = lines(&["TY  - JOUR", "TI  - One", "ER  -", "", "TY  - BOOK", "TI  - Two", "ER  -"]);
    let out = merge_lines(&input, &index).unwrap();
    assert_eq!(
        out,
        lines(&[
            "TY  - JOUR", "TI  - One", "KW  - x", "ER  -", "TY  - BOOK", "TI  - Two", "KW  - y",
            "KW  - z", "ER  -",
        ])
    );
}

#[test]
fn other_lines_pass_through_in_order() {
    let index = index_with(&[("Study A", "t")]);
    let input = lines(&[
        "TY  - JOUR", "AU  - Doe, J.", "free text without separator", "TI  - Study A", "AB  - Some-thing",
        "ER  -",
    ]);
    let out = merge_lines(&input, &index).unwrap();
    assert_eq!(
        out,
        lines(&[
            "TY  - JOUR", "AU  - Doe, J.", "free text without separator", "TI  - Study A",
            "AB  - Some-thing", "KW  - t", "ER  -",
        ])
    );
}

#[test]
fn remerge_duplicates_keywords_in_order() {
    let index = index_with(&[("Study A", "alpha; beta")]);
    let once = merge_lines(&lines(&["TY  - JOUR", "TI  - Study A", "ER  -"]), &index).unwrap();
    let twice = merge_lines(&once, &index).unwrap();
    assert_eq!(
        twice,
        lines(&[
            "TY  - JOUR", "TI  - Study A", "KW  - alpha", "KW  - beta", "KW  - alpha", "KW  - beta",
            "ER  -",
        ])
    );
}

#[test]
fn unknown_title_is_a_lookup_error() {
    let index = index_with(&[("Study A", "alpha")]);
    let err = merge_lines(&lines(&["TY  - JOUR", "TI  - Study B", "ER  -"]), &index).unwrap_err();
    match err {
        MergeError::UnknownTitle { title, line } => {
            assert_eq!(title, "Study B");
            assert_eq!(line, 3);
        }
        other => panic!("unexpected error {:?}", other),
    }
    assert!(!MergeError::UnknownTitle { title: String::new(), line: 1 }.is_structural());
}

#[test]
fn stream_must_start_with_type_tag() {
    let index = index_with(&[("Study A", "alpha")]);
    let err = merge_lines(&lines(&["TI  - Study A", "ER  -"]), &index).unwrap_err();
    match err {
        MergeError::InvalidFileStart { ref tag } => assert_eq!(tag, "TI"),
        ref other => panic!("unexpected error {:?}", other),
    }
    assert!(err.is_structural());
}

#[test]
fn first_line_error_writes_nothing() {
    let index = index_with(&[("Study A", "alpha")]);
    let result = ParsingContext::new().consume_line("AU  - Doe", &index);
    assert!(matches!(result, Err(MergeError::InvalidFileStart { .. })));
}

#[test]
fn record_must_start_with_type_tag() {
    let index = index_with(&[("Study A", "alpha")]);
    let input = lines(&["TY  - JOUR", "TI  - Study A", "ER  -", "AU  - Doe"]);
    let err = merge_lines(&input, &index).unwrap_err();
    match err {
        MergeError::InvalidRecordStart { tag, line } => {
            assert_eq!(tag, "AU");
            assert_eq!(line, 4);
        }
        other => panic!("unexpected error {:?}", other),
    }
}

#[test]
fn end_before_title_is_an_error() {
    let index = index_with(&[("Study A", "alpha")]);
    let err = merge_lines(&lines(&["TY  - JOUR", "", "ER  -"]), &index).unwrap_err();
    assert!(matches!(err, MergeError::MissingTitle { line: 3 }));
}

#[test]
fn stream_ending_before_title_is_unterminated() {
    let index = index_with(&[("Study A", "alpha")]);
    let err = merge_lines(&lines(&["TY  - JOUR", "AU  - Doe"]), &index).unwrap_err();
    assert!(matches!(err, MergeError::UnterminatedRecord));
}

#[test]
fn stream_ending_after_title_is_accepted() {
    let index = index_with(&[("Study A", "alpha")]);
    let out = merge_lines(&lines(&["TY  - JOUR", "TI  - Study A"]), &index).unwrap();
    assert_eq!(out, lines(&["TY  - JOUR", "TI  - Study A"]));
}

#[test]
fn empty_stream_has_no_records() {
    let index = index_with(&[]);
    let err = merge_lines(&lines(&["", "just text"]), &index).unwrap_err();
    assert!(matches!(err, MergeError::NoRecords));
}

#[test]
fn context_counts_lines() {
    let index = index_with(&[("Study A", "alpha")]);
    let (ctx, out) = ParsingContext::new().consume_line("", &index).unwrap();
    assert!(out.is_empty());
    assert_eq!(ctx.line_number, 1);
    let (ctx, out) = ctx.consume_line("TY  - JOUR", &index).unwrap();
    assert_eq!(out, lines(&["TY  - JOUR"]));
    assert_eq!(ctx.line_number, 2);
    assert!(matches!(ctx.state, Parsing::LookingForTitle));
    let (ctx, _) = ctx.consume_line("TI -  Study A  ", &index).unwrap();
    assert!(matches!(ctx.state, Parsing::FoundTitle(ref t) if t == "Study A"));
    assert!(ctx.finish().is_ok());
    let ctx = ctx.next_line_state(Parsing::LookingForTitle).next_line();
    assert_eq!(ctx.line_number, 5);
    assert!(matches!(ctx.finish(), Err(MergeError::UnterminatedRecord)));
}

#[test]
fn tags_are_split_and_trimmed() {
    assert_eq!(deserialize_tags("alpha; beta ;gamma"), lines(&["alpha", "beta", "gamma"]));
    assert_eq!(deserialize_tags(""), lines(&[""]));
    assert_eq!(deserialize_tags("a;;b"), lines(&["a", "", "b"]));
    assert_eq!(deserialize_tags(" \u{3000}solo\t"), lines(&["solo"]));
}

#[test]
fn joined_and_split_tags_agree() {
    let joined = tags_from(&RawTags::Joined("alpha; beta".to_string()));
    let split = tags_from(&RawTags::Split(lines(&["alpha", " beta"])));
    assert_eq!(joined, split);
    assert_eq!(split, lines(&["alpha", "beta"]));
}

#[test]
fn csv_builds_index_last_title_wins() {
    let index = index_with(&[("Study A", "a"), ("Study B", "b; c"), ("Study A", "d")]);
    assert_eq!(index.len(), 2);
    assert_eq!(index.get("Study A").unwrap(), &lines(&["d"]));
    assert_eq!(index.get("Study B").unwrap(), &lines(&["b", "c"]));
    assert!(index.get("study a").is_none());
}

#[test]
fn csv_without_rows_gives_empty_index() {
    assert_eq!(TagIndex::from_csv(b"").unwrap().len(), 0);
    assert_eq!(TagIndex::from_csv(b"Title\n").unwrap().len(), 0);
}

#[test]
fn csv_missing_column_is_rejected() {
    let err = load_err(TagIndex::from_csv(b"Title,Tags\nStudy A,x\n"));
    match err {
        LoadError::MissingColumn(c) => assert_eq!(c, "Authors"),
        other => panic!("unexpected error {:?}", other),
    }
}

#[test]
fn csv_duplicate_column_is_rejected() {
    let mut text = String::from(HEADER);
    text.push_str(",Title\n");
    text.push_str("A,a,b,2020,Jan,J,1,2,3,acc,doi,ref,#1,S,N,x,A\n");
    let err = load_err(TagIndex::from_csv(text.as_bytes()));
    match err {
        LoadError::DuplicateColumn(c) => assert_eq!(c, "Title"),
        other => panic!("unexpected error {:?}", other),
    }
}

#[test]
fn csv_unequal_rows_are_malformed() {
    let mut text = String::from(HEADER);
    text.push_str("\nA,x\n");
    assert!(matches!(TagIndex::from_csv(text.as_bytes()), Err(LoadError::Malformed(_))));
}

#[test]
fn short_row_misses_a_field() {
    let header: Vec<String> = HEADER.split(',').map(String::from).collect();
    let full: Vec<String> = header.iter().map(|h| format!("{} value", h)).collect();
    let short = lines(&["Only title"]);
    let err = load_err(TagIndex::from_rows(&vec![header, full, short]));
    assert!(matches!(err, LoadError::MissingField { row: 2 }));
}

#[test]
fn rows_build_index() {
    let header: Vec<String> = HEADER.split(',').map(String::from).collect();
    let mut row: Vec<String> = header.iter().map(|_| String::new()).collect();
    row[0] = "T".to_string();
    row[15] = "k1 ; k2".to_string();
    let index = TagIndex::from_rows(&vec![header, row]).unwrap();
    assert_eq!(index.get("T").unwrap(), &lines(&["k1", "k2"]));
}

#[test]
fn index_insert_replaces() {
    let mut index = TagIndex::new();
    index.insert("A".to_string(), lines(&["x"]));
    index.insert("A".to_string(), lines(&["y", "z"]));
    assert_eq!(index.len(), 1);
    assert_eq!(index.get("A").unwrap(), &lines(&["y", "z"]));
}
