use md_filer::clock::Timestamp;
use md_filer::identity::NoteId;
use md_filer::note::{
    extract_title_from_content, is_note_file, split_frontmatter, stem_of, FrontmatterFault, Note,
    NoteMeta,
};

fn parse(filename: &str, content: &str, tags: Vec<String>) -> Note {
    let now = Timestamp::now();
    Note::from_markdown(
        NoteId::mint(),
        filename.to_string(),
        content.to_string(),
        tags,
        now,
        now,
    )
    .unwrap()
}

#[test]
fn test_parse_note_with_frontmatter() {
    let content = "---\ntitle: Test Note\n---\n\n# Test Content\n\nThis is a test note.";

    let id = NoteId::mint();
    let tags = vec!["test".to_string(), "@folder".to_string()];
    let now = Timestamp::now();
    let note = Note::from_markdown(
        id,
        "test.md".to_string(),
        content.to_string(),
        tags.clone(),
        now,
        now,
    )
    .unwrap();

    assert_eq!(note.title, "Test Note");
    assert_eq!(note.filename, "test.md");
    assert_eq!(note.tags, tags);
    assert!(note.content.contains("# Test Content"));
    assert_eq!(note.id, id);
    assert_eq!(note.content, "\n# Test Content\n\nThis is a test note.");
}

#[test]
fn test_parse_note_without_frontmatter() {
    let content = "# My Title\n\nThis is content without frontmatter.";

    let note = parse("test.md", content, vec![]);

    assert_eq!(note.title, "My Title");
    assert_eq!(note.filename, "test.md");
    assert_eq!(note.content, content);
}

#[test]
fn test_parse_note_without_frontmatter_or_title() {
    let content = "Just some content.";

    let note = parse("myfile.md", content, vec![]);

    assert_eq!(note.title, "myfile");
    assert_eq!(note.filename, "myfile.md");
}

#[test]
fn test_get_folder_tag() {
    let tags = vec![
        "tag1".to_string(),
        "@projects".to_string(),
        "tag2".to_string(),
    ];
    let note = parse("test.md", "# Test", tags);

    assert_eq!(note.get_folder_tag(), Some("@projects"));
}

#[test]
fn test_get_regular_tags() {
    let tags = vec![
        "rust".to_string(),
        "@work".to_string(),
        "programming".to_string(),
    ];
    let note = parse("test.md", "# Test", tags);

    let regular_tags = note.get_regular_tags();
    assert_eq!(regular_tags.len(), 2);
    assert!(regular_tags.contains(&"rust"));
    assert!(regular_tags.contains(&"programming"));
    assert!(!regular_tags.contains(&"@work"));
}

#[test]
fn test_to_markdown() {
    let content = "---\ntitle: Test Note\n---\n\n# Test Content";

    let note = parse("test.md", content, vec![]);
    let markdown = note.to_markdown();

    assert!(markdown.starts_with("---\n"));
    assert!(markdown.contains("title: Test Note"));
    assert!(markdown.contains("# Test Content"));
}

#[test]
fn to_markdown_writes_title_then_identity() {
    let id = NoteId::parse("550e8400-e29b-41d4-a716-446655440000").unwrap();
    let now = Timestamp::now();
    let note = Note::from_markdown(
        id,
        "plain.md".to_string(),
        "# Heading\n\nBody".to_string(),
        vec![],
        now,
        now,
    )
    .unwrap();
    assert_eq!(
        note.to_markdown(),
        "---\ntitle: Heading\nid: 550e8400-e29b-41d4-a716-446655440000\n---\n# Heading\n\nBody"
    );
}

#[test]
fn split_takes_text_between_the_first_two_markers() {
    assert_eq!(
        split_frontmatter("---\na: 1\n---\nbody\n---\nmore"),
        Some(("a: 1\n".to_string(), "body\n---\nmore".to_string()))
    );
    assert_eq!(split_frontmatter("---\n---\n"), Some((String::new(), String::new())));
    assert_eq!(split_frontmatter("---\nno end"), None);
    assert_eq!(split_frontmatter("text\n---\na\n---\n"), None);
    assert_eq!(split_frontmatter(""), None);
    assert_eq!(split_frontmatter("---"), None);
    assert_eq!(split_frontmatter("---\na---\nb"), None);
    assert_eq!(split_frontmatter("---\na: 1\n ---\nb"), None);
    assert_eq!(
        split_frontmatter("---\na---\n---\nb"),
        Some(("a---\n".to_string(), "b".to_string()))
    );
    assert_eq!(split_frontmatter("---\na\n---"), None);
}

#[test]
fn title_comes_from_the_first_heading_line() {
    assert_eq!(
        extract_title_from_content("intro\n## Sub\n#  # Spaced  \r\n# Later"),
        Some("# Spaced".to_string())
    );
    assert_eq!(extract_title_from_content("# # Twice"), Some("Twice".to_string()));
    assert_eq!(extract_title_from_content("#No space\ntext # x"), None);
    assert_eq!(extract_title_from_content("# "), Some(String::new()));
    assert_eq!(extract_title_from_content(""), None);
    assert_eq!(extract_title_from_content("# \u{3000}wide\u{a0}"), Some("wide".to_string()));
}

#[test]
fn stem_drops_the_ending_once() {
    assert_eq!(stem_of("note.md"), "note");
    assert_eq!(stem_of("note.md.md"), "note.md");
    assert_eq!(stem_of("note.txt"), "note.txt");
    assert_eq!(stem_of(".md"), "");
    assert_eq!(stem_of("md"), "md");
}

#[test]
fn header_identity_goes_before_the_candidate() {
    let content = "---\ntitle: Note With UUID\nid: 550e8400-e29b-41d4-a716-446655440000\n---\n\n# Content\n";
    let candidate = NoteId::mint();
    let note = parse_with(candidate, content);
    assert_eq!(note.id.to_text(), "550e8400-e29b-41d4-a716-446655440000");
    assert_ne!(note.id, candidate);
    assert_eq!(note.meta.id, Some(note.id));
    assert_eq!(note.meta.title, Some("Note With UUID".to_string()));
    assert!(Note::has_uuid_in_frontmatter(content));
    assert!(Note::has_frontmatter(content));
}

fn parse_with(candidate: NoteId, content: &str) -> Note {
    let now = Timestamp::now();
    Note::from_markdown(candidate, "x.md".to_string(), content.to_string(), vec![], now, now)
        .unwrap()
}

#[test]
fn header_without_identity_keeps_the_candidate() {
    let content = "---\ntitle: T\ncreated_at: 2024-01-01T00:00:00Z\nlist: [a, b]\n---\nbody";
    let candidate = NoteId::mint();
    let note = parse_with(candidate, content);
    assert_eq!(note.id, candidate);
    assert_eq!(note.title, "T");
    assert_eq!(note.content, "body");
    assert!(!Note::has_uuid_in_frontmatter(content));
    assert!(Note::has_frontmatter(content));
    assert!(!Note::has_frontmatter("# T"));
    assert!(!Note::has_uuid_in_frontmatter("# T"));
}

#[test]
fn empty_header_reads_as_no_fields() {
    let note = parse_with(NoteId::mint(), "---\n---\n# Below\n");
    assert_eq!(note.title, "Below");
}

fn fault_of(content: &str) -> FrontmatterFault {
    let now = Timestamp::now();
    Note::from_markdown(
        NoteId::mint(),
        "x.md".to_string(),
        content.to_string(),
        vec![],
        now,
        now,
    )
    .unwrap_err()
    .fault
}

#[test]
fn each_header_fault_has_an_input() {
    assert_eq!(fault_of("---\ntitle: [unclosed\n---\n"), FrontmatterFault::Syntax);
    assert_eq!(fault_of("---\n- a\n- b\n---\n"), FrontmatterFault::NotMapping);
    assert_eq!(fault_of("---\ntitle: [a, b]\n---\n"), FrontmatterFault::BadTitle);
    assert_eq!(fault_of("---\nid: not-a-uuid\n---\n"), FrontmatterFault::BadIdentity);
    assert_eq!(fault_of("---\nid: [1]\n---\n"), FrontmatterFault::BadIdentity);
    assert!(!Note::has_uuid_in_frontmatter("---\nid: not-a-uuid\n---\n"));
}

#[test]
fn minted_identity_is_a_random_uuid() {
    let a = NoteId::mint();
    let b = NoteId::mint();
    assert_ne!(a, b);
    assert_eq!(a.bits & 0x0000_0000_0000_F000_C000_0000_0000_0000, 0x4000_8000_0000_0000_0000);
    assert_eq!(NoteId::parse(&a.to_text()), Some(a));
    assert_eq!(NoteId::parse("nope"), None);
    assert_eq!(
        NoteId { bits: 0x550e8400_e29b_41d4_a716_446655440000 }.to_text(),
        "550e8400-e29b-41d4-a716-446655440000"
    );
}

#[test]
fn numbers_and_truth_values_are_titles_too() {
    assert_eq!(parse_with(NoteId::mint(), "---\ntitle: 2024\n---\nbody").title, "2024");
    assert_eq!(parse_with(NoteId::mint(), "---\ntitle: true\n---\nbody").title, "true");
    assert_eq!(parse_with(NoteId::mint(), "---\ntitle: false\n---\nbody").title, "false");
    assert_eq!(parse_with(NoteId::mint(), "---\ntitle: ~\n---\n# H\n").title, "H");
    assert_eq!(parse_with(NoteId::mint(), "---\ntitle: ''\n---\n# H\n").title, "H");
    assert_eq!(fault_of("---\nid: 12\n---\n"), FrontmatterFault::BadIdentity);
    assert_eq!(fault_of("---\nid: true\n---\n"), FrontmatterFault::BadIdentity);
    assert_eq!(fault_of("---\ntitle: {a: b}\n---\n"), FrontmatterFault::BadTitle);
}

#[test]
fn a_written_note_reads_back_with_identity_title_and_body() {
    let now = Timestamp { secs: 5, nanos: 6 };
    for (title, body) in [
        ("Plain", "text\n"),
        ("123", "# Other heading\n---\nmore"),
        ("a: b # c", ""),
        (" spaced ", "---\nlooks like a header\n---\n"),
        ("A---", "# A---"),
        ("a\n---\nb", "x"),
        ("---", "---\n"),
        ("null", "x"),
        ("quote ' and \" and é", "x"),
    ] {
        let note = Note {
            id: NoteId { bits: 77 },
            filename: "f.md".to_string(),
            meta: NoteMeta { title: Some(title.to_string()), id: Some(NoteId { bits: 77 }) },
            title: title.to_string(),
            created_at: now,
            updated_at: now,
            content: body.to_string(),
            tags: vec![],
        };
        let text = note.to_markdown();
        let back = Note::from_markdown(
            NoteId { bits: 1 },
            "other.md".to_string(),
            text,
            vec!["t".to_string()],
            now,
            now,
        )
        .unwrap();
        assert_eq!(back.id, note.id);
        assert_eq!(back.title, note.title);
        assert_eq!(back.content, note.content);
    }
}

#[test]
fn the_title_is_the_first_source_that_is_not_empty() {
    let now = Timestamp { secs: 5, nanos: 6 };
    let read = |name: &str, content: &str| {
        Note::from_markdown(
            NoteId { bits: 1 },
            name.to_string(),
            content.to_string(),
            vec![],
            now,
            now,
        )
        .unwrap()
    };
    assert_eq!(read("x.md", "# ").title, "x");
    assert_eq!(read("x.md", "# \n# Second").title, "x");
    assert_eq!(read("x.md", "---\ntitle: ''\n---\ntext").title, "x");
    assert_eq!(read("x.md", "---\ntitle: ''\n---\n# H").title, "H");
    assert_eq!(read("x.md", "---\ntitle: T\n---\n# H").title, "T");
    assert_eq!(read("x.txt", "text").title, "x.txt");
    assert_eq!(read(".md", "text").title, "");
    let note = read("x.md", "# ");
    assert_eq!(note.meta.title, Some("x".to_string()));
    assert_eq!(note.meta.id, Some(note.id));
}

#[test]
fn a_note_read_from_a_heading_that_ends_in_hyphens_reads_back() {
    let now = Timestamp { secs: 5, nanos: 6 };
    let id = NoteId::mint();
    let n = Note::from_markdown(id, "t.md".to_string(), "# A---".to_string(), vec![], now, now)
        .unwrap();
    assert_eq!(n.title, "A---");
    let text = n.to_markdown();
    assert!(Note::has_uuid_in_frontmatter(&text));
    let m = Note::from_markdown(NoteId { bits: 0 }, "t.md".to_string(), text, vec![], now, now)
        .unwrap();
    assert_eq!(m.id, id);
    assert_eq!(m.title, "A---");
    assert_eq!(m.content, "# A---");
}

#[test]
fn the_header_is_written_from_title_and_identity_not_from_meta() {
    let now = Timestamp { secs: 5, nanos: 6 };
    let make = |bits: u128| Note {
        id: NoteId { bits },
        filename: "f.md".to_string(),
        meta: NoteMeta { title: None, id: None },
        title: "T".to_string(),
        created_at: now,
        updated_at: now,
        content: "b".to_string(),
        tags: vec![],
    };
    assert_eq!(
        make(1).to_markdown(),
        "---\ntitle: T\nid: 00000000-0000-0000-0000-000000000001\n---\nb"
    );
    assert_ne!(make(1).to_markdown(), make(2).to_markdown());
    assert!(Note::has_uuid_in_frontmatter(&make(2).to_markdown()));
}

#[test]
fn note_files_end_in_md_after_a_name() {
    assert!(is_note_file("a.md"));
    assert!(is_note_file("a.b.md"));
    assert!(is_note_file("..md"));
    assert!(!is_note_file(".md"));
    assert!(!is_note_file("md"));
    assert!(!is_note_file("a.MD"));
    assert!(!is_note_file("a.md "));
    assert!(!is_note_file("a.mdx"));
    assert!(!is_note_file(""));
}

#[test]
fn an_explicit_null_is_no_header_mapping_but_an_empty_header_is() {
    assert_eq!(fault_of("---\nnull\n---\nbody"), FrontmatterFault::NotMapping);
    assert_eq!(fault_of("---\n~\n---\nbody"), FrontmatterFault::NotMapping);
    assert_eq!(parse_with(NoteId::mint(), "---\n---\n# T").title, "T");
    assert_eq!(parse_with(NoteId::mint(), "---\n# only a comment\n---\n# T").title, "T");
    assert_eq!(parse_with(NoteId::mint(), "---\n\n   \n---\n# T").title, "T");
    assert_eq!(parse_with(NoteId::mint(), "---\n{}\n---\n# T").title, "T");
}
