use md_filer::clock::Timestamp;
use md_filer::identity::NoteId;
use md_filer::index::{IndexEntry, NoteIndex};
use md_filer::note::{LinkTarget, Shortcut};
use md_filer::shortcuts::ShortcutsRegistry;
use md_filer::text::{
    chars_of, contains_chars, find_from, insert_sorted, join_path, lowercase_contains,
    text_before,
};

fn entry(name: &str, tags: &[&str]) -> IndexEntry {
    let t = Timestamp { secs: 10, nanos: 0 };
    IndexEntry {
        filename: name.to_string(),
        file_path: format!("/n/{}", name),
        title: name.to_string(),
        created_at: t,
        updated_at: t,
        tags: tags.iter().map(|s| s.to_string()).collect(),
    }
}

fn id(bits: u128) -> NoteId {
    NoteId { bits }
}

#[test]
fn index_entries_are_put_found_and_taken_out() {
    let mut index = NoteIndex::new();
    assert_eq!(index.len(), 0);
    index.add_entry(id(1), entry("a.md", &["x", "@f"]));
    index.add_entry(id(2), entry("b.md", &["x"]));
    index.add_entry(id(3), entry("a.md", &[]));
    assert_eq!(index.len(), 3);
    assert_eq!(index.find_by_filename("a.md").unwrap().0, id(1));
    assert_eq!(index.find_by_filename("b.md").unwrap().0, id(2));
    assert!(index.find_by_filename("c.md").is_none());
    assert_eq!(index.get_entry(&id(2)).unwrap().filename, "b.md");
    assert!(index.get_entry(&id(9)).is_none());

    index.add_entry(id(1), entry("z.md", &[]));
    assert_eq!(index.len(), 3);
    assert_eq!(index.id_at(0), id(1));
    assert_eq!(index.entry_at(0).filename, "z.md");
    assert_eq!(index.find_by_filename("a.md").unwrap().0, id(3));

    assert_eq!(index.remove_entry(&id(2)).unwrap().filename, "b.md");
    assert!(index.remove_entry(&id(2)).is_none());
    assert_eq!(index.len(), 2);
    assert_eq!(index.id_at(1), id(3));
}

#[test]
fn index_finds_by_tag_and_by_folder_in_order() {
    let mut index = NoteIndex::new();
    index.add_entry(id(1), entry("a.md", &["x", "@f"]));
    index.add_entry(id(2), entry("b.md", &["y"]));
    index.add_entry(id(3), entry("c.md", &["@f", "x"]));
    let by_tag: Vec<NoteId> = index.find_by_tag("x").iter().map(|p| p.0).collect();
    assert_eq!(by_tag, vec![id(1), id(3)]);
    let by_folder: Vec<NoteId> = index.find_by_folder("@f").iter().map(|p| p.0).collect();
    assert_eq!(by_folder, vec![id(1), id(3)]);
    assert!(index.find_by_folder("x").is_empty());
    assert!(index.find_by_folder("f").is_empty());
    assert!(index.find_by_tag("").is_empty());
}

#[test]
fn watched_folders_hold_no_folder_twice() {
    let mut index = NoteIndex::new();
    index.add_watched_folder("/a".to_string());
    index.add_watched_folder("/b".to_string());
    index.add_watched_folder("/a".to_string());
    assert_eq!(index.get_watched_folders(), &vec!["/a".to_string(), "/b".to_string()]);
    assert!(!index.remove_watched_folder("/c"));
    assert!(index.remove_watched_folder("/a"));
    assert!(!index.remove_watched_folder("/a"));
    assert_eq!(index.get_watched_folders(), &vec!["/b".to_string()]);
}

#[test]
fn index_from_parts_keeps_the_last_of_equal_identities() {
    let index = NoteIndex::from_parts(
        vec![
            (id(1), entry("a.md", &[])),
            (id(2), entry("b.md", &[])),
            (id(1), entry("c.md", &[])),
        ],
        vec!["/a".to_string(), "/a".to_string(), "/b".to_string()],
    );
    assert_eq!(index.len(), 2);
    assert_eq!(index.id_at(0), id(1));
    assert_eq!(index.entry_at(0).filename, "c.md");
    assert_eq!(index.get_watched_folders().len(), 2);
}

#[test]
fn renaming_an_entry_keeps_the_rest_and_stamps_it() {
    let mut index = NoteIndex::new();
    index.add_entry(id(1), entry("a.md", &["x"]));
    index.update_filename_at(&id(1), "b.md".to_string(), Timestamp { secs: 99, nanos: 1 });
    let e = index.get_entry(&id(1)).unwrap();
    assert_eq!(e.filename, "b.md");
    assert_eq!(e.file_path, "/n/a.md");
    assert_eq!(e.title, "a.md");
    assert_eq!(e.tags, vec!["x"]);
    assert_eq!(e.created_at, Timestamp { secs: 10, nanos: 0 });
    assert_eq!(e.updated_at, Timestamp { secs: 99, nanos: 1 });
    index.update_filename_at(&id(5), "c.md".to_string(), Timestamp { secs: 1, nanos: 1 });
    assert_eq!(index.len(), 1);
    index.update_filename(&id(1), "d.md".to_string());
    let e = index.get_entry(&id(1)).unwrap();
    assert_eq!(e.filename, "d.md");
    assert!(e.updated_at.secs > 1_600_000_000);
    assert!(!index.set_tags(&id(5), vec![]));
}

fn link(alias: &str, target: LinkTarget) -> Shortcut {
    Shortcut { alias: alias.to_string(), target, description: None }
}

#[test]
fn shortcuts_are_kept_by_note_and_alias_and_the_last_write_wins() {
    let mut reg = ShortcutsRegistry::new();
    assert!(reg.get_shortcuts(&id(1)).is_none());
    reg.add_shortcut(id(1), "a".to_string(), link("a", LinkTarget::Note { id: id(2) }));
    reg.add_shortcut(id(1), "b".to_string(), link("b", LinkTarget::Url { url: "u".to_string() }));
    reg.add_shortcut(id(2), "a".to_string(), link("a", LinkTarget::File { path: "/p".to_string() }));
    reg.add_shortcut(id(1), "a".to_string(), link("a", LinkTarget::Note { id: id(3) }));
    let of_one = reg.get_shortcuts(&id(1)).unwrap();
    assert_eq!(of_one.len(), 2);
    assert_eq!(of_one.alias_at(0), "a");
    assert!(matches!(of_one.get("a").unwrap().target, LinkTarget::Note { id: NoteId { bits: 3 } }));
    assert!(matches!(of_one.get("b").unwrap().target, LinkTarget::Url { .. }));
    assert!(of_one.get("c").is_none());
    assert_eq!(reg.get_shortcuts(&id(2)).unwrap().len(), 1);

    let removed = reg.remove_shortcuts(&id(1)).unwrap();
    assert_eq!(removed.len(), 2);
    assert!(reg.get_shortcuts(&id(1)).is_none());
    assert!(reg.remove_shortcuts(&id(1)).is_none());
    assert_eq!(reg.get_shortcuts(&id(2)).unwrap().len(), 1);
}

#[test]
fn references_to_a_note_are_found_across_owners() {
    let mut reg = ShortcutsRegistry::new();
    reg.add_shortcut(id(1), "x".to_string(), link("x", LinkTarget::Note { id: id(9) }));
    reg.add_shortcut(id(1), "y".to_string(), link("y", LinkTarget::Note { id: id(8) }));
    reg.add_shortcut(id(1), "z".to_string(), link("z", LinkTarget::Note { id: id(9) }));
    reg.add_shortcut(id(2), "u".to_string(), link("u", LinkTarget::Url { url: "9".to_string() }));
    reg.add_shortcut(id(3), "w".to_string(), link("w", LinkTarget::Note { id: id(9) }));
    let found: Vec<(NoteId, String)> = reg
        .find_references_to_note(&id(9))
        .into_iter()
        .map(|r| (r.0, r.1))
        .collect();
    assert_eq!(
        found,
        vec![(id(1), "x".to_string()), (id(1), "z".to_string()), (id(3), "w".to_string())]
    );
    assert!(reg.find_references_to_note(&id(7)).is_empty());
}

#[test]
fn text_search_finds_the_first_place() {
    let hay = chars_of("abcabc");
    assert_eq!(find_from(&hay, &chars_of("bc"), 0), Some(1));
    assert_eq!(find_from(&hay, &chars_of("bc"), 2), Some(4));
    assert_eq!(find_from(&hay, &chars_of("bc"), 5), None);
    assert_eq!(find_from(&hay, &chars_of(""), 6), Some(6));
    assert_eq!(find_from(&hay, &chars_of(""), 7), None);
    assert!(contains_chars(&hay, &chars_of("")));
    assert!(!contains_chars(&hay, &chars_of("cb")));
    assert!(lowercase_contains("Straße ÄB", &chars_of("äb")));
    assert!(!lowercase_contains("abc", &chars_of("B")));
}

#[test]
fn paths_are_joined_with_one_slash() {
    assert_eq!(join_path("/notes", "a.md"), "/notes/a.md");
    assert_eq!(join_path("/notes/", "a.md"), "/notes/a.md");
    assert_eq!(join_path("", "a.md"), "a.md");
    assert_eq!(join_path("/notes", "/abs.md"), "/abs.md");
    assert_eq!(join_path("/notes", ""), "/notes/");
}

#[test]
fn strings_are_ordered_by_code_point() {
    assert!(text_before(&chars_of("a"), &chars_of("b")));
    assert!(text_before(&chars_of(""), &chars_of("a")));
    assert!(text_before(&chars_of("ab"), &chars_of("abc")));
    assert!(text_before(&chars_of("@z"), &chars_of("a")));
    assert!(text_before(&chars_of("z"), &chars_of("é")));
    assert!(!text_before(&chars_of("a"), &chars_of("a")));
    assert!(!text_before(&chars_of("b"), &chars_of("a")));
    let mut list: Vec<String> = Vec::new();
    for t in ["m", "a", "z", "m", "ab", "a"] {
        insert_sorted(&mut list, t);
    }
    assert_eq!(list, vec!["a", "ab", "m", "z"]);
    let mut sorted = vec!["é", "z", "@z", "a", "ab", "", "B"];
    sorted.sort();
    let mut mine: Vec<String> = Vec::new();
    for t in ["é", "z", "@z", "a", "ab", "", "B"] {
        insert_sorted(&mut mine, t);
    }
    assert_eq!(mine, sorted);
}

#[test]
fn the_clock_gives_seconds_and_a_fraction_of_a_second() {
    for _ in 0..1000 {
        let t = Timestamp::now();
        assert!(t.nanos < 1_000_000_000);
        assert!(t.secs > 1_600_000_000);
    }
}
