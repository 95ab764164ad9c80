use md_filer::app::{FileOutcome, FolderError, NoteApp, SourceFile};
use md_filer::clock::Timestamp;
use md_filer::identity::NoteId;
use md_filer::index::NoteIndex;
use md_filer::note::{LinkTarget, Note, Shortcut};
use md_filer::shortcuts::ShortcutsRegistry;

const DIR: &str = "/notes";

/// The note files of one folder, as name and text.
struct Disk {
    files: Vec<(String, String)>,
}

impl Disk {
    fn new() -> Disk {
        Disk { files: Vec::new() }
    }

    fn write(&mut self, name: &str, content: &str) {
        match self.files.iter().position(|f| f.0 == name) {
            Some(i) => self.files[i].1 = content.to_string(),
            None => self.files.push((name.to_string(), content.to_string())),
        }
    }

    fn remove(&mut self, name: &str) {
        self.files.retain(|f| f.0 != name);
    }

    fn read(&self, name: &str) -> String {
        self.files.iter().find(|f| f.0 == name).unwrap().1.clone()
    }

    fn scan(&self) -> Vec<SourceFile> {
        self.files
            .iter()
            .map(|f| SourceFile {
                filename: f.0.clone(),
                file_path: format!("{}/{}", DIR, f.0),
                content: f.1.clone(),
            })
            .collect()
    }
}

/// One load pass as a caller runs it: scan, load, rewrite what is to be healed.
fn load(app: &mut NoteApp, disk: &mut Disk) -> Vec<FileOutcome> {
    let files = disk.scan();
    let report = app.load_notes(&files);
    for (file, outcome) in files.iter().zip(report.outcomes.iter()) {
        if let Some(text) = &outcome.rewrite {
            disk.write(&file.filename, text);
        }
    }
    report.outcomes
}

fn open(disk: &mut Disk) -> NoteApp {
    let mut app = NoteApp::new(DIR.to_string(), NoteIndex::new(), ShortcutsRegistry::new());
    load(&mut app, disk);
    app
}

fn create_test_app() -> (Disk, NoteApp) {
    let mut disk = Disk::new();
    disk.write(
        "note1.md",
        "---\ntitle: First Note\ncreated_at: 2024-01-01T00:00:00Z\nupdated_at: 2024-01-01T00:00:00Z\n---\n\n# First Note\n\nThis is my first test note about **Rust programming**.",
    );
    disk.write(
        "note2.md",
        "---\ntitle: Second Note\ncreated_at: 2024-01-02T00:00:00Z\nupdated_at: 2024-01-02T00:00:00Z\n---\n\n# Second Note\n\nThis note is about web development.",
    );
    disk.write("note3.md", "# Simple Note\n\nThis note has no frontmatter.");
    let app = open(&mut disk);
    (disk, app)
}

#[test]
fn test_app_loads_notes() {
    let (_disk, app) = create_test_app();

    let notes = app.list_notes();
    assert_eq!(notes.len(), 3);
}

#[test]
fn test_app_search_notes() {
    let (_disk, app) = create_test_app();

    let results = app.search_notes("Rust");
    assert_eq!(results.len(), 1);
    assert_eq!(results[0].1.title, "First Note");
    assert_eq!(results[0].1.meta.title, Some("First Note".to_string()));

    let results = app.search_notes("note");
    assert!(results.len() >= 2);
    assert_eq!(results.len(), 3);
    assert_eq!(app.search_notes("WEB DEVELOPMENT").len(), 1);
    assert_eq!(app.search_notes("nowhere").len(), 0);
}

#[test]
fn test_app_sync_removes_deleted_files() {
    let (mut disk, mut app) = create_test_app();

    assert_eq!(app.list_notes().len(), 3);

    disk.remove("note1.md");

    load(&mut app, &mut disk);

    assert_eq!(app.list_notes().len(), 2);
}

#[test]
fn test_app_handles_new_files() {
    let (mut disk, mut app) = create_test_app();

    assert_eq!(app.list_notes().len(), 3);

    disk.write("note4.md", "# New Note\n\nThis is a newly added note.");

    load(&mut app, &mut disk);

    assert_eq!(app.list_notes().len(), 4);
    for (key, note) in app.list_notes() {
        assert_eq!(key, note.id);
    }
}

#[test]
fn test_index_persistence() {
    let mut disk = Disk::new();
    disk.write("persistent.md", "# Persistent Note");
    let app = open(&mut disk);
    assert_eq!(app.list_notes().len(), 1);
    let first_key = app.list_notes()[0].0;

    let NoteApp { index, shortcuts, .. } = app;
    let mut app2 = NoteApp::new(DIR.to_string(), index, shortcuts);
    load(&mut app2, &mut disk);
    assert_eq!(app2.list_notes().len(), 1);
    assert_eq!(app2.list_notes()[0].0, first_key);

    assert_eq!(app2.index.len(), 1);
}

#[test]
fn test_get_folders_and_tags() {
    let mut disk = Disk::new();
    disk.write(
        "tagged.md",
        "---\ntitle: Tagged Note\ncreated_at: 2024-01-01T00:00:00Z\nupdated_at: 2024-01-01T00:00:00Z\n---\n\n# Tagged Note",
    );
    let mut app = open(&mut disk);

    let id = app.list_notes().first().map(|n| n.0).unwrap();
    assert!(app.index.set_tags(
        &id,
        vec![
            "rust".to_string(),
            "@projects".to_string(),
            "tutorial".to_string(),
        ],
    ));
    load(&mut app, &mut disk);

    let all_tags = app.get_all_tags();
    assert!(all_tags.contains(&"rust".to_string()));
    assert!(all_tags.contains(&"@projects".to_string()));
    assert_eq!(all_tags, vec!["@projects", "rust", "tutorial"]);

    let folders = app.get_folders();
    assert_eq!(folders.len(), 1);
    assert_eq!(folders[0], "@projects");

    assert_eq!(app.get_notes_by_folder("projects").len(), 1);
    assert_eq!(app.get_notes_by_folder("@projects").len(), 1);
    assert_eq!(app.get_notes_by_folder("rust").len(), 0);
    assert_eq!(app.index.find_by_tag("rust").len(), 1);
    assert_eq!(app.index.find_by_folder("@projects").len(), 1);
    assert_eq!(app.index.find_by_folder("rust").len(), 0);
}

#[test]
fn test_uuid_injection_for_files_without_uuid() {
    let mut disk = Disk::new();
    disk.write(
        "no-uuid.md",
        "---\ntitle: Note Without UUID\n---\n\n# Content\n\nThis note has no UUID in frontmatter.",
    );

    let app = open(&mut disk);
    assert_eq!(app.list_notes().len(), 1);

    let content = disk.read("no-uuid.md");

    assert!(content.contains("id:"));
    assert!(Note::has_uuid_in_frontmatter(&content));
    let key = app.list_notes()[0].0;
    assert_eq!(
        content,
        format!(
            "---\ntitle: Note Without UUID\nid: {}\n---\n\n# Content\n\nThis note has no UUID in frontmatter.",
            key.to_text()
        )
    );
}

#[test]
fn test_uuid_preservation_for_files_with_uuid() {
    let test_uuid = "550e8400-e29b-41d4-a716-446655440000";
    let written = format!(
        "---\ntitle: Note With UUID\nid: {}\n---\n\n# Content\n\nThis note already has a UUID.",
        test_uuid
    );
    let mut disk = Disk::new();
    disk.write("with-uuid.md", &written);

    let mut app = open(&mut disk);
    assert_eq!(app.list_notes().len(), 1);

    let note = app.list_notes()[0].1;
    assert_eq!(note.id.to_text(), test_uuid);
    let own = NoteId::parse(test_uuid).unwrap();
    assert_eq!(app.get_note(&own).map(|n| n.title.as_str()), Some("Note With UUID"));
    assert!(app.index.get_entry(&own).is_some());
    assert_eq!(app.index.len(), 1);
    for (key, note) in app.list_notes() {
        assert_eq!(key, note.id);
    }

    let content = disk.read("with-uuid.md");
    assert!(content.contains(test_uuid));
    assert_eq!(content, written);

    for _ in 0..3 {
        let outcomes = load(&mut app, &mut disk);
        assert!(outcomes[0].rewrite.is_none());
        assert!(!outcomes[0].is_new);
        assert_eq!(app.list_notes()[0].1.id.to_text(), test_uuid);
        assert_eq!(disk.read("with-uuid.md"), written);
    }
}

#[test]
fn test_frontmatter_creation_for_files_without_frontmatter() {
    let body = "# Just a Title\n\nThis is content without any frontmatter.";
    let mut disk = Disk::new();
    disk.write("no-frontmatter.md", body);

    let mut app = open(&mut disk);
    assert_eq!(app.list_notes().len(), 1);

    let content = disk.read("no-frontmatter.md");

    assert!(content.starts_with("---\n"));
    assert!(content.contains("title:"));
    assert!(content.contains("id:"));
    assert!(Note::has_frontmatter(&content));
    assert!(Note::has_uuid_in_frontmatter(&content));
    assert!(content.ends_with(body));
    let key = app.list_notes()[0].0;
    assert_eq!(
        content,
        format!("---\ntitle: Just a Title\nid: {}\n---\n{}", key.to_text(), body)
    );

    let outcomes = load(&mut app, &mut disk);
    assert!(outcomes[0].rewrite.is_none());
    assert_eq!(disk.read("no-frontmatter.md"), content);
    assert_eq!(app.list_notes()[0].0, key);
    assert_eq!(app.list_notes()[0].1.id, key);
    assert_eq!(app.list_notes()[0].1.content, body);
}

#[test]
fn deleting_a_file_drops_its_entry_and_its_shortcuts() {
    let (mut disk, mut app) = create_test_app();
    let first = app.index.find_by_filename("note1.md").unwrap().0;
    let second = app.index.find_by_filename("note2.md").unwrap().0;
    app.shortcuts.add_shortcut(
        first,
        "two".to_string(),
        Shortcut {
            alias: "two".to_string(),
            target: LinkTarget::Note { id: second },
            description: None,
        },
    );
    app.shortcuts.add_shortcut(
        second,
        "home".to_string(),
        Shortcut {
            alias: "home".to_string(),
            target: LinkTarget::Url { url: "https://example.org".to_string() },
            description: Some("start".to_string()),
        },
    );

    disk.remove("note1.md");
    let files = disk.scan();
    let report = app.load_notes(&files);

    assert_eq!(report.removed, vec![first]);
    assert!(app.index.get_entry(&first).is_none());
    assert!(app.index.get_entry(&second).is_some());
    assert!(app.shortcuts.get_shortcuts(&first).is_none());
    assert_eq!(app.shortcuts.get_shortcuts(&second).unwrap().len(), 1);
    assert_eq!(app.index.len(), 2);
    assert_eq!(app.list_notes().len(), 2);
    assert!(app.get_note(&first).is_none());
    assert!(app.get_note(&second).is_some());
}

#[test]
fn a_new_file_gets_an_identity_of_its_own() {
    let (mut disk, mut app) = create_test_app();
    let before: Vec<NoteId> = app.list_notes().iter().map(|n| n.0).collect();

    disk.write("note4.md", "# New Note\n");
    let outcomes = load(&mut app, &mut disk);

    assert_eq!(outcomes.len(), 4);
    assert!(outcomes[3].is_new);
    assert!(!outcomes[0].is_new);
    assert!(!before.contains(&outcomes[3].key));
    assert_eq!(app.list_notes().len(), before.len() + 1);
    assert_eq!(app.index.find_by_filename("note4.md").unwrap().0, outcomes[3].key);
}

#[test]
fn a_file_that_cannot_be_read_is_skipped_and_keeps_its_entry() {
    let (mut disk, mut app) = create_test_app();
    let first = app.index.find_by_filename("note1.md").unwrap().0;

    disk.write("note1.md", "---\ntitle: [broken\n---\nbody");
    let outcomes = load(&mut app, &mut disk);

    assert!(outcomes[0].error.is_some());
    assert!(outcomes[0].rewrite.is_none());
    assert_eq!(outcomes[0].key, first);
    assert_eq!(app.list_notes().len(), 2);
    assert_eq!(app.index.len(), 3);
    assert_eq!(app.index.get_entry(&first).unwrap().title, "First Note");
    assert_eq!(disk.read("note1.md"), "---\ntitle: [broken\n---\nbody");
}

#[test]
fn a_pass_keeps_tags_and_creation_time_and_takes_the_given_time() {
    let mut app = NoteApp::new(DIR.to_string(), NoteIndex::new(), ShortcutsRegistry::new());
    let file = SourceFile {
        filename: "a.md".to_string(),
        file_path: "/notes/a.md".to_string(),
        content: "# A\n".to_string(),
    };
    let id = NoteId { bits: 7 };
    let t1 = Timestamp { secs: 100, nanos: 5 };
    let t2 = Timestamp { secs: 200, nanos: 0 };

    let first = app.ingest_with(&file, id, t1);
    assert_eq!(first.key, id);
    assert!(first.is_new);
    assert_eq!(first.stamp, t1);
    assert_eq!(
        first.rewrite,
        Some("---\ntitle: A\nid: 00000000-0000-0000-0000-000000000007\n---\n# A\n".to_string())
    );
    assert!(app.index.set_tags(&id, vec!["x".to_string()]));

    let second = app.ingest_with(&file, NoteId { bits: 9 }, t2);
    assert_eq!(second.key, id);
    assert!(!second.is_new);
    let entry = app.index.get_entry(&id).unwrap();
    assert_eq!(entry.created_at, t1);
    assert_eq!(entry.updated_at, t2);
    assert_eq!(entry.tags, vec!["x"]);
    assert_eq!(entry.filename, "a.md");
    assert_eq!(entry.file_path, "/notes/a.md");
    assert_eq!(entry.title, "A");
    let note = app.get_note(&id).unwrap();
    assert_eq!(note.tags, vec!["x"]);
    assert_eq!(note.created_at, t1);
    assert_eq!(note.updated_at, t2);
    assert_eq!(app.index.len(), 1);
    assert_eq!(app.list_notes().len(), 1);
}

#[test]
fn notes_are_listed_latest_first() {
    let mut app = NoteApp::new(DIR.to_string(), NoteIndex::new(), ShortcutsRegistry::new());
    let stamps = [(1u128, 50i64, 0u32), (2, 70, 1), (3, 60, 9), (4, 70, 1), (5, 50, 0), (6, 70, 2)];
    for (bits, secs, nanos) in stamps {
        let file = SourceFile {
            filename: format!("{}.md", bits),
            file_path: format!("/notes/{}.md", bits),
            content: "text".to_string(),
        };
        app.ingest_with(&file, NoteId { bits }, Timestamp { secs, nanos });
    }
    let order: Vec<u128> = app.list_notes().iter().map(|n| n.0.bits).collect();
    assert_eq!(order, vec![6, 2, 4, 3, 1, 5]);
}

#[test]
fn legacy_entries_are_looked_up_below_the_notes_folder() {
    let mut app = NoteApp::new(DIR.to_string(), NoteIndex::new(), ShortcutsRegistry::new());
    let now = Timestamp { secs: 1, nanos: 0 };
    for (bits, name, path) in [(1u128, "old.md", ""), (2, "gone.md", ""), (3, "new.md", "/notes/new.md")] {
        app.index.add_entry(
            NoteId { bits },
            md_filer::index::IndexEntry {
                filename: name.to_string(),
                file_path: path.to_string(),
                title: name.to_string(),
                created_at: now,
                updated_at: now,
                tags: vec![],
            },
        );
    }
    let existing = vec!["/notes/old.md".to_string(), "/notes/new.md".to_string()];
    let removed = app.sync_with_filesystem(&existing);
    assert_eq!(removed, vec![NoteId { bits: 2 }]);
    assert_eq!(app.index.len(), 2);
    assert_eq!(app.sync_with_filesystem(&existing), vec![]);
    assert_eq!(
        app.sync_with_filesystem(&vec![]),
        vec![NoteId { bits: 1 }, NoteId { bits: 3 }]
    );
    assert_eq!(app.index.len(), 0);
}

#[test]
fn watched_folders_are_added_once_and_removed_with_their_entries() {
    let (_disk, mut app) = create_test_app();
    assert_eq!(app.list_watched_folders(), &vec![DIR.to_string()]);

    assert_eq!(app.add_watched_folder("/other".to_string(), false), Err(FolderError::Missing));
    assert_eq!(app.add_watched_folder(DIR.to_string(), true), Err(FolderError::Duplicate));
    assert_eq!(app.list_watched_folders().len(), 1);
    assert_eq!(app.add_watched_folder("/other".to_string(), true), Ok(()));
    assert_eq!(app.list_watched_folders(), &vec![DIR.to_string(), "/other".to_string()]);

    assert_eq!(app.remove_watched_folder("/nowhere"), Err(FolderError::Unknown));
    assert_eq!(app.index.len(), 3);
    assert_eq!(app.remove_watched_folder("/other"), Ok(()));
    assert_eq!(app.index.len(), 3);
    assert_eq!(app.remove_watched_folder(DIR), Ok(()));
    assert_eq!(app.index.len(), 0);
    assert!(app.list_watched_folders().is_empty());
}

#[test]
fn a_new_engine_always_watches_its_folder_and_no_folder_twice() {
    let app = NoteApp::new("/a".to_string(), NoteIndex::new(), ShortcutsRegistry::new());
    assert_eq!(app.list_watched_folders(), &vec!["/a".to_string()]);
    let mut index = NoteIndex::new();
    index.add_watched_folder("/other".to_string());
    let app = NoteApp::new("/a".to_string(), index, ShortcutsRegistry::new());
    assert_eq!(app.list_watched_folders(), &vec!["/other".to_string(), "/a".to_string()]);
    let mut index = NoteIndex::new();
    index.add_watched_folder("/a".to_string());
    index.add_watched_folder("/other".to_string());
    let app = NoteApp::new("/a".to_string(), index, ShortcutsRegistry::new());
    assert_eq!(app.list_watched_folders(), &vec!["/a".to_string(), "/other".to_string()]);
    assert_eq!(app.list_notes().len(), 0);
}

#[test]
fn every_note_is_kept_under_its_own_identity() {
    let (mut disk, mut app) = create_test_app();
    disk.write(
        "own.md",
        "---\ntitle: Own\nid: 550e8400-e29b-41d4-a716-446655440000\n---\nbody",
    );
    let outcomes = load(&mut app, &mut disk);
    let own = NoteId::parse("550e8400-e29b-41d4-a716-446655440000").unwrap();
    assert_eq!(outcomes[3].key, own);
    assert_ne!(outcomes[3].candidate, own);
    assert!(outcomes[3].is_new);
    assert!(outcomes[3].rewrite.is_none());
    for _ in 0..2 {
        load(&mut app, &mut disk);
        assert_eq!(app.list_notes().len(), 4);
        assert_eq!(app.index.len(), 4);
        for (key, note) in app.list_notes() {
            assert_eq!(key, note.id);
            let entry = app.index.get_entry(&key).unwrap();
            assert_eq!(entry.filename, note.filename);
            assert_eq!(entry.title, note.title);
            assert!(Note::has_uuid_in_frontmatter(&disk.read(&note.filename)));
        }
        assert_eq!(app.get_note(&own).unwrap().title, "Own");
    }
}

#[test]
fn a_drawn_identity_that_is_held_leaves_the_file_out() {
    let mut app = NoteApp::new(DIR.to_string(), NoteIndex::new(), ShortcutsRegistry::new());
    let now = Timestamp { secs: 1, nanos: 0 };
    let file = |name: &str, content: &str| SourceFile {
        filename: name.to_string(),
        file_path: format!("/notes/{}", name),
        content: content.to_string(),
    };
    let first = app.ingest_with(&file("a.md", "# A"), NoteId { bits: 7 }, now);
    assert!(!first.clash);
    assert_eq!(first.key, NoteId { bits: 7 });

    let second = app.ingest_with(&file("b.md", "# B"), NoteId { bits: 7 }, now);
    assert!(second.clash);
    assert!(second.is_new);
    assert!(second.rewrite.is_none());
    assert!(second.error.is_none());
    assert_eq!(app.index.len(), 1);
    assert_eq!(app.list_notes().len(), 1);
    assert_eq!(app.get_note(&NoteId { bits: 7 }).unwrap().title, "A");

    let third = app.ingest_with(&file("b.md", "# B"), NoteId { bits: 8 }, now);
    assert!(!third.clash);
    assert_eq!(third.key, NoteId { bits: 8 });
    assert_eq!(app.list_notes().len(), 2);

    let own = "---\ntitle: C\nid: 00000000-0000-0000-0000-000000000009\n---\n";
    let fourth = app.ingest_with(&file("c.md", own), NoteId { bits: 7 }, now);
    assert!(!fourth.clash);
    assert_eq!(fourth.candidate, NoteId { bits: 7 });
    assert_eq!(fourth.key, NoteId { bits: 9 });
    assert_eq!(app.list_notes().len(), 3);
}

#[test]
fn a_pass_draws_random_identities_and_whole_times() {
    let (_disk, app) = create_test_app();
    let mut disk = Disk::new();
    disk.write("p.md", "# P");
    disk.write("q.md", "# Q");
    let mut fresh = NoteApp::new(DIR.to_string(), NoteIndex::new(), ShortcutsRegistry::new());
    let outcomes = load(&mut fresh, &mut disk);
    assert_ne!(outcomes[0].key, outcomes[1].key);
    for o in &outcomes {
        assert!(o.is_new);
        assert_eq!(o.key, o.candidate);
        assert_eq!(
            o.key.bits & 0x0000_0000_0000_F000_C000_0000_0000_0000,
            0x4000_8000_0000_0000_0000
        );
        assert!(o.stamp.nanos < 1_000_000_000);
    }
    assert_eq!(app.list_notes().len(), 3);
}
