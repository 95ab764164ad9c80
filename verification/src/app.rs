//! The reconciliation engine: it keeps the notes in memory, the index and the
//! shortcut registry in step with the note files that are there.

use crate::clock::Timestamp;
use crate::id_map::{
    distinct_ids, has_id, ids_of, index_of, lemma_index_of, lemma_map_values, lemma_map_without_all,
    map_values, upsert, value_of, without, without_all, IdMap,
};
use crate::identity::{is_random_uuid, NoteId};
use crate::index::{
    entry_view_fn, first_with_filename, has_filename, with_folder, without_folder, IndexEntry,
    IndexEntryView, NoteIndex,
};
use crate::note::{
    has_embedded_identity, is_folder_tag, markdown_note, note_text, note_view_fn, FrontmatterError,
    FrontmatterFault, Note, NoteView,
};
use crate::shortcuts::ShortcutsRegistry;
use crate::text::{
    add_sorted, among_first, chars_of, copy_strings, has_prefix, join_path, joined_path, list_has,
    lowercase, lowercase_contains, matches_at, occurs_in, starts_with_char, strictly_sorted,
    text_lt, texts, to_lowercase,
};
use crate::filters::{lemma_filter_start, lemma_filter_step};
use vstd::prelude::*;
use vstd::string::*;

verus! {

/// The engine's state: the notes in memory, the index, the shortcut registry
/// and the folder that legacy entries are looked up in.
#[derive(Debug)]
pub struct NoteApp {
    pub notes: IdMap<Note>,
    pub index: NoteIndex,
    pub shortcuts: ShortcutsRegistry,
    pub notes_dir: String,
}

/// The path at which an entry's file is expected: the recorded path, or for
/// an entry without one the file name below `dir`.
pub open spec fn entry_path(dir: Seq<char>, entry: IndexEntryView) -> Seq<char> {
    if entry.file_path.len() == 0 {
        joined_path(dir, entry.filename)
    } else {
        entry.file_path
    }
}

/// The entry's file is not among the files that exist.
pub open spec fn is_stale(dir: Seq<char>, existing: Seq<Seq<char>>, entry: IndexEntryView) -> bool {
    !existing.contains(entry_path(dir, entry))
}

/// The identities of the stale entries, in the index's order.
pub open spec fn stale_ids(
    entries: Seq<(NoteId, IndexEntry)>,
    dir: Seq<char>,
    existing: Seq<Seq<char>>,
) -> Seq<NoteId> {
    ids_of(entries.filter(|pair: (NoteId, IndexEntry)| is_stale(dir, existing, pair.1@)))
}

impl NoteApp {
    /// The index and the registry are well formed and no note stands twice.
    pub open spec fn wf(&self) -> bool {
        self.notes.wf() && self.index.wf() && self.shortcuts.wf()
    }

    /// An engine over a loaded index and registry, with no note in memory
    /// yet. The folder `notes_dir` is watched from then on: it joins the
    /// index's watched folders unless it is among them.
    pub fn new(notes_dir: String, index: NoteIndex, shortcuts: ShortcutsRegistry) -> (app: NoteApp)
        requires
            index.wf(),
            shortcuts.wf(),
        ensures
            app.wf(),
            app.notes@ == Seq::<(NoteId, Note)>::empty(),
            app.notes_dir@ == notes_dir@,
            app.index.entries() == index.entries(),
            app.index.folders() == with_folder(index.folders(), notes_dir@),
            app.index.folders().contains(notes_dir@),
            app.shortcuts.entries() == shortcuts.entries(),
    {
        let mut index = index;
        index.add_watched_folder(notes_dir.clone());
        proof {
            let after = index.folders();
            if !after.contains(notes_dir@) {
                assert(after[after.len() - 1] == notes_dir@);
            }
        }
        NoteApp { notes: IdMap::new(), index, shortcuts, notes_dir }
    }

    /// Whether the file of `entry` is missing from `existing_files`.
    pub fn entry_is_stale(&self, entry: &IndexEntry, existing_files: &Vec<String>) -> (r: bool)
        ensures
            r == is_stale(self.notes_dir@, texts(existing_files@), entry@),
    {
        if entry.file_path.as_str().unicode_len() == 0 {
            let path = join_path(self.notes_dir.as_str(), entry.filename.as_str());
            !list_has(existing_files, path.as_str())
        } else {
            !list_has(existing_files, entry.file_path.as_str())
        }
    }

    /// Drops what the index and the registry hold for files that are gone:
    /// every entry whose file is not among `existing_files` leaves the index,
    /// and the shortcuts of its identity leave the registry. Returns the
    /// identities that left. Nothing is added, and the notes in memory stay.
    pub fn sync_with_filesystem(&mut self, existing_files: &Vec<String>) -> (removed: Vec<NoteId>)
        requires
            old(self).wf(),
        ensures
            final(self).wf(),
            removed@ == stale_ids(
                old(self).index.entries(),
                old(self).notes_dir@,
                texts(existing_files@),
            ),
            final(self).index.entries() == without_all(old(self).index.entries(), removed@),
            final(self).index.folders() == old(self).index.folders(),
            final(self).shortcuts.entries() == without_all(old(self).shortcuts.entries(), removed@),
            final(self).notes@ == old(self).notes@,
            final(self).notes_dir@ == old(self).notes_dir@,
    {
        let ghost all = self.index.entries();
        let ghost dir = self.notes_dir@;
        let ghost existing = texts(existing_files@);
        let ghost pred = |pair: (NoteId, IndexEntry)| is_stale(dir, existing, pair.1@);
        let mut to_remove: Vec<NoteId> = Vec::new();
        let mut i: usize = 0;
        proof {
            lemma_filter_start(all, pred);
            assert(to_remove@ =~= ids_of(all.take(0).filter(pred)));
        }
        while i < self.index.len()
            invariant
                i <= all.len(),
                all == self.index.entries(),
                dir == self.notes_dir@,
                existing == texts(existing_files@),
                pred == |pair: (NoteId, IndexEntry)| is_stale(dir, existing, pair.1@),
                to_remove@ == ids_of(all.take(i as int).filter(pred)),
            decreases all.len() - i,
        {
            let ghost before = all.take(i as int).filter(pred);
            let stale = self.entry_is_stale(self.index.entry_at(i), existing_files);
            if stale {
                to_remove.push(self.index.id_at(i));
            }
            proof {
                lemma_filter_step(all, pred, i as int);
                assert(pred(all[i as int]) == stale);
                if stale {
                    assert(to_remove@ =~= ids_of(before.push(all[i as int])));
                }
            }
            i += 1;
        }
        assert(all.take(i as int) =~= all);
        let ghost old_shortcuts = self.shortcuts.entries();
        let mut k: usize = 0;
        assert(to_remove@.skip(0) =~= to_remove@);
        while k < to_remove.len()
            invariant
                k <= to_remove.len(),
                self.wf(),
                without_all(self.index.entries(), to_remove@.skip(k as int)) == without_all(
                    all,
                    to_remove@,
                ),
                without_all(self.shortcuts.entries(), to_remove@.skip(k as int)) == without_all(
                    old_shortcuts,
                    to_remove@,
                ),
                self.index.folders() == old(self).index.folders(),
                self.notes@ == old(self).notes@,
                self.notes_dir@ == old(self).notes_dir@,
            decreases to_remove.len() - k,
        {
            let id = to_remove[k];
            proof {
                let rest = to_remove@.skip(k as int);
                assert(rest[0] == id);
                assert(rest.drop_first() =~= to_remove@.skip(k + 1));
            }
            self.index.remove_entry(&id);
            self.shortcuts.remove_shortcuts(&id);
            k += 1;
        }
        assert(to_remove@.skip(k as int) =~= Seq::<NoteId>::empty());
        to_remove
    }
}

/// A note file as it was found: its name, its full path and its text.
#[derive(Debug)]
pub struct SourceFile {
    pub filename: String,
    pub file_path: String,
    pub content: String,
}

/// `SourceFile` over mathematical strings.
pub struct SourceFileView {
    pub filename: Seq<char>,
    pub file_path: Seq<char>,
    pub content: Seq<char>,
}

impl View for SourceFile {
    type V = SourceFileView;

    open spec fn view(&self) -> SourceFileView {
        SourceFileView {
            filename: self.filename@,
            file_path: self.file_path@,
            content: self.content@,
        }
    }
}

/// What became of one file in a load pass.
#[derive(Debug)]
pub struct FileOutcome {
    /// The identity that the file was handled under: the one that the index
    /// holds for the file's name, else the one that was drawn.
    pub candidate: NoteId,
    /// The identity under which the file is indexed and kept in memory: the
    /// one in its header, else the candidate. For a file that was left out,
    /// the candidate.
    pub key: NoteId,
    /// No entry had the file's name before.
    pub is_new: bool,
    /// The time that the pass took for this file.
    pub stamp: Timestamp,
    /// The file was left out because the identity drawn for it is held
    /// already.
    pub clash: bool,
    /// The text that the file is to be rewritten with, where it lacks an
    /// identity of its own.
    pub rewrite: Option<String>,
    /// Why the file was left out, where its header cannot be read.
    pub error: Option<FrontmatterError>,
}

/// Some entry of `index` has the file name `filename`.
pub open spec fn knows_filename(index: Seq<(NoteId, IndexEntryView)>, filename: Seq<char>) -> bool {
    exists|i: int| 0 <= i < index.len() && (#[trigger] index[i]).1.filename == filename
}

/// The first entry of `index` with the file name `filename` stands at `i`.
pub open spec fn first_known(
    index: Seq<(NoteId, IndexEntryView)>,
    filename: Seq<char>,
    i: int,
) -> bool {
    &&& 0 <= i < index.len()
    &&& index[i].1.filename == filename
    &&& forall|j: int| 0 <= j < i ==> (#[trigger] index[j]).1.filename != filename
}

/// The identity that a file named `filename` is handled under: that of the
/// first entry with this file name, else `fresh`.
pub open spec fn candidate_id(
    index: Seq<(NoteId, IndexEntryView)>,
    filename: Seq<char>,
    fresh: NoteId,
) -> NoteId {
    if knows_filename(index, filename) {
        index[choose|i: int| first_known(index, filename, i)].0
    } else {
        fresh
    }
}

/// The tags that the index holds for `id`; none where it has no entry.
pub open spec fn prior_tags(index: Seq<(NoteId, IndexEntryView)>, id: NoteId) -> Seq<Seq<char>> {
    match value_of(index, id) {
        Some(e) => e.tags,
        None => Seq::empty(),
    }
}

/// The creation time that the index holds for `id`; `now` where it has no
/// entry.
pub open spec fn prior_created(
    index: Seq<(NoteId, IndexEntryView)>,
    id: NoteId,
    now: Timestamp,
) -> Timestamp {
    match value_of(index, id) {
        Some(e) => e.created_at,
        None => now,
    }
}

/// The note that `file` reads as against `index`. Its identity is the one in
/// the file's header, else the candidate; it carries the tags and the
/// creation time that the index holds for that identity, and is updated at
/// `now`.
pub open spec fn file_note(
    index: Seq<(NoteId, IndexEntryView)>,
    file: SourceFileView,
    fresh: NoteId,
    now: Timestamp,
) -> Result<NoteView, (FrontmatterFault, Seq<char>)> {
    let candidate = candidate_id(index, file.filename, fresh);
    match markdown_note(candidate, file.filename, file.content, Seq::empty(), now, now) {
        Err(e) => Err(e),
        Ok(read) => Ok(
            NoteView {
                tags: prior_tags(index, read.id),
                created_at: prior_created(index, read.id, now),
                ..read
            },
        ),
    }
}

/// The identity drawn for `file` would be its identity and is held already:
/// the index does not know the file's name, the file has no identity of its
/// own, and `fresh` has an entry or a note.
pub open spec fn draw_clashes(
    index: Seq<(NoteId, IndexEntryView)>,
    notes: Seq<(NoteId, NoteView)>,
    file: SourceFileView,
    fresh: NoteId,
) -> bool {
    &&& !knows_filename(index, file.filename)
    &&& !has_embedded_identity(file.content)
    &&& has_id(index, fresh) || has_id(notes, fresh)
}

/// The note that `file` is taken in as; none where its header cannot be read
/// or the identity drawn for it is held already.
pub open spec fn taken_note(
    index: Seq<(NoteId, IndexEntryView)>,
    notes: Seq<(NoteId, NoteView)>,
    file: SourceFileView,
    fresh: NoteId,
    now: Timestamp,
) -> Option<NoteView> {
    match file_note(index, file, fresh, now) {
        Ok(note) => if draw_clashes(index, notes, file, fresh) {
            None
        } else {
            Some(note)
        },
        Err(_) => None,
    }
}

/// The entry that the index gets for `file` read as `note`.
pub open spec fn entry_for(file: SourceFileView, note: NoteView) -> IndexEntryView {
    IndexEntryView {
        filename: file.filename,
        file_path: file.file_path,
        title: note.title,
        created_at: note.created_at,
        updated_at: note.updated_at,
        tags: note.tags,
    }
}

/// The index after `file` was taken in: with the file's entry under the
/// note's identity, or unchanged where the file was left out.
pub open spec fn index_after(
    index: Seq<(NoteId, IndexEntryView)>,
    notes: Seq<(NoteId, NoteView)>,
    file: SourceFileView,
    fresh: NoteId,
    now: Timestamp,
) -> Seq<(NoteId, IndexEntryView)> {
    match taken_note(index, notes, file, fresh, now) {
        Some(note) => upsert(index, note.id, entry_for(file, note)),
        None => index,
    }
}

/// The notes in memory after `file` was taken in: with the file's note under
/// its own identity, or unchanged where the file was left out.
pub open spec fn notes_after(
    index: Seq<(NoteId, IndexEntryView)>,
    notes: Seq<(NoteId, NoteView)>,
    file: SourceFileView,
    fresh: NoteId,
    now: Timestamp,
) -> Seq<(NoteId, NoteView)> {
    match taken_note(index, notes, file, fresh, now) {
        Some(note) => upsert(notes, note.id, note),
        None => notes,
    }
}

/// The text that a file is healed with: none where it holds an identity of its
/// own, else the note in its canonical form.
pub open spec fn rewrite_for(content: Seq<char>, note: NoteView) -> Option<Seq<char>> {
    if has_embedded_identity(content) {
        None
    } else {
        Some(note_text(note))
    }
}

/// `outcome` is what taking `file` in against `index` and `notes` gives.
pub open spec fn outcome_of(
    outcome: FileOutcome,
    index: Seq<(NoteId, IndexEntryView)>,
    notes: Seq<(NoteId, NoteView)>,
    file: SourceFileView,
    fresh: NoteId,
    now: Timestamp,
) -> bool {
    &&& outcome.candidate == candidate_id(index, file.filename, fresh)
    &&& outcome.is_new == !knows_filename(index, file.filename)
    &&& outcome.stamp == now
    &&& match file_note(index, file, fresh, now) {
        Ok(note) => {
            &&& outcome.error is None
            &&& outcome.clash == draw_clashes(index, notes, file, fresh)
            &&& if outcome.clash {
                outcome.key == outcome.candidate && outcome.rewrite is None
            } else {
                &&& outcome.key == note.id
                &&& match rewrite_for(file.content, note) {
                    Some(text) => outcome.rewrite is Some && outcome.rewrite->Some_0@ == text,
                    None => outcome.rewrite is None,
                }
            }
        },
        Err((fault, detail)) => {
            &&& !outcome.clash
            &&& outcome.key == outcome.candidate
            &&& outcome.rewrite is None
            &&& outcome.error is Some
            &&& outcome.error->Some_0.fault == fault
            &&& outcome.error->Some_0.detail@ == detail
        },
    }
}

/// The first entry with a file name is the same in the index and in its
/// views.
pub proof fn lemma_first_known(entries: Seq<(NoteId, IndexEntry)>, filename: Seq<char>, i: int)
    requires
        first_with_filename(entries, filename, i),
    ensures
        knows_filename(map_values(entries, entry_view_fn()), filename),
        first_known(map_values(entries, entry_view_fn()), filename, i),
        (choose|k: int| first_known(map_values(entries, entry_view_fn()), filename, k)) == i,
        forall|fresh: NoteId|
            candidate_id(map_values(entries, entry_view_fn()), filename, fresh) == entries[i].0,
{
    let views = map_values(entries, entry_view_fn());
    assert(views[i].1.filename == filename);
    assert forall|j: int| 0 <= j < i implies (#[trigger] views[j]).1.filename != filename by {
        assert(entries[j].1.filename@ != filename);
    }
    assert(first_known(views, filename, i));
    let k = choose|k: int| first_known(views, filename, k);
    assert(first_known(views, filename, k));
    if k < i {
        assert(views[k].1.filename != filename);
    } else if i < k {
        assert(views[i].1.filename != filename);
    }
}

/// Where no entry has a file name, no view of an entry has it.
pub proof fn lemma_unknown_filename(entries: Seq<(NoteId, IndexEntry)>, filename: Seq<char>)
    requires
        !has_filename(entries, filename),
    ensures
        !knows_filename(map_values(entries, entry_view_fn()), filename),
{
    let views = map_values(entries, entry_view_fn());
    if knows_filename(views, filename) {
        let i = choose|i: int| 0 <= i < views.len() && (#[trigger] views[i]).1.filename == filename;
        assert(entries[i].1.filename@ == filename);
    }
}

impl NoteApp {
    /// The notes in memory over mathematical strings.
    pub open spec fn note_views(&self) -> Seq<(NoteId, NoteView)> {
        map_values(self.notes@, note_view_fn())
    }

    /// Takes one file in, with `fresh` as the identity for a file whose name
    /// the index does not know and `now` as the time. The file is read as a
    /// note; its entry goes into the index and the note into memory, both
    /// under the note's identity, which is the one in the file's header or
    /// else the candidate; and the outcome says whether the file is to be
    /// rewritten. A file whose header cannot be read is left out, and so is
    /// a new file without an identity of its own where `fresh` is held
    /// already: then nothing changes.
    pub fn ingest_with(&mut self, file: &SourceFile, fresh: NoteId, now: Timestamp) -> (outcome:
        FileOutcome)
        requires
            old(self).wf(),
        ensures
            final(self).wf(),
            outcome_of(
                outcome,
                old(self).index.entry_views(),
                old(self).note_views(),
                file@,
                fresh,
                now,
            ),
            final(self).index.entry_views() == index_after(
                old(self).index.entry_views(),
                old(self).note_views(),
                file@,
                fresh,
                now,
            ),
            final(self).note_views() == notes_after(
                old(self).index.entry_views(),
                old(self).note_views(),
                file@,
                fresh,
                now,
            ),
            final(self).index.folders() == old(self).index.folders(),
            final(self).shortcuts.entries() == old(self).shortcuts.entries(),
            final(self).notes_dir@ == old(self).notes_dir@,
    {
        let ghost entries = self.index.entries();
        let ghost views = self.index.entry_views();
        let ghost old_notes = self.notes@;
        let (candidate, is_new) = match self.index.find_by_filename(file.filename.as_str()) {
            Some((id, _)) => {
                proof {
                    let i = choose|i: int|
                        first_with_filename(entries, file.filename@, i) && entries[i].0 == id;
                    lemma_first_known(entries, file.filename@, i);
                }
                (id, false)
            },
            None => {
                proof {
                    lemma_unknown_filename(entries, file.filename@);
                }
                (fresh, true)
            },
        };
        assert(candidate == candidate_id(views, file.filename@, fresh));
        let own = Note::has_uuid_in_frontmatter(file.content.as_str());
        let no_tags: Vec<String> = Vec::new();
        assert(texts(no_tags@) =~= Seq::<Seq<char>>::empty());
        match Note::from_markdown(
            candidate,
            file.filename.clone(),
            file.content.clone(),
            no_tags,
            now,
            now,
        ) {
            Err(e) => FileOutcome {
                candidate,
                key: candidate,
                is_new,
                stamp: now,
                clash: false,
                rewrite: None,
                error: Some(e),
            },
            Ok(read) => {
                proof {
                    lemma_map_values(entries, entry_view_fn(), fresh, entries[0].1);
                    lemma_map_values(old_notes, note_view_fn(), fresh, old_notes[0].1);
                    lemma_map_values(entries, entry_view_fn(), read.id, entries[0].1);
                }
                if is_new && !own && (self.index.get_entry(&fresh).is_some() || self.notes.get(
                    fresh,
                ).is_some()) {
                    return FileOutcome {
                        candidate,
                        key: candidate,
                        is_new,
                        stamp: now,
                        clash: true,
                        rewrite: None,
                        error: None,
                    };
                }
                let key = read.id;
                let (tags, created_at) = match self.index.get_entry(&key) {
                    Some(e) => (copy_strings(&e.tags), e.created_at),
                    None => (Vec::new(), now),
                };
                assert(texts(tags@) =~= prior_tags(views, key));
                assert(created_at == prior_created(views, key, now));
                let entry_tags = copy_strings(&tags);
                let note = Note {
                    id: read.id,
                    filename: read.filename,
                    meta: read.meta,
                    title: read.title,
                    created_at,
                    updated_at: read.updated_at,
                    content: read.content,
                    tags,
                };
                assert(Ok::<NoteView, (FrontmatterFault, Seq<char>)>(note@) == file_note(
                    views,
                    file@,
                    fresh,
                    now,
                ));
                let rewrite = if own {
                    None
                } else {
                    Some(note.to_markdown())
                };
                let entry = IndexEntry {
                    filename: file.filename.clone(),
                    file_path: file.file_path.clone(),
                    title: note.title.clone(),
                    created_at: note.created_at,
                    updated_at: note.updated_at,
                    tags: entry_tags,
                };
                proof {
                    assert(entry@ == entry_for(file@, note@));
                    lemma_map_values(entries, entry_view_fn(), key, entry);
                    lemma_map_values(old_notes, note_view_fn(), key, note);
                }
                self.index.add_entry(key, entry);
                self.notes.insert(key, note);
                FileOutcome {
                    candidate,
                    key,
                    is_new,
                    stamp: now,
                    clash: false,
                    rewrite,
                    error: None,
                }
            },
        }
    }
}

/// Every pair holds a note under the note's own identity.
pub open spec fn keyed_by_identity(notes: Seq<(NoteId, NoteView)>) -> bool {
    forall|k: int| 0 <= k < notes.len() ==> (#[trigger] notes[k]).0 == notes[k].1.id
}

/// What a load pass did: the identities that left the index because their
/// files are gone, and what became of each file, in the files' order.
#[derive(Debug)]
pub struct LoadReport {
    pub removed: Vec<NoteId>,
    pub outcomes: Vec<FileOutcome>,
}

/// The paths of a list of files.
pub open spec fn paths_of(files: Seq<SourceFile>) -> Seq<Seq<char>> {
    Seq::new(files.len(), |i: int| files[i].file_path@)
}

/// The identity and the time that each outcome was reached with.
pub open spec fn draws_of(outcomes: Seq<FileOutcome>) -> Seq<(NoteId, Timestamp)> {
    Seq::new(outcomes.len(), |i: int| (outcomes[i].candidate, outcomes[i].stamp))
}

/// The index and the notes in memory after `files` were taken in one after
/// the other, the file at position `i` with the identity and the time at
/// position `i` of `draws`.
#[verifier::opaque]
pub open spec fn loaded(
    index: Seq<(NoteId, IndexEntryView)>,
    notes: Seq<(NoteId, NoteView)>,
    files: Seq<SourceFile>,
    draws: Seq<(NoteId, Timestamp)>,
) -> (Seq<(NoteId, IndexEntryView)>, Seq<(NoteId, NoteView)>)
    decreases files.len(),
{
    if files.len() == 0 {
        (index, notes)
    } else {
        let before = loaded(index, notes, files.drop_last(), draws.drop_last());
        let file = files.last()@;
        let draw = draws.last();
        (
            index_after(before.0, before.1, file, draw.0, draw.1),
            notes_after(before.0, before.1, file, draw.0, draw.1),
        )
    }
}

/// With no file, a pass leaves the index and the notes as they are.
pub proof fn lemma_loaded_none(
    index: Seq<(NoteId, IndexEntryView)>,
    notes: Seq<(NoteId, NoteView)>,
    draws: Seq<(NoteId, Timestamp)>,
)
    ensures
        loaded(index, notes, Seq::empty(), draws) == (index, notes),
{
    reveal(loaded);
}

/// A pass over `files` with one more file at the end is the pass over `files`
/// and then that file taken in.
pub proof fn lemma_loaded_more(
    index: Seq<(NoteId, IndexEntryView)>,
    notes: Seq<(NoteId, NoteView)>,
    files: Seq<SourceFile>,
    draws: Seq<(NoteId, Timestamp)>,
    file: SourceFile,
    draw: (NoteId, Timestamp),
)
    ensures
        loaded(index, notes, files.push(file), draws.push(draw)) == ({
            let before = loaded(index, notes, files, draws);
            (
                index_after(before.0, before.1, file@, draw.0, draw.1),
                notes_after(before.0, before.1, file@, draw.0, draw.1),
            )
        }),
{
    reveal(loaded);
    assert(files.push(file).drop_last() =~= files);
    assert(draws.push(draw).drop_last() =~= draws);
}

/// What holds of the identity and the time that a pass draws for a file: an
/// identity drawn for a new file is a random UUID, and the time counts its
/// nanoseconds within a second.
pub open spec fn drawn_well(outcome: FileOutcome) -> bool {
    &&& outcome.is_new ==> is_random_uuid(outcome.candidate.bits)
    &&& outcome.stamp.within_second()
}

impl NoteApp {
    /// Takes one file in as `ingest_with` does, with a new random identity
    /// for a file whose name the index does not know and with the current
    /// time. The outcome holds the identity and the time that were used. A
    /// new file without an identity of its own is kept under the identity
    /// drawn for it only where neither the index nor the notes in memory
    /// hold that identity; else it is left out and the outcome says so.
    pub fn ingest(&mut self, file: &SourceFile) -> (outcome: FileOutcome)
        requires
            old(self).wf(),
        ensures
            final(self).wf(),
            drawn_well(outcome),
            outcome_of(
                outcome,
                old(self).index.entry_views(),
                old(self).note_views(),
                file@,
                outcome.candidate,
                outcome.stamp,
            ),
            final(self).index.entry_views() == index_after(
                old(self).index.entry_views(),
                old(self).note_views(),
                file@,
                outcome.candidate,
                outcome.stamp,
            ),
            final(self).note_views() == notes_after(
                old(self).index.entry_views(),
                old(self).note_views(),
                file@,
                outcome.candidate,
                outcome.stamp,
            ),
            final(self).index.folders() == old(self).index.folders(),
            final(self).shortcuts.entries() == old(self).shortcuts.entries(),
            final(self).notes_dir@ == old(self).notes_dir@,
    {
        let known = self.index.find_by_filename(file.filename.as_str()).is_some();
        let fresh = if known {
            NoteId { bits: 0 }
        } else {
            NoteId::mint()
        };
        let now = Timestamp::now();
        let ghost views = self.index.entry_views();
        let ghost notes = self.note_views();
        let outcome = self.ingest_with(file, fresh, now);
        proof {
            assert(candidate_id(views, file@.filename, outcome.candidate) == candidate_id(
                views,
                file@.filename,
                fresh,
            ));
            if known {
                let entries = old(self).index.entries();
                let i = choose|i: int| first_with_filename(entries, file.filename@, i);
                lemma_first_known(entries, file.filename@, i);
            } else {
                lemma_unknown_filename(old(self).index.entries(), file.filename@);
                assert(outcome.candidate == fresh);
            }
            assert(draw_clashes(views, notes, file@, outcome.candidate) == draw_clashes(
                views,
                notes,
                file@,
                fresh,
            ));
        }
        outcome
    }

    /// One load pass over the note files that are there. First the entries
    /// and shortcuts of files that are gone are dropped, as
    /// `sync_with_filesystem` does against the files' paths; then the notes in
    /// memory are cleared; then each file is taken in, in order, as `ingest`
    /// does. The caller rewrites the files for which an outcome holds a text,
    /// and stores the index.
    pub fn load_notes(&mut self, files: &Vec<SourceFile>) -> (report: LoadReport)
        requires
            old(self).wf(),
        ensures
            final(self).wf(),
            report.removed@ == stale_ids(
                old(self).index.entries(),
                old(self).notes_dir@,
                paths_of(files@),
            ),
            report.outcomes@.len() == files@.len(),
            (final(self).index.entry_views(), final(self).note_views()) == loaded(
                without_all(old(self).index.entry_views(), report.removed@),
                Seq::empty(),
                files@,
                draws_of(report.outcomes@),
            ),
            forall|i: int|
                0 <= i < files@.len() ==> drawn_well(#[trigger] report.outcomes@[i]) && ({
                    let before = loaded(
                        without_all(old(self).index.entry_views(), report.removed@),
                        Seq::empty(),
                        files@.take(i),
                        draws_of(report.outcomes@).take(i),
                    );
                    outcome_of(
                        report.outcomes@[i],
                        before.0,
                        before.1,
                        files@[i]@,
                        report.outcomes@[i].candidate,
                        report.outcomes@[i].stamp,
                    )
                }),
            keyed_by_identity(final(self).note_views()),
            final(self).index.folders() == old(self).index.folders(),
            final(self).shortcuts.entries() == without_all(
                old(self).shortcuts.entries(),
                report.removed@,
            ),
            final(self).notes_dir@ == old(self).notes_dir@,
    {
        let mut existing: Vec<String> = Vec::new();
        let mut n: usize = 0;
        while n < files.len()
            invariant
                n <= files.len(),
                existing.len() == n,
                forall|j: int| 0 <= j < n ==> (#[trigger] existing@[j])@ == files@[j].file_path@,
            decreases files.len() - n,
        {
            existing.push(files[n].file_path.clone());
            n += 1;
        }
        assert(texts(existing@) =~= paths_of(files@));
        let removed = self.sync_with_filesystem(&existing);
        self.notes.clear();
        let ghost base = without_all(old(self).index.entry_views(), removed@);
        let ghost none = Seq::<(NoteId, NoteView)>::empty();
        proof {
            lemma_map_without_all(old(self).index.entries(), entry_view_fn(), removed@);
            assert(self.note_views() =~= none);
            assert(files@.take(0) =~= Seq::<SourceFile>::empty());
            lemma_loaded_none(base, none, Seq::empty());
        }
        let mut outcomes: Vec<FileOutcome> = Vec::new();
        let ghost mut draws: Seq<(NoteId, Timestamp)> = Seq::empty();
        let mut i: usize = 0;
        while i < files.len()
            invariant
                i <= files.len(),
                outcomes.len() == i,
                self.wf(),
                draws =~= draws_of(outcomes@),
                (self.index.entry_views(), self.note_views()) == loaded(
                    base,
                    none,
                    files@.take(i as int),
                    draws,
                ),
                forall|j: int|
                    0 <= j < i ==> drawn_well(#[trigger] outcomes@[j]) && ({
                        let before = loaded(base, none, files@.take(j), draws.take(j));
                        outcome_of(
                            outcomes@[j],
                            before.0,
                            before.1,
                            files@[j]@,
                            outcomes@[j].candidate,
                            outcomes@[j].stamp,
                        )
                    }),
                self.index.folders() == old(self).index.folders(),
                self.shortcuts.entries() == without_all(old(self).shortcuts.entries(), removed@),
                self.notes_dir@ == old(self).notes_dir@,
            decreases files.len() - i,
        {
            let ghost draws_before = draws;
            let ghost outcomes_before = outcomes@;
            let outcome = self.ingest(&files[i]);
            proof {
                let draw = (outcome.candidate, outcome.stamp);
                draws = draws_before.push(draw);
                lemma_loaded_more(
                    base,
                    none,
                    files@.take(i as int),
                    draws_before,
                    files@[i as int],
                    draw,
                );
                assert(files@.take(i as int).push(files@[i as int]) =~= files@.take(i + 1));
                assert(draws.take(i as int) =~= draws_before);
            }
            outcomes.push(outcome);
            proof {
                assert forall|j: int| 0 <= j < i + 1 implies drawn_well(#[trigger] outcomes@[j])
                    && ({
                    let before = loaded(base, none, files@.take(j), draws.take(j));
                    outcome_of(
                        outcomes@[j],
                        before.0,
                        before.1,
                        files@[j]@,
                        outcomes@[j].candidate,
                        outcomes@[j].stamp,
                    )
                }) by {
                    if j < i {
                        assert(outcomes@[j] == outcomes_before[j]);
                        assert(draws.take(j) =~= draws_before.take(j));
                    }
                }
            }
            i += 1;
        }
        assert(files@.take(i as int) =~= files@);
        assert(draws_of(outcomes@) == draws);
        proof {
            crate::laws::law_notes_are_keyed_by_identity(base, files@, draws);
        }
        LoadReport { removed, outcomes }
    }
}

/// The note answers the query: the lower-case form of its title, of its body
/// or of one of its tags holds the lower-case form of the query.
pub open spec fn note_matches(note: NoteView, query: Seq<char>) -> bool {
    let q = lowercase(query);
    ||| occurs_in(lowercase(note.title), q)
    ||| occurs_in(lowercase(note.content), q)
    ||| exists|i: int| 0 <= i < note.tags.len() && occurs_in(lowercase(#[trigger] note.tags[i]), q)
}

/// The tag that names the folder `folder`: `folder` itself where it opens
/// with `@`, else `@` and `folder`.
pub open spec fn folder_tag_of(folder: Seq<char>) -> Seq<char> {
    if is_folder_tag(folder) {
        folder
    } else {
        seq!['@'] + folder
    }
}

/// The pairs that a list of found notes stands for.
pub open spec fn found_notes(found: Seq<(NoteId, &Note)>) -> Seq<(NoteId, Note)> {
    Seq::new(found.len(), |i: int| (found[i].0, *found[i].1))
}

/// Whether `note` answers a query whose lower-case form is `query`.
pub fn note_answers(note: &Note, query: &Vec<char>) -> (r: bool)
    ensures
        r == (occurs_in(lowercase(note@.title), query@) || occurs_in(
            lowercase(note@.content),
            query@,
        ) || exists|i: int|
            0 <= i < note@.tags.len() && occurs_in(lowercase(#[trigger] note@.tags[i]), query@)),
{
    if lowercase_contains(note.title.as_str(), query) {
        return true;
    }
    if lowercase_contains(note.content.as_str(), query) {
        return true;
    }
    let mut i: usize = 0;
    while i < note.tags.len()
        invariant
            i <= note.tags.len(),
            forall|j: int| 0 <= j < i ==> !occurs_in(lowercase(#[trigger] note@.tags[j]), query@),
        decreases note.tags.len() - i,
    {
        if lowercase_contains(note.tags[i].as_str(), query) {
            assert(note@.tags[i as int] == note.tags@[i as int]@);
            return true;
        }
        assert(note@.tags[i as int] == note.tags@[i as int]@);
        i += 1;
    }
    false
}

/// The tag that names the folder `folder`.
pub fn folder_tag(folder: &str) -> (r: String)
    ensures
        r@ == folder_tag_of(folder@),
{
    if starts_with_char(folder, '@') {
        folder.to_owned()
    } else {
        proof {
            reveal_strlit("@");
            assert("@"@ =~= seq!['@']);
        }
        let mut out = String::from_str("@");
        out.append(folder);
        out
    }
}

impl NoteApp {
    /// The note in memory under `id`.
    pub fn get_note(&self, id: &NoteId) -> (r: Option<&Note>)
        requires
            self.wf(),
        ensures
            match r {
                Some(n) => value_of(self.notes@, *id) == Some(*n),
                None => value_of(self.notes@, *id).is_none(),
            },
    {
        self.notes.get(*id)
    }

    /// The notes that answer `query`, whatever the case of the letters: those
    /// whose title, body or one of whose tags holds it. In the order of the
    /// notes in memory.
    pub fn search_notes(&self, query: &str) -> (found: Vec<(NoteId, &Note)>)
        ensures
            found_notes(found@) == self.notes@.filter(
                |pair: (NoteId, Note)| note_matches(pair.1@, query@),
            ),
    {
        let lowered = to_lowercase(query);
        let q = chars_of(lowered.as_str());
        let mut out: Vec<(NoteId, &Note)> = Vec::new();
        let ghost all = self.notes@;
        let ghost pred = |pair: (NoteId, Note)| note_matches(pair.1@, query@);
        let mut i: usize = 0;
        proof {
            lemma_filter_start(all, pred);
            assert(found_notes(out@) =~= all.take(0).filter(pred));
        }
        while i < self.notes.len()
            invariant
                i <= all.len(),
                all == self.notes@,
                q@ == lowercase(query@),
                pred == |pair: (NoteId, Note)| note_matches(pair.1@, query@),
                found_notes(out@) == all.take(i as int).filter(pred),
            decreases all.len() - i,
        {
            let ghost before = found_notes(out@);
            let note = self.notes.value_at(i);
            let id = self.notes.key_at(i);
            let hit = note_answers(note, &q);
            if hit {
                out.push((id, note));
            }
            proof {
                lemma_filter_step(all, pred, i as int);
                assert(pred(all[i as int]) == hit);
                if hit {
                    assert(found_notes(out@) =~= before.push(all[i as int]));
                }
            }
            i += 1;
        }
        assert(all.take(i as int) =~= all);
        out
    }

    /// The notes in the folder `folder`: those that carry its folder tag. In
    /// the order of the notes in memory.
    pub fn get_notes_by_folder(&self, folder: &str) -> (found: Vec<(NoteId, &Note)>)
        ensures
            found_notes(found@) == self.notes@.filter(
                |pair: (NoteId, Note)| pair.1@.tags.contains(folder_tag_of(folder@)),
            ),
    {
        let tag = folder_tag(folder);
        let mut out: Vec<(NoteId, &Note)> = Vec::new();
        let ghost all = self.notes@;
        let ghost pred = |pair: (NoteId, Note)| pair.1@.tags.contains(folder_tag_of(folder@));
        let mut i: usize = 0;
        proof {
            lemma_filter_start(all, pred);
            assert(found_notes(out@) =~= all.take(0).filter(pred));
        }
        while i < self.notes.len()
            invariant
                i <= all.len(),
                all == self.notes@,
                tag@ == folder_tag_of(folder@),
                pred == |pair: (NoteId, Note)| pair.1@.tags.contains(folder_tag_of(folder@)),
                found_notes(out@) == all.take(i as int).filter(pred),
            decreases all.len() - i,
        {
            let ghost before = found_notes(out@);
            let note = self.notes.value_at(i);
            let id = self.notes.key_at(i);
            let hit = list_has(&note.tags, tag.as_str());
            if hit {
                out.push((id, note));
            }
            proof {
                lemma_filter_step(all, pred, i as int);
                assert(pred(all[i as int]) == hit);
                if hit {
                    assert(found_notes(out@) =~= before.push(all[i as int]));
                }
            }
            i += 1;
        }
        assert(all.take(i as int) =~= all);
        out
    }

    /// The watched folders.
    pub fn list_watched_folders(&self) -> (folders: &Vec<String>)
        ensures
            texts(folders@) == self.index.folders(),
    {
        self.index.get_watched_folders()
    }
}

/// Some note of `notes` carries the tag `tag`.
pub open spec fn carries_tag(notes: Seq<(NoteId, Note)>, tag: Seq<char>) -> bool {
    exists|i: int| 0 <= i < notes.len() && (#[trigger] notes[i]).1@.tags.contains(tag)
}

/// The notes of `found` come latest first.
pub open spec fn latest_first(found: Seq<(NoteId, Note)>) -> bool {
    forall|i: int, j: int|
        0 <= i < j < found.len() ==> !(#[trigger] found[i]).1.updated_at.earlier(
            (#[trigger] found[j]).1.updated_at,
        )
}

/// Notes of `found` with one update time come in the order in which `notes`
/// holds them.
pub open spec fn keeps_order_of(found: Seq<(NoteId, Note)>, notes: Seq<(NoteId, Note)>) -> bool {
    forall|i: int, j: int|
        0 <= i < j < found.len() && (#[trigger] found[i]).1.updated_at == (
        #[trigger] found[j]).1.updated_at ==> index_of(notes, found[i].0) < index_of(
            notes,
            found[j].0,
        )
}

/// Why a change of the watched folders is refused.
#[derive(Clone, Copy, Debug, PartialEq, Eq, Structural)]
pub enum FolderError {
    /// The folder to watch does not exist.
    Missing,
    /// The folder to watch is watched already.
    Duplicate,
    /// The folder to let go is not watched.
    Unknown,
}

/// The identities of the entries whose path opens with `folder`, in the
/// index's order.
pub open spec fn ids_below(entries: Seq<(NoteId, IndexEntry)>, folder: Seq<char>) -> Seq<NoteId> {
    ids_of(entries.filter(|pair: (NoteId, IndexEntry)| has_prefix(pair.1@.file_path, folder)))
}

/// One of the first `n` notes of `notes` carries the tag `tag`.
pub open spec fn carried_before(notes: Seq<(NoteId, Note)>, n: int, tag: Seq<char>) -> bool {
    exists|k: int| 0 <= k < n && k < notes.len() && (#[trigger] notes[k]).1@.tags.contains(tag)
}

/// The folder tags of the sorted list `sorted`, in its order.
pub fn folder_tags_among(sorted: &Vec<String>) -> (folders: Vec<String>)
    requires
        strictly_sorted(texts(sorted@)),
    ensures
        strictly_sorted(texts(folders@)),
        forall|t: Seq<char>|
            #[trigger] texts(folders@).contains(t) <==> is_folder_tag(t) && texts(
                sorted@,
            ).contains(t),
{
    let ghost all = texts(sorted@);
    let mut out: Vec<String> = Vec::new();
    let mut i: usize = 0;
    while i < sorted.len()
        invariant
            i <= sorted.len(),
            all == texts(sorted@),
            strictly_sorted(all),
            strictly_sorted(texts(out@)),
            forall|t: Seq<char>|
                #[trigger] texts(out@).contains(t) <==> is_folder_tag(t) && among_first(
                    all,
                    i as int,
                    t,
                ),
            forall|j: int, k: int|
                0 <= j < out.len() && i <= k < all.len() ==> text_lt(
                    #[trigger] texts(out@)[j],
                    #[trigger] all[k],
                ),
        decreases sorted.len() - i,
    {
        let ghost before = texts(out@);
        let ghost tag = all[i as int];
        assert(tag == sorted@[i as int]@);
        let keep = starts_with_char(sorted[i].as_str(), '@');
        if keep {
            out.push(sorted[i].clone());
        }
        proof {
            let after = texts(out@);
            if keep {
                assert(after =~= before.push(tag));
            } else {
                assert(after =~= before);
            }
            assert forall|t: Seq<char>| #[trigger]
                after.contains(t) <==> is_folder_tag(t) && among_first(all, i + 1, t) by {
                assert(before.contains(t) <==> is_folder_tag(t) && among_first(all, i as int, t));
                if after.contains(t) {
                    let k = choose|k: int| 0 <= k < after.len() && after[k] == t;
                    if k < before.len() {
                        assert(before[k] == t);
                        assert(before.contains(t));
                        let q = choose|q: int| 0 <= q < i && q < all.len() && #[trigger] all[q]
                            == t;
                        assert(all[q] == t);
                    } else {
                        assert(all[i as int] == t);
                    }
                }
                if is_folder_tag(t) && among_first(all, i + 1, t) {
                    let q = choose|q: int| 0 <= q < i + 1 && q < all.len() && #[trigger] all[q]
                        == t;
                    if q < i {
                        assert(among_first(all, i as int, t));
                        assert(before.contains(t));
                        let k = choose|k: int| 0 <= k < before.len() && before[k] == t;
                        assert(after[k] == t);
                    } else {
                        assert(after[before.len() as int] == t);
                    }
                }
            }
            assert forall|j: int, k: int|
                0 <= j < after.len() && i + 1 <= k < all.len() implies text_lt(
                #[trigger] after[j],
                #[trigger] all[k],
            ) by {
                if j < before.len() {
                    assert(after[j] == before[j]);
                }
            }
            assert forall|a: int, b: int| 0 <= a < b < after.len() implies text_lt(
                #[trigger] after[a],
                #[trigger] after[b],
            ) by {
                if b < before.len() {
                    assert(after[a] == before[a] && after[b] == before[b]);
                } else {
                    assert(after[a] == before[a]);
                    assert(text_lt(before[a], all[i as int]));
                }
            }
        }
        i += 1;
    }
    proof {
        assert forall|t: Seq<char>| #[trigger]
            texts(out@).contains(t) <==> is_folder_tag(t) && all.contains(t) by {
            assert(texts(out@).contains(t) <==> is_folder_tag(t) && among_first(all, i as int, t));
            if all.contains(t) {
                let k = choose|k: int| 0 <= k < all.len() && all[k] == t;
                assert(all[k] == t);
            }
            if among_first(all, i as int, t) {
                let k = choose|k: int| 0 <= k < i && k < all.len() && #[trigger] all[k] == t;
                assert(all[k] == t);
            }
        }
    }
    out
}

impl NoteApp {
    /// The notes in memory, latest update first; notes with one update time
    /// in the order in which they are held.
    pub fn list_notes(&self) -> (found: Vec<(NoteId, &Note)>)
        requires
            self.wf(),
        ensures
            found_notes(found@).to_multiset() == self.notes@.to_multiset(),
            latest_first(found_notes(found@)),
            keeps_order_of(found_notes(found@), self.notes@),
    {
        let mut out: Vec<(NoteId, &Note)> = Vec::new();
        let ghost all = self.notes@;
        let mut i: usize = 0;
        proof {
            assert(all.take(0) =~= Seq::<(NoteId, Note)>::empty());
            assert(found_notes(out@) =~= Seq::<(NoteId, Note)>::empty());
        }
        while i < self.notes.len()
            invariant
                i <= all.len(),
                all == self.notes@,
                distinct_ids(all),
                found_notes(out@).to_multiset() == all.take(i as int).to_multiset(),
                latest_first(found_notes(out@)),
                keeps_order_of(found_notes(out@), all),
                forall|j: int|
                    0 <= j < out.len() ==> index_of(all, (#[trigger] found_notes(out@)[j]).0) < i,
            decreases all.len() - i,
        {
            let note = self.notes.value_at(i);
            let id = self.notes.key_at(i);
            let ghost sorted = found_notes(out@);
            let mut p: usize = 0;
            let mut stop = false;
            while p < out.len() && !stop
                invariant
                    p <= out.len(),
                    sorted == found_notes(out@),
                    forall|j: int|
                        0 <= j < p ==> !(#[trigger] sorted[j]).1.updated_at.earlier(
                            note.updated_at,
                        ),
                    stop ==> p < out.len() && sorted[p as int].1.updated_at.earlier(
                        note.updated_at,
                    ),
                decreases out.len() - p + if stop { 0int } else { 1int },
            {
                assert(sorted[p as int].1 == *out@[p as int].1);
                if out[p].1.updated_at.is_earlier(&note.updated_at) {
                    stop = true;
                } else {
                    p += 1;
                }
            }
            out.insert(p, (id, note));
            proof {
                let after = found_notes(out@);
                assert(after =~= sorted.insert(p as int, all[i as int]));
                vstd::seq_lib::to_multiset_insert(sorted, p as int, all[i as int]);
                assert(all.take(i + 1) =~= all.take(i as int).push(all[i as int]));
                vstd::seq_lib::to_multiset_build(all.take(i as int), all[i as int]);
                lemma_index_of(all, id, i as int);
                assert forall|a: int, b: int| 0 <= a < b < after.len() implies !(
                #[trigger] after[a]).1.updated_at.earlier((#[trigger] after[b]).1.updated_at) && (
                after[a].1.updated_at == after[b].1.updated_at ==> index_of(all, after[a].0)
                    < index_of(all, after[b].0)) by {
                    let x = if a < p { a } else { a - 1 };
                    let y = if b < p { b } else { b - 1 };
                    if a == p {
                        assert(after[b] == sorted[y]);
                        if y > p {
                            assert(!sorted[p as int].1.updated_at.earlier(sorted[y].1.updated_at));
                        }
                    } else if b == p {
                        assert(after[a] == sorted[x]);
                    } else {
                        assert(after[a] == sorted[x]);
                        assert(after[b] == sorted[y]);
                    }
                }
                assert forall|j: int| 0 <= j < after.len() implies index_of(
                    all,
                    (#[trigger] after[j]).0,
                ) < i + 1 by {
                    if j != p {
                        let x = if j < p { j } else { j - 1 };
                        assert(after[j] == sorted[x]);
                    }
                }
            }
            i += 1;
        }
        assert(all.take(i as int) =~= all);
        out
    }

    /// Every tag that a note in memory carries, once each, in the order of
    /// strings.
    pub fn get_all_tags(&self) -> (tags: Vec<String>)
        ensures
            strictly_sorted(texts(tags@)),
            forall|t: Seq<char>| texts(tags@).contains(t) <==> carries_tag(self.notes@, t),
    {
        let mut out: Vec<String> = Vec::new();
        let ghost all = self.notes@;
        let mut i: usize = 0;
        while i < self.notes.len()
            invariant
                i <= all.len(),
                all == self.notes@,
                strictly_sorted(texts(out@)),
                forall|t: Seq<char>|
                    #[trigger] texts(out@).contains(t) <==> carried_before(all, i as int, t),
            decreases all.len() - i,
        {
            let note = self.notes.value_at(i);
            let ghost before = texts(out@);
            add_sorted(&mut out, &note.tags);
            proof {
                let after = texts(out@);
                assert forall|t: Seq<char>| #[trigger]
                    after.contains(t) <==> carried_before(all, i + 1, t) by {
                    assert(before.contains(t) <==> carried_before(all, i as int, t));
                    if carried_before(all, i + 1, t) {
                        let k = choose|k: int|
                            0 <= k < i + 1 && k < all.len() && (#[trigger] all[k]).1@.tags.contains(
                                t,
                            );
                        if k < i {
                            assert(carried_before(all, i as int, t));
                        }
                    }
                    if carried_before(all, i as int, t) {
                        let k = choose|k: int|
                            0 <= k < i && k < all.len() && (#[trigger] all[k]).1@.tags.contains(t);
                        assert(all[k].1@.tags.contains(t));
                    }
                    if texts(note.tags@).contains(t) {
                        assert(all[i as int].1@.tags.contains(t));
                    }
                }
            }
            i += 1;
        }
        proof {
            assert forall|t: Seq<char>| texts(out@).contains(t) <==> carries_tag(all, t) by {
                assert(texts(out@).contains(t) <==> carried_before(all, i as int, t));
                if carries_tag(all, t) {
                    let k = choose|k: int|
                        0 <= k < all.len() && (#[trigger] all[k]).1@.tags.contains(t);
                    assert(all[k].1@.tags.contains(t));
                }
                if carried_before(all, i as int, t) {
                    let k = choose|k: int|
                        0 <= k < i && k < all.len() && (#[trigger] all[k]).1@.tags.contains(t);
                    assert(all[k].1@.tags.contains(t));
                }
            }
        }
        out
    }

    /// The folder tags that a note in memory carries, once each, in the order
    /// of strings.
    pub fn get_folders(&self) -> (folders: Vec<String>)
        ensures
            strictly_sorted(texts(folders@)),
            forall|t: Seq<char>|
                texts(folders@).contains(t) <==> is_folder_tag(t) && carries_tag(self.notes@, t),
    {
        let tags = self.get_all_tags();
        folder_tags_among(&tags)
    }

    /// Watches one more folder. A folder that does not exist or is watched
    /// already is refused, and nothing changes. The caller stores the index
    /// and runs a load pass.
    pub fn add_watched_folder(&mut self, folder_path: String, exists_on_disk: bool) -> (r: Result<
        (),
        FolderError,
    >)
        requires
            old(self).wf(),
        ensures
            final(self).wf(),
            r == if !exists_on_disk {
                Err::<(), FolderError>(FolderError::Missing)
            } else if old(self).index.folders().contains(folder_path@) {
                Err::<(), FolderError>(FolderError::Duplicate)
            } else {
                Ok::<(), FolderError>(())
            },
            final(self).index.folders() == if r is Ok {
                old(self).index.folders().push(folder_path@)
            } else {
                old(self).index.folders()
            },
            final(self).index.entries() == old(self).index.entries(),
            final(self).shortcuts.entries() == old(self).shortcuts.entries(),
            final(self).notes@ == old(self).notes@,
            final(self).notes_dir@ == old(self).notes_dir@,
    {
        if !exists_on_disk {
            return Err(FolderError::Missing);
        }
        if list_has(self.index.get_watched_folders(), folder_path.as_str()) {
            return Err(FolderError::Duplicate);
        }
        self.index.add_watched_folder(folder_path);
        Ok(())
    }

    /// Lets a watched folder go, and with it every entry of the index whose
    /// path opens with the folder's. A folder that is not watched is refused,
    /// and nothing changes. The caller stores the index and runs a load pass.
    pub fn remove_watched_folder(&mut self, folder_path: &str) -> (r: Result<(), FolderError>)
        requires
            old(self).wf(),
        ensures
            final(self).wf(),
            r == if old(self).index.folders().contains(folder_path@) {
                Ok::<(), FolderError>(())
            } else {
                Err::<(), FolderError>(FolderError::Unknown)
            },
            final(self).index.folders() == without_folder(
                old(self).index.folders(),
                folder_path@,
            ),
            final(self).index.entries() == if r is Ok {
                without_all(
                    old(self).index.entries(),
                    ids_below(old(self).index.entries(), folder_path@),
                )
            } else {
                old(self).index.entries()
            },
            final(self).shortcuts.entries() == old(self).shortcuts.entries(),
            final(self).notes@ == old(self).notes@,
            final(self).notes_dir@ == old(self).notes_dir@,
    {
        if !self.index.remove_watched_folder(folder_path) {
            return Err(FolderError::Unknown);
        }
        let folder = chars_of(folder_path);
        let ghost all = self.index.entries();
        let ghost pred = |pair: (NoteId, IndexEntry)| has_prefix(pair.1@.file_path, folder_path@);
        let mut to_remove: Vec<NoteId> = Vec::new();
        let mut i: usize = 0;
        proof {
            lemma_filter_start(all, pred);
            assert(to_remove@ =~= ids_of(all.take(0).filter(pred)));
        }
        while i < self.index.len()
            invariant
                i <= all.len(),
                all == self.index.entries(),
                folder@ == folder_path@,
                pred == |pair: (NoteId, IndexEntry)| has_prefix(pair.1@.file_path, folder_path@),
                to_remove@ == ids_of(all.take(i as int).filter(pred)),
            decreases all.len() - i,
        {
            let ghost before = all.take(i as int).filter(pred);
            let path = chars_of(self.index.entry_at(i).file_path.as_str());
            let below = matches_at(&path, 0, &folder);
            if below {
                to_remove.push(self.index.id_at(i));
            }
            proof {
                lemma_filter_step(all, pred, i as int);
                assert(pred(all[i as int]) == below);
                if below {
                    assert(to_remove@ =~= ids_of(before.push(all[i as int])));
                }
            }
            i += 1;
        }
        assert(all.take(i as int) =~= all);
        let mut k: usize = 0;
        assert(to_remove@.skip(0) =~= to_remove@);
        while k < to_remove.len()
            invariant
                k <= to_remove.len(),
                self.wf(),
                without_all(self.index.entries(), to_remove@.skip(k as int)) == without_all(
                    all,
                    to_remove@,
                ),
                self.index.folders() == without_folder(old(self).index.folders(), folder_path@),
                self.shortcuts.entries() == old(self).shortcuts.entries(),
                self.notes@ == old(self).notes@,
                self.notes_dir@ == old(self).notes_dir@,
            decreases to_remove.len() - k,
        {
            let id = to_remove[k];
            proof {
                let rest = to_remove@.skip(k as int);
                assert(rest[0] == id);
                assert(rest.drop_first() =~= to_remove@.skip(k + 1));
            }
            self.index.remove_entry(&id);
            k += 1;
        }
        assert(to_remove@.skip(k as int) =~= Seq::<NoteId>::empty());
        Ok(())
    }
}

} // verus!
