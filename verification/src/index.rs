//! The note index: what is remembered of each note between runs, and the
//! folders that are watched.

use crate::clock::Timestamp;
use crate::id_map::{
    distinct_ids, has_id, lemma_index_of, lemma_map_values, lemma_upsert, map_values, upsert,
    value_of, without, IdMap,
};
use crate::identity::NoteId;
use crate::note::is_folder_tag;
use crate::text::{copy_strings, list_has, position_of, same_text, starts_with_char, texts};
use crate::filters::{lemma_filter_start, lemma_filter_step};
use vstd::prelude::*;

verus! {

/// What the index remembers of one note.
#[derive(Debug)]
pub struct IndexEntry {
    pub filename: String,
    pub file_path: String,
    pub title: String,
    pub created_at: Timestamp,
    pub updated_at: Timestamp,
    pub tags: Vec<String>,
}

/// `IndexEntry` over mathematical strings.
pub struct IndexEntryView {
    pub filename: Seq<char>,
    pub file_path: Seq<char>,
    pub title: Seq<char>,
    pub created_at: Timestamp,
    pub updated_at: Timestamp,
    pub tags: Seq<Seq<char>>,
}

impl View for IndexEntry {
    type V = IndexEntryView;

    open spec fn view(&self) -> IndexEntryView {
        IndexEntryView {
            filename: self.filename@,
            file_path: self.file_path@,
            title: self.title@,
            created_at: self.created_at,
            updated_at: self.updated_at,
            tags: texts(self.tags@),
        }
    }
}

impl Clone for IndexEntry {
    fn clone(&self) -> (r: Self)
        ensures
            r@ == self@,
    {
        IndexEntry {
            filename: self.filename.clone(),
            file_path: self.file_path.clone(),
            title: self.title.clone(),
            created_at: self.created_at,
            updated_at: self.updated_at,
            tags: copy_strings(&self.tags),
        }
    }
}

/// The function that takes an entry to its view.
pub open spec fn entry_view_fn() -> spec_fn(IndexEntry) -> IndexEntryView {
    |e: IndexEntry| e@
}

/// The index: an entry for each known note, and the watched folders.
#[derive(Debug)]
pub struct NoteIndex {
    pub(crate) mappings: IdMap<IndexEntry>,
    pub(crate) watched_folders: Vec<String>,
}

/// The first pair of `s` whose entry has the file name `filename` stands at
/// `i`.
pub open spec fn first_with_filename(
    s: Seq<(NoteId, IndexEntry)>,
    filename: Seq<char>,
    i: int,
) -> bool {
    &&& 0 <= i < s.len()
    &&& s[i].1.filename@ == filename
    &&& forall|j: int| 0 <= j < i ==> (#[trigger] s[j]).1.filename@ != filename
}

/// Some pair of `s` has an entry with the file name `filename`.
pub open spec fn has_filename(s: Seq<(NoteId, IndexEntry)>, filename: Seq<char>) -> bool {
    exists|i: int| 0 <= i < s.len() && (#[trigger] s[i]).1.filename@ == filename
}

/// The pair's entry carries the tag `tag`.
pub open spec fn tagged(pair: (NoteId, IndexEntry), tag: Seq<char>) -> bool {
    pair.1@.tags.contains(tag)
}

/// The pair's entry lies in the folder `folder`: `folder` is a folder tag and
/// the entry carries it.
pub open spec fn in_folder(pair: (NoteId, IndexEntry), folder: Seq<char>) -> bool {
    is_folder_tag(folder) && pair.1@.tags.contains(folder)
}

/// The pairs that a list of found entries stands for.
pub open spec fn found_pairs(found: Seq<(NoteId, &IndexEntry)>) -> Seq<(NoteId, IndexEntry)> {
    Seq::new(found.len(), |i: int| (found[i].0, *found[i].1))
}

/// `s` with the folder `folder` at its end, unless it is there already.
pub open spec fn with_folder(s: Seq<Seq<char>>, folder: Seq<char>) -> Seq<Seq<char>> {
    if s.contains(folder) {
        s
    } else {
        s.push(folder)
    }
}

/// `s` without the folder `folder`.
pub open spec fn without_folder(s: Seq<Seq<char>>, folder: Seq<char>) -> Seq<Seq<char>> {
    if s.contains(folder) {
        s.remove(s.index_of(folder))
    } else {
        s
    }
}

impl NoteIndex {
    /// The entries, in the order in which their identities came in.
    pub closed spec fn entries(&self) -> Seq<(NoteId, IndexEntry)> {
        self.mappings@
    }

    /// The watched folders, in the order in which they were added.
    pub closed spec fn folders(&self) -> Seq<Seq<char>> {
        texts(self.watched_folders@)
    }

    /// The entries over mathematical strings.
    pub open spec fn entry_views(&self) -> Seq<(NoteId, IndexEntryView)> {
        map_values(self.entries(), entry_view_fn())
    }

    /// No identity has two entries and no folder is watched twice.
    pub open spec fn wf(&self) -> bool {
        distinct_ids(self.entries()) && self.folders().no_duplicates()
    }

    /// An index without entries and without folders.
    pub fn new() -> (index: NoteIndex)
        ensures
            index.entries() == Seq::<(NoteId, IndexEntry)>::empty(),
            index.folders() == Seq::<Seq<char>>::empty(),
            index.wf(),
    {
        let index = NoteIndex { mappings: IdMap::new(), watched_folders: Vec::new() };
        assert(index.folders() =~= Seq::<Seq<char>>::empty());
        index
    }

    /// Watches `folder`, unless it is watched already.
    pub fn add_watched_folder(&mut self, folder: String)
        requires
            old(self).wf(),
        ensures
            final(self).folders() == with_folder(old(self).folders(), folder@),
            final(self).entries() == old(self).entries(),
            final(self).wf(),
    {
        if !list_has(&self.watched_folders, folder.as_str()) {
            let ghost before = self.folders();
            self.watched_folders.push(folder);
            assert(self.folders() =~= before.push(folder@));
        }
    }

    /// Stops watching `folder`; `false` where it was not watched.
    pub fn remove_watched_folder(&mut self, folder: &str) -> (removed: bool)
        requires
            old(self).wf(),
        ensures
            removed == old(self).folders().contains(folder@),
            final(self).folders() == without_folder(old(self).folders(), folder@),
            final(self).entries() == old(self).entries(),
            final(self).wf(),
    {
        match position_of(&self.watched_folders, folder) {
            Some(pos) => {
                let ghost before = self.folders();
                assert(before[pos as int] == folder@);
                assert(before.index_of(folder@) == pos) by {
                    let k = before.index_of(folder@);
                    assert(before[k] == folder@);
                }
                self.watched_folders.remove(pos);
                assert(self.folders() =~= before.remove(pos as int));
                true
            },
            None => false,
        }
    }

    /// The watched folders.
    pub fn get_watched_folders(&self) -> (folders: &Vec<String>)
        ensures
            texts(folders@) == self.folders(),
    {
        &self.watched_folders
    }

    /// Puts `entry` under `id`, in the place of the entry that was there.
    pub fn add_entry(&mut self, id: NoteId, entry: IndexEntry)
        requires
            old(self).wf(),
        ensures
            final(self).entries() == upsert(old(self).entries(), id, entry),
            final(self).folders() == old(self).folders(),
            final(self).wf(),
    {
        self.mappings.insert(id, entry);
    }

    /// Takes the entry of `id` out and returns it.
    pub fn remove_entry(&mut self, id: &NoteId) -> (removed: Option<IndexEntry>)
        requires
            old(self).wf(),
        ensures
            final(self).entries() == without(old(self).entries(), *id),
            final(self).folders() == old(self).folders(),
            final(self).wf(),
            removed == value_of(old(self).entries(), *id),
    {
        self.mappings.remove(*id)
    }

    /// The entry of `id`.
    pub fn get_entry(&self, id: &NoteId) -> (entry: Option<&IndexEntry>)
        requires
            self.wf(),
        ensures
            match entry {
                Some(e) => value_of(self.entries(), *id) == Some(*e),
                None => value_of(self.entries(), *id).is_none(),
            },
    {
        self.mappings.get(*id)
    }

    /// The number of entries.
    pub fn len(&self) -> (n: usize)
        ensures
            n == self.entries().len(),
    {
        self.mappings.len()
    }

    /// The identity at position `i`.
    pub fn id_at(&self, i: usize) -> (id: NoteId)
        requires
            i < self.entries().len(),
        ensures
            id == self.entries()[i as int].0,
    {
        self.mappings.key_at(i)
    }

    /// The entry at position `i`.
    pub fn entry_at(&self, i: usize) -> (entry: &IndexEntry)
        requires
            i < self.entries().len(),
        ensures
            *entry == self.entries()[i as int].1,
    {
        self.mappings.value_at(i)
    }

    /// The first entry with the file name `filename`, with its identity.
    pub fn find_by_filename(&self, filename: &str) -> (found: Option<(NoteId, &IndexEntry)>)
        ensures
            match found {
                Some((id, entry)) => exists|i: int|
                    first_with_filename(self.entries(), filename@, i) && self.entries()[i] == (
                        id,
                        *entry,
                    ),
                None => !has_filename(self.entries(), filename@),
            },
    {
        let mut i: usize = 0;
        while i < self.mappings.len()
            invariant
                i <= self.entries().len(),
                forall|j: int|
                    0 <= j < i ==> (#[trigger] self.entries()[j]).1.filename@ != filename@,
            decreases self.entries().len() - i,
        {
            let entry = self.mappings.value_at(i);
            if same_text(entry.filename.as_str(), filename) {
                assert(first_with_filename(self.entries(), filename@, i as int));
                return Some((self.mappings.key_at(i), entry));
            }
            i += 1;
        }
        None
    }

    /// The entries that carry the tag `tag`, with their identities, in the
    /// index's order.
    pub fn find_by_tag(&self, tag: &str) -> (found: Vec<(NoteId, &IndexEntry)>)
        ensures
            found_pairs(found@) == self.entries().filter(
                |pair: (NoteId, IndexEntry)| tagged(pair, tag@),
            ),
    {
        let mut out: Vec<(NoteId, &IndexEntry)> = Vec::new();
        let ghost all = self.entries();
        let ghost pred = |pair: (NoteId, IndexEntry)| tagged(pair, tag@);
        let mut i: usize = 0;
        proof {
            lemma_filter_start(all, pred);
            assert(found_pairs(out@) =~= all.take(0).filter(pred));
        }
        while i < self.mappings.len()
            invariant
                i <= all.len(),
                all == self.entries(),
                pred == |pair: (NoteId, IndexEntry)| tagged(pair, tag@),
                found_pairs(out@) == all.take(i as int).filter(pred),
            decreases all.len() - i,
        {
            let ghost before = found_pairs(out@);
            let entry = self.mappings.value_at(i);
            let id = self.mappings.key_at(i);
            let hit = list_has(&entry.tags, tag);
            if hit {
                out.push((id, entry));
            }
            proof {
                lemma_filter_step(all, pred, i as int);
                assert(pred(all[i as int]) == hit);
                if hit {
                    assert(found_pairs(out@) =~= before.push(all[i as int]));
                }
            }
            i += 1;
        }
        assert(all.take(i as int) =~= all);
        out
    }

    /// The entries that lie in the folder `folder`, with their identities, in
    /// the index's order. A `folder` that does not open with `@` names no
    /// folder.
    pub fn find_by_folder(&self, folder: &str) -> (found: Vec<(NoteId, &IndexEntry)>)
        ensures
            found_pairs(found@) == self.entries().filter(
                |pair: (NoteId, IndexEntry)| in_folder(pair, folder@),
            ),
    {
        let mut out: Vec<(NoteId, &IndexEntry)> = Vec::new();
        let ghost all = self.entries();
        let ghost pred = |pair: (NoteId, IndexEntry)| in_folder(pair, folder@);
        let names_folder = starts_with_char(folder, '@');
        let mut i: usize = 0;
        proof {
            lemma_filter_start(all, pred);
            assert(found_pairs(out@) =~= all.take(0).filter(pred));
        }
        while i < self.mappings.len()
            invariant
                i <= all.len(),
                all == self.entries(),
                names_folder == is_folder_tag(folder@),
                pred == |pair: (NoteId, IndexEntry)| in_folder(pair, folder@),
                found_pairs(out@) == all.take(i as int).filter(pred),
            decreases all.len() - i,
        {
            let ghost before = found_pairs(out@);
            let entry = self.mappings.value_at(i);
            let id = self.mappings.key_at(i);
            let hit = names_folder && list_has(&entry.tags, folder);
            if hit {
                out.push((id, entry));
            }
            proof {
                lemma_filter_step(all, pred, i as int);
                assert(pred(all[i as int]) == hit);
                if hit {
                    assert(found_pairs(out@) =~= before.push(all[i as int]));
                }
            }
            i += 1;
        }
        assert(all.take(i as int) =~= all);
        out
    }
}

/// The entry `e` under the new file name `filename`, updated at `stamp`.
pub open spec fn renamed(
    e: IndexEntryView,
    filename: Seq<char>,
    stamp: Timestamp,
) -> IndexEntryView {
    IndexEntryView { filename, updated_at: stamp, ..e }
}

/// The entry `e` with the tags `tags`.
pub open spec fn retagged(e: IndexEntryView, tags: Seq<Seq<char>>) -> IndexEntryView {
    IndexEntryView { tags, ..e }
}

/// `acc` with each pair of `items` put in, in order; of several pairs with one
/// identity the last one stays.
pub open spec fn upsert_all(
    acc: Seq<(NoteId, IndexEntry)>,
    items: Seq<(NoteId, IndexEntry)>,
) -> Seq<(NoteId, IndexEntry)>
    decreases items.len(),
{
    if items.len() == 0 {
        acc
    } else {
        upsert_all(upsert(acc, items[0].0, items[0].1), items.drop_first())
    }
}

/// `acc` with each folder of `items` added, in order, unless it is there.
pub open spec fn with_folders(acc: Seq<Seq<char>>, items: Seq<Seq<char>>) -> Seq<Seq<char>>
    decreases items.len(),
{
    if items.len() == 0 {
        acc
    } else {
        with_folders(with_folder(acc, items[0]), items.drop_first())
    }
}

impl NoteIndex {
    /// An index of the given entries and watched folders. Of several
    /// entries with one identity the last one stays, and a folder that is
    /// given twice is watched once.
    pub fn from_parts(entries: Vec<(NoteId, IndexEntry)>, folders: Vec<String>) -> (index:
        NoteIndex)
        ensures
            index.wf(),
            index.entries() == upsert_all(Seq::empty(), entries@),
            index.folders() == with_folders(Seq::empty(), texts(folders@)),
    {
        let mut index = NoteIndex::new();
        let ghost all = entries@;
        let mut entries = entries;
        let mut folders = folders;
        while entries.len() > 0
            invariant
                index.wf(),
                index.folders() == Seq::<Seq<char>>::empty(),
                upsert_all(index.entries(), entries@) == upsert_all(Seq::empty(), all),
            decreases entries.len(),
        {
            let ghost rest = entries@;
            let pair = entries.remove(0);
            assert(entries@ =~= rest.drop_first());
            index.add_entry(pair.0, pair.1);
        }
        let ghost given = texts(folders@);
        while folders.len() > 0
            invariant
                index.wf(),
                index.entries() == upsert_all(Seq::empty(), all),
                with_folders(index.folders(), texts(folders@)) == with_folders(
                    Seq::empty(),
                    given,
                ),
            decreases folders.len(),
        {
            let ghost rest = texts(folders@);
            let folder = folders.remove(0);
            assert(texts(folders@) =~= rest.drop_first());
            assert(rest[0] == folder@);
            index.add_watched_folder(folder);
        }
        index
    }

    /// Gives the entry of `id` the file name `new_filename` and the time
    /// `now` as its last update. Without an entry of `id` nothing changes.
    pub fn update_filename_at(&mut self, id: &NoteId, new_filename: String, now: Timestamp)
        requires
            old(self).wf(),
        ensures
            final(self).wf(),
            final(self).folders() == old(self).folders(),
            final(self).entry_views() == match value_of(old(self).entry_views(), *id) {
                Some(e) => upsert(old(self).entry_views(), *id, renamed(e, new_filename@, now)),
                None => old(self).entry_views(),
            },
    {
        proof {
            lemma_map_values(self.entries(), entry_view_fn(), *id, self.entries()[0].1);
        }
        match self.mappings.position(*id) {
            Some(i) => {
                let old_entry = self.mappings.value_at(i);
                let entry = IndexEntry {
                    filename: new_filename,
                    file_path: old_entry.file_path.clone(),
                    title: old_entry.title.clone(),
                    created_at: old_entry.created_at,
                    updated_at: now,
                    tags: copy_strings(&old_entry.tags),
                };
                proof {
                    lemma_index_of(self.entries(), *id, i as int);
                    lemma_map_values(self.entries(), entry_view_fn(), *id, entry);
                    assert(entry@ == renamed(old_entry@, new_filename@, now));
                }
                self.mappings.insert(*id, entry);
            },
            None => {},
        }
    }

    /// Gives the entry of `id` the file name `new_filename` and the current
    /// time as its last update. Without an entry of `id` nothing changes.
    pub fn update_filename(&mut self, id: &NoteId, new_filename: String)
        requires
            old(self).wf(),
        ensures
            final(self).wf(),
            final(self).folders() == old(self).folders(),
            final(self).entry_views() == match value_of(old(self).entry_views(), *id) {
                Some(e) => upsert(
                    old(self).entry_views(),
                    *id,
                    renamed(
                        e,
                        new_filename@,
                        value_of(final(self).entry_views(), *id)->Some_0.updated_at,
                    ),
                ),
                None => old(self).entry_views(),
            },
    {
        let now = Timestamp::now();
        proof {
            lemma_map_values(self.entries(), entry_view_fn(), *id, self.entries()[0].1);
            if let Some(e) = value_of(self.entry_views(), *id) {
                lemma_upsert(self.entry_views(), *id, renamed(e, new_filename@, now));
            }
        }
        self.update_filename_at(id, new_filename, now);
    }

    /// Gives the entry of `id` the tags `tags`; `false` without an entry of
    /// `id`, and nothing changes.
    pub fn set_tags(&mut self, id: &NoteId, tags: Vec<String>) -> (done: bool)
        requires
            old(self).wf(),
        ensures
            final(self).wf(),
            final(self).folders() == old(self).folders(),
            done == has_id(old(self).entries(), *id),
            final(self).entry_views() == match value_of(old(self).entry_views(), *id) {
                Some(e) => upsert(old(self).entry_views(), *id, retagged(e, texts(tags@))),
                None => old(self).entry_views(),
            },
    {
        proof {
            lemma_map_values(self.entries(), entry_view_fn(), *id, self.entries()[0].1);
        }
        match self.mappings.position(*id) {
            Some(i) => {
                let old_entry = self.mappings.value_at(i);
                let entry = IndexEntry {
                    filename: old_entry.filename.clone(),
                    file_path: old_entry.file_path.clone(),
                    title: old_entry.title.clone(),
                    created_at: old_entry.created_at,
                    updated_at: old_entry.updated_at,
                    tags,
                };
                proof {
                    lemma_index_of(self.entries(), *id, i as int);
                    lemma_map_values(self.entries(), entry_view_fn(), *id, entry);
                    assert(entry@ == retagged(old_entry@, texts(tags@)));
                }
                self.mappings.insert(*id, entry);
                true
            },
            None => false,
        }
    }
}

} // verus!
