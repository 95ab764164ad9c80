//! What holds of the library as a whole: statements that relate several of its
//! functions, each proved from the functions' own contracts.

use crate::app::{
    candidate_id, draw_clashes, entry_for, file_note, first_known, index_after, is_stale,
    keyed_by_identity, knows_filename, lemma_loaded_more, lemma_loaded_none, loaded, notes_after,
    paths_of, rewrite_for, stale_ids, taken_note, SourceFile, SourceFileView,
};
use crate::clock::Timestamp;
use crate::filters::lemma_filter_single;
use crate::id_map::{
    distinct_ids, has_id, ids_of, index_of, lemma_index_of, lemma_map_values, lemma_map_without_all,
    lemma_upsert, lemma_without, lemma_without_all, map_values, upsert, value_of, without,
    without_all,
};
use crate::identity::{uuid_of_text, NoteId};
use crate::index::{entry_view_fn, IndexEntry, IndexEntryView};
use crate::note::{
    embedded_identity, file_stem, has_embedded_identity, has_header, header_close, header_closes_at,
    id_key, markdown_note, marker, marker_line_at, meta_of_header, note_text, rendered,
    resolved_title, split_frontmatter_spec, title_key, written_entries, NoteView,
};
use crate::text::occurs_at;
use crate::yaml::{yaml_field, yaml_mapping_text, YamlFieldView};
use vstd::prelude::*;

verus! {

/// Some line of `header` is the marker.
pub open spec fn holds_marker_line(header: Seq<char>) -> bool {
    exists|j: int|
        0 <= j < header.len() && (j == 0 || header[j - 1] == '\n') && occurs_at(
            header,
            marker(),
            j,
        )
}

/// Every line of `header` ends with a line feed: the text is empty or its
/// last character is a line feed.
pub open spec fn ends_its_lines(header: Seq<char>) -> bool {
    header.len() == 0 || header.last() == '\n'
}

/// A note file that is put together from a header text and a body splits into
/// that header text and that body again, where the header's lines all end and
/// none of them is the marker.
pub proof fn law_rendered_splits_back(header: Seq<char>, body: Seq<char>)
    requires
        ends_its_lines(header),
        !holds_marker_line(header),
    ensures
        split_frontmatter_spec(rendered(header, body)) == Some((header, body)),
{
    let text = rendered(header, body);
    let m = marker();
    let close = 4 + header.len() as int;
    assert(text.len() == 8 + header.len() + body.len());
    assert(forall|k: int| 0 <= k < 4 ==> text[k] == m[k]);
    assert(forall|k: int| 0 <= k < header.len() ==> text[4 + k] == header[k]);
    assert(forall|k: int| 0 <= k < 4 ==> text[close + k] == m[k]);
    assert(forall|k: int| 0 <= k < body.len() ==> text[close + 4 + k] == body[k]);
    assert(occurs_at(text, m, 0));
    assert(occurs_at(text, m, close));
    assert(text[close - 1] == '\n') by {
        if header.len() == 0 {
            assert(text[3] == m[3]);
        } else {
            assert(text[4 + (header.len() - 1)] == header[header.len() - 1]);
        }
    }
    assert(marker_line_at(text, close));
    assert forall|j: int| 4 <= j < close implies !marker_line_at(text, j) by {
        if marker_line_at(text, j) {
            assert(text[j + 3] == m[3]);
            if j + 3 < close {
                assert forall|k: int| 0 <= k < m.len() implies #[trigger] header[j - 4 + k]
                    == m[k] by {
                    assert(text[j + k] == m[k]);
                    assert(text[4 + (j - 4 + k)] == header[j - 4 + k]);
                }
                assert(occurs_at(header, m, j - 4));
                if j > 4 {
                    assert(text[4 + (j - 5)] == header[j - 5]);
                }
                assert(holds_marker_line(header));
            } else {
                let k = j + 3 - close;
                assert(text[close + k] == m[k]);
            }
        }
    }
    assert(header_closes_at(text, close));
    let c = header_close(text);
    assert(header_closes_at(text, c));
    assert(c == close);
    assert(text.subrange(4, close) =~= header);
    assert(text.subrange(close + 4, text.len() as int) =~= body);
}

/// The header text that a note is written with reads back as what was
/// written: its lines all end and none is the marker, the title field reads
/// as the note's title, and the identity field reads as a text that holds
/// the note's identity as a UUID.
pub open spec fn header_reads_back(note: NoteView) -> bool {
    let header = yaml_mapping_text(written_entries(note.title, note.id));
    &&& ends_its_lines(header)
    &&& !holds_marker_line(header)
    &&& yaml_field(header, title_key()) == YamlFieldView::Text(note.title)
    &&& yaml_field(header, id_key()) is Text
    &&& uuid_of_text(yaml_field(header, id_key())->Text_0) == Some(note.id.bits)
}

/// Reading a note back. Let a note with a title be written as a file, and
/// let the header text that is written read back as what was written. Then
/// the file reads as a note with the same identity, the same title and the
/// same body, whatever candidate identity, file name, tags and times it is
/// read with.
pub proof fn law_round_trip(
    note: NoteView,
    candidate: NoteId,
    filename: Seq<char>,
    tags: Seq<Seq<char>>,
    created_at: Timestamp,
    updated_at: Timestamp,
)
    requires
        note.title.len() > 0,
        header_reads_back(note),
    ensures
        markdown_note(candidate, filename, note_text(note), tags, created_at, updated_at) is Ok,
        ({
            let back = markdown_note(
                candidate,
                filename,
                note_text(note),
                tags,
                created_at,
                updated_at,
            )->Ok_0;
            back.id == note.id && back.title == note.title && back.content == note.content
        }),
        has_embedded_identity(note_text(note)),
        embedded_identity(note_text(note)) == Some(note.id),
{
    let header = yaml_mapping_text(written_entries(note.title, note.id));
    law_rendered_splits_back(header, note.content);
}

/// A file with an identity in its header keeps it. Whatever the index and
/// the notes in memory hold and whatever identity and time the pass brings
/// along, such a file reads without fault as a note with the identity of its
/// header, it is taken in under that identity, and it is not rewritten.
pub proof fn law_embedded_identity_is_kept(
    index: Seq<(NoteId, IndexEntryView)>,
    notes: Seq<(NoteId, NoteView)>,
    file: SourceFileView,
    fresh: NoteId,
    now: Timestamp,
)
    requires
        has_embedded_identity(file.content),
    ensures
        taken_note(index, notes, file, fresh, now) is Some,
        Some(taken_note(index, notes, file, fresh, now)->Some_0.id) == embedded_identity(
            file.content,
        ),
        rewrite_for(file.content, taken_note(index, notes, file, fresh, now)->Some_0) is None,
{
}

/// A file without an identity in its header is rewritten with one. Where such
/// a file is taken in, its note has the candidate's identity, and the text it
/// is rewritten with is a header that holds the note's title and then that
/// identity, and after the header the note's body.
pub proof fn law_missing_identity_is_written(
    index: Seq<(NoteId, IndexEntryView)>,
    notes: Seq<(NoteId, NoteView)>,
    file: SourceFileView,
    fresh: NoteId,
    now: Timestamp,
)
    requires
        !has_embedded_identity(file.content),
        taken_note(index, notes, file, fresh, now) is Some,
    ensures
        ({
            let note = taken_note(index, notes, file, fresh, now)->Some_0;
            let id = candidate_id(index, file.filename, fresh);
            &&& note.id == id
            &&& rewrite_for(file.content, note) == Some(
                rendered(
                    yaml_mapping_text(written_entries(note.title, id)),
                    note.content,
                ),
            )
        }),
{
}

/// A healed file holds its identity. Where the header text that a file is
/// rewritten with reads back as a header with the identity `id`, its lines
/// all end and none is the marker, the rewritten file has an identity of its
/// own, namely `id`; so by `law_embedded_identity_is_kept` no later pass
/// rewrites it.
pub proof fn law_healed_file_holds_identity(header: Seq<char>, body: Seq<char>, id: NoteId)
    requires
        ends_its_lines(header),
        !holds_marker_line(header),
        meta_of_header(header) is Ok,
        meta_of_header(header)->Ok_0.id == Some(id),
    ensures
        has_embedded_identity(rendered(header, body)),
        embedded_identity(rendered(header, body)) == Some(id),
{
    law_rendered_splits_back(header, body);
}

/// A file without a header gets one, and its text stays as the body. Such a
/// file always reads without fault; the text it is rewritten with is a header
/// with the resolved title and the identity, and after it the whole text of
/// the file as it was.
pub proof fn law_headerless_file_is_healed(
    index: Seq<(NoteId, IndexEntryView)>,
    file: SourceFileView,
    fresh: NoteId,
    now: Timestamp,
)
    requires
        !has_header(file.content),
    ensures
        file_note(index, file, fresh, now) is Ok,
        ({
            let note = file_note(index, file, fresh, now)->Ok_0;
            let id = candidate_id(index, file.filename, fresh);
            let title = resolved_title(None, file.content, file.filename);
            &&& note.id == id
            &&& note.title == title
            &&& note.content == file.content
            &&& file_stem(file.filename).len() > 0 ==> note.title.len() > 0
            &&& rewrite_for(file.content, note) == Some(
                rendered(yaml_mapping_text(written_entries(title, id)), file.content),
            )
        }),
{
}

/// One file gone, one entry gone. Where the file of exactly one entry is
/// missing, a synchronisation takes out that entry's identity and no other:
/// the index is left without that one entry, and of any registry the
/// shortcuts of that identity go while every other note keeps its own.
pub proof fn law_single_stale_entry<V>(
    entries: Seq<(NoteId, IndexEntry)>,
    shortcuts: Seq<(NoteId, V)>,
    dir: Seq<char>,
    existing: Seq<Seq<char>>,
    k: int,
)
    requires
        distinct_ids(entries),
        distinct_ids(shortcuts),
        0 <= k < entries.len(),
        is_stale(dir, existing, entries[k].1@),
        forall|j: int|
            0 <= j < entries.len() && j != k ==> !is_stale(
                dir,
                existing,
                (#[trigger] entries[j]).1@,
            ),
    ensures
        stale_ids(entries, dir, existing) == seq![entries[k].0],
        without_all(entries, stale_ids(entries, dir, existing)) == entries.remove(k),
        without_all(entries, stale_ids(entries, dir, existing)).len() == entries.len() - 1,
        without_all(shortcuts, stale_ids(entries, dir, existing)) == without(
            shortcuts,
            entries[k].0,
        ),
        !has_id(without_all(shortcuts, stale_ids(entries, dir, existing)), entries[k].0),
        forall|other: NoteId|
            other != entries[k].0 ==> #[trigger] value_of(
                without_all(shortcuts, stale_ids(entries, dir, existing)),
                other,
            ) == value_of(shortcuts, other),
{
    let pred = |pair: (NoteId, IndexEntry)| is_stale(dir, existing, pair.1@);
    lemma_filter_single(entries, pred, k);
    let gone = stale_ids(entries, dir, existing);
    let id = entries[k].0;
    assert(gone =~= seq![id]);
    assert(gone.drop_first() =~= Seq::<NoteId>::empty());
    assert(without_all(entries, gone) == without_all(without(entries, id), gone.drop_first()));
    assert(without_all(shortcuts, gone) == without_all(without(shortcuts, id), gone.drop_first()));
    lemma_index_of(entries, id, k);
    lemma_without(shortcuts, id);
}

/// A synchronisation takes out the stale and nothing else. Whatever number
/// of files is gone: afterwards an identity has an entry exactly if it had
/// one and its file is there, and then it is the entry it had; and a note
/// has shortcuts exactly if it had some and its identity did not leave the
/// index, and then they are the ones it had.
pub proof fn law_sync_keeps_the_rest<V>(
    entries: Seq<(NoteId, IndexEntry)>,
    shortcuts: Seq<(NoteId, V)>,
    dir: Seq<char>,
    existing: Seq<Seq<char>>,
)
    requires
        distinct_ids(entries),
        distinct_ids(shortcuts),
    ensures
        ({
            let gone = stale_ids(entries, dir, existing);
            &&& forall|id: NoteId|
                gone.contains(id) <==> has_id(entries, id) && is_stale(
                    dir,
                    existing,
                    value_of(entries, id)->Some_0@,
                )
            &&& forall|id: NoteId| #[trigger]
                value_of(without_all(entries, gone), id) == if gone.contains(id) {
                    None
                } else {
                    value_of(entries, id)
                }
            &&& forall|id: NoteId| #[trigger]
                value_of(without_all(shortcuts, gone), id) == if gone.contains(id) {
                    None
                } else {
                    value_of(shortcuts, id)
                }
        }),
{
    let pred = |pair: (NoteId, IndexEntry)| is_stale(dir, existing, pair.1@);
    let kept = entries.filter(pred);
    let gone = stale_ids(entries, dir, existing);
    lemma_without_all(entries, gone);
    lemma_without_all(shortcuts, gone);
    assert forall|id: NoteId|
        gone.contains(id) <==> has_id(entries, id) && is_stale(
            dir,
            existing,
            value_of(entries, id)->Some_0@,
        ) by {
        if gone.contains(id) {
            let k = choose|k: int| 0 <= k < gone.len() && gone[k] == id;
            assert(kept[k].0 == id);
            assert(kept.contains(kept[k]));
            entries.lemma_filter_contains_rev(pred, kept[k]);
            entries.lemma_filter_pred(pred, k);
            let j = choose|j: int| 0 <= j < entries.len() && entries[j] == kept[k];
            lemma_index_of(entries, id, j);
        }
        if has_id(entries, id) && is_stale(dir, existing, value_of(entries, id)->Some_0@) {
            let j = index_of(entries, id);
            assert(pred(entries[j]));
            entries.lemma_filter_contains(pred, j);
            let k = choose|k: int| 0 <= k < kept.len() && kept[k] == entries[j];
            assert(gone[k] == id);
        }
    }
}

/// Every note is kept under its own identity, and so is its entry: taking a
/// file in puts the note under the identity that the note holds, and the
/// index then holds under that identity the entry of that file.
pub proof fn law_file_is_kept_under_its_identity(
    index: Seq<(NoteId, IndexEntryView)>,
    notes: Seq<(NoteId, NoteView)>,
    file: SourceFileView,
    fresh: NoteId,
    now: Timestamp,
)
    requires
        distinct_ids(index),
        distinct_ids(notes),
        taken_note(index, notes, file, fresh, now) is Some,
    ensures
        ({
            let note = taken_note(index, notes, file, fresh, now)->Some_0;
            &&& value_of(notes_after(index, notes, file, fresh, now), note.id) == Some(note)
            &&& value_of(index_after(index, notes, file, fresh, now), note.id) == Some(
                entry_for(file, note),
            )
            &&& embedded_identity(file.content) is Some ==> Some(note.id) == embedded_identity(
                file.content,
            )
        }),
{
    let note = taken_note(index, notes, file, fresh, now)->Some_0;
    lemma_upsert(index, note.id, entry_for(file, note));
    lemma_upsert(notes, note.id, note);
}

/// After a pass every note in memory stands under its own identity, and no
/// identity stands twice.
pub proof fn law_notes_are_keyed_by_identity(
    index: Seq<(NoteId, IndexEntryView)>,
    files: Seq<SourceFile>,
    draws: Seq<(NoteId, Timestamp)>,
)
    requires
        draws.len() == files.len(),
    ensures
        keyed_by_identity(loaded(index, Seq::empty(), files, draws).1),
        distinct_ids(loaded(index, Seq::empty(), files, draws).1),
    decreases files.len(),
{
    let none = Seq::<(NoteId, NoteView)>::empty();
    if files.len() == 0 {
        assert(files =~= Seq::<SourceFile>::empty());
        lemma_loaded_none(index, none, draws);
    } else {
        let fs = files.drop_last();
        let ds = draws.drop_last();
        law_notes_are_keyed_by_identity(index, fs, ds);
        lemma_loaded_more(index, none, fs, ds, files.last(), draws.last());
        assert(fs.push(files.last()) =~= files);
        assert(ds.push(draws.last()) =~= draws);
        let before = loaded(index, none, fs, ds);
        let f = files.last()@;
        let d = draws.last();
        let after = notes_after(before.0, before.1, f, d.0, d.1);
        if let Some(note) = taken_note(before.0, before.1, f, d.0, d.1) {
            lemma_upsert(before.1, note.id, note);
            assert forall|k: int| 0 <= k < after.len() implies (#[trigger] after[k]).0
                == after[k].1.id by {
                if has_id(before.1, note.id) {
                    if k != index_of(before.1, note.id) {
                        assert(after[k] == before.1[k]);
                    }
                } else {
                    if k < before.1.len() {
                        assert(after[k] == before.1[k]);
                    }
                }
            }
        }
    }
}

/// A new file adds one note. Where the index does not know a file's name and
/// the file is taken in, and where an identity in the file's own header is
/// new to the index and to the notes in memory, the identity that the file
/// is kept under was held by neither before, and taking the file in adds
/// exactly one entry and exactly one note and leaves every other identity's
/// entry and note as they were. An identity drawn for the file is always
/// new: a file for which it is not is left out.
pub proof fn law_new_file_adds_one(
    index: Seq<(NoteId, IndexEntryView)>,
    notes: Seq<(NoteId, NoteView)>,
    file: SourceFileView,
    fresh: NoteId,
    now: Timestamp,
)
    requires
        distinct_ids(index),
        distinct_ids(notes),
        !knows_filename(index, file.filename),
        taken_note(index, notes, file, fresh, now) is Some,
        embedded_identity(file.content) matches Some(own) ==> !has_id(index, own) && !has_id(
            notes,
            own,
        ),
    ensures
        ({
            let id = taken_note(index, notes, file, fresh, now)->Some_0.id;
            &&& !has_id(index, id)
            &&& !has_id(notes, id)
            &&& embedded_identity(file.content) is None ==> id == fresh
            &&& index_after(index, notes, file, fresh, now).len() == index.len() + 1
            &&& notes_after(index, notes, file, fresh, now).len() == notes.len() + 1
            &&& has_id(index_after(index, notes, file, fresh, now), id)
            &&& has_id(notes_after(index, notes, file, fresh, now), id)
            &&& forall|other: NoteId|
                other != id ==> #[trigger] value_of(
                    index_after(index, notes, file, fresh, now),
                    other,
                ) == value_of(index, other)
            &&& forall|other: NoteId|
                other != id ==> #[trigger] value_of(
                    notes_after(index, notes, file, fresh, now),
                    other,
                ) == value_of(notes, other)
        }),
{
    let note = taken_note(index, notes, file, fresh, now)->Some_0;
    assert(!draw_clashes(index, notes, file, fresh));
    lemma_upsert(index, note.id, entry_for(file, note));
    lemma_upsert(notes, note.id, note);
}

/// A file whose identity the index holds keeps the index's identities: taking
/// it in changes the entry of that identity and nothing else; no identity
/// comes or goes.
pub proof fn law_known_identity_keeps_ids(
    index: Seq<(NoteId, IndexEntryView)>,
    notes: Seq<(NoteId, NoteView)>,
    file: SourceFileView,
    fresh: NoteId,
    now: Timestamp,
)
    requires
        distinct_ids(index),
        taken_note(index, notes, file, fresh, now) is Some,
        has_id(index, taken_note(index, notes, file, fresh, now)->Some_0.id),
    ensures
        ids_of(index_after(index, notes, file, fresh, now)) == ids_of(index),
        distinct_ids(index_after(index, notes, file, fresh, now)),
        forall|other: NoteId|
            other != taken_note(index, notes, file, fresh, now)->Some_0.id ==> #[trigger] value_of(
                index_after(index, notes, file, fresh, now),
                other,
            ) == value_of(index, other),
{
    let note = taken_note(index, notes, file, fresh, now)->Some_0;
    lemma_upsert(index, note.id, entry_for(file, note));
    assert(ids_of(index_after(index, notes, file, fresh, now)) =~= ids_of(index));
}

/// Where some entry has a file name, there is a first one.
pub proof fn lemma_first_position(index: Seq<(NoteId, IndexEntryView)>, filename: Seq<char>, w: int)
    requires
        0 <= w < index.len(),
        index[w].1.filename == filename,
    ensures
        exists|i: int| first_known(index, filename, i),
    decreases w,
{
    if forall|j: int| 0 <= j < w ==> (#[trigger] index[j]).1.filename != filename {
        assert(first_known(index, filename, w));
    } else {
        let j = choose|j: int| 0 <= j < w && (#[trigger] index[j]).1.filename == filename;
        lemma_first_position(index, filename, j);
    }
}

/// A file keeps the identity it was taken in under. Once a file was taken in,
/// the index knows its name, and every later pass reads the file as a note
/// with the same identity, whatever identity that pass brings along.
pub proof fn law_identity_is_stable(
    index: Seq<(NoteId, IndexEntryView)>,
    notes: Seq<(NoteId, NoteView)>,
    file: SourceFileView,
    fresh: NoteId,
    now: Timestamp,
    later: NoteId,
    then: Timestamp,
)
    requires
        distinct_ids(index),
        taken_note(index, notes, file, fresh, now) is Some,
    ensures
        knows_filename(index_after(index, notes, file, fresh, now), file.filename),
        file_note(index_after(index, notes, file, fresh, now), file, later, then) is Ok,
        file_note(index_after(index, notes, file, fresh, now), file, later, then)->Ok_0.id
            == taken_note(index, notes, file, fresh, now)->Some_0.id,
{
    let note = taken_note(index, notes, file, fresh, now)->Some_0;
    let entry = entry_for(file, note);
    let after = index_after(index, notes, file, fresh, now);
    assert(after == upsert(index, note.id, entry));
    lemma_upsert(index, note.id, entry);
    let at: int;
    if has_id(index, note.id) {
        let k = index_of(index, note.id);
        at = k;
        assert(after[k] == (note.id, entry));
    } else {
        at = index.len() as int;
        assert(after[at] == (note.id, entry));
    }
    assert(after[at].1.filename == file.filename);
    assert(knows_filename(after, file.filename));
    if embedded_identity(file.content) is None {
        let id = candidate_id(index, file.filename, fresh);
        assert(note.id == id);
        if knows_filename(index, file.filename) {
            let w = choose|i: int|
                0 <= i < index.len() && (#[trigger] index[i]).1.filename == file.filename;
            lemma_first_position(index, file.filename, w);
            let p = choose|i: int| first_known(index, file.filename, i);
            lemma_index_of(index, id, p);
            assert(at == p);
        }
        assert forall|j: int| 0 <= j < at implies (#[trigger] after[j]).1.filename
            != file.filename by {
            assert(after[j] == index[j]);
        }
        assert(first_known(after, file.filename, at));
        let q = choose|i: int| first_known(after, file.filename, i);
        assert(first_known(after, file.filename, q));
        if q < at {
            assert(after[q].1.filename != file.filename);
        } else if at < q {
            assert(after[at].1.filename != file.filename);
        }
        assert(candidate_id(after, file.filename, later) == id);
    }
}

/// The note that a pass takes the file at position `i` in as, if it does.
pub open spec fn pass_note(
    index: Seq<(NoteId, IndexEntryView)>,
    files: Seq<SourceFile>,
    draws: Seq<(NoteId, Timestamp)>,
    i: int,
) -> Option<NoteView> {
    let before = loaded(index, Seq::empty(), files.take(i), draws.take(i));
    taken_note(before.0, before.1, files[i]@, draws[i].0, draws[i].1)
}

/// The pass takes every file in, and no two files are kept under one
/// identity.
pub open spec fn files_have_their_own_ids(
    index: Seq<(NoteId, IndexEntryView)>,
    files: Seq<SourceFile>,
    draws: Seq<(NoteId, Timestamp)>,
) -> bool {
    &&& forall|i: int|
        0 <= i < files.len() ==> (#[trigger] pass_note(index, files, draws, i)) is Some
    &&& forall|i: int, j: int|
        0 <= i < j < files.len() ==> (#[trigger] pass_note(index, files, draws, i))->Some_0.id != (
        #[trigger] pass_note(index, files, draws, j))->Some_0.id
}

/// A pass makes one note of each file. Let every file be taken in and let no
/// two files be kept under one identity. Then the pass leaves exactly as
/// many notes in memory as there are files: the note of the file at position
/// `k` stands at position `k` under its own identity, and the index holds
/// under that identity the entry of that file. So a pass over one file more
/// leaves one note more, and a pass over one file less leaves one note less.
pub proof fn law_pass_counts_files(
    index: Seq<(NoteId, IndexEntryView)>,
    files: Seq<SourceFile>,
    draws: Seq<(NoteId, Timestamp)>,
)
    requires
        distinct_ids(index),
        draws.len() == files.len(),
        files_have_their_own_ids(index, files, draws),
    ensures
        loaded(index, Seq::empty(), files, draws).1.len() == files.len(),
        distinct_ids(loaded(index, Seq::empty(), files, draws).0),
        distinct_ids(loaded(index, Seq::empty(), files, draws).1),
        forall|k: int|
            0 <= k < files.len() ==> {
                let note = (#[trigger] pass_note(index, files, draws, k))->Some_0;
                &&& loaded(index, Seq::empty(), files, draws).1[k] == (note.id, note)
                &&& value_of(loaded(index, Seq::empty(), files, draws).0, note.id) == Some(
                    entry_for(files[k]@, note),
                )
            },
    decreases files.len(),
{
    let none = Seq::<(NoteId, NoteView)>::empty();
    if files.len() == 0 {
        assert(files =~= Seq::<SourceFile>::empty());
        lemma_loaded_none(index, none, draws);
    } else {
        let n = files.len() - 1;
        let fs = files.drop_last();
        let ds = draws.drop_last();
        let f = files.last();
        let d = draws.last();
        assert forall|i: int| 0 <= i < fs.len() implies #[trigger] pass_note(index, fs, ds, i)
            == pass_note(index, files, draws, i) by {
            assert(fs.take(i) =~= files.take(i));
            assert(ds.take(i) =~= draws.take(i));
        }
        assert(files_have_their_own_ids(index, fs, ds)) by {
            assert forall|i: int, j: int| 0 <= i < j < fs.len() implies (#[trigger] pass_note(
                index,
                fs,
                ds,
                i,
            ))->Some_0.id != (#[trigger] pass_note(index, fs, ds, j))->Some_0.id by {
                assert(pass_note(index, files, draws, i)->Some_0.id != pass_note(
                    index,
                    files,
                    draws,
                    j,
                )->Some_0.id);
            }
        }
        law_pass_counts_files(index, fs, ds);
        lemma_loaded_more(index, none, fs, ds, f, d);
        assert(fs.push(f) =~= files);
        assert(ds.push(d) =~= draws);
        let before = loaded(index, none, fs, ds);
        let i0 = before.0;
        let n0 = before.1;
        assert(files.take(n) =~= fs);
        assert(draws.take(n) =~= ds);
        assert(pass_note(index, files, draws, n) == taken_note(i0, n0, f@, d.0, d.1));
        let note = pass_note(index, files, draws, n)->Some_0;
        let i1 = index_after(i0, n0, f@, d.0, d.1);
        let n1 = notes_after(i0, n0, f@, d.0, d.1);
        if has_id(n0, note.id) {
            let k = index_of(n0, note.id);
            assert(n0[k].0 == pass_note(index, fs, ds, k)->Some_0.id);
            assert(pass_note(index, files, draws, k)->Some_0.id != pass_note(
                index,
                files,
                draws,
                n,
            )->Some_0.id);
            assert(false);
        }
        lemma_upsert(i0, note.id, entry_for(f@, note));
        lemma_upsert(n0, note.id, note);
        assert(n1 =~= n0.push((note.id, note)));
        assert forall|k: int| 0 <= k < files.len() implies {
            let nk = (#[trigger] pass_note(index, files, draws, k))->Some_0;
            &&& n1[k] == (nk.id, nk)
            &&& value_of(i1, nk.id) == Some(entry_for(files[k]@, nk))
        } by {
            if k < n {
                let nk = pass_note(index, fs, ds, k)->Some_0;
                assert(nk == pass_note(index, files, draws, k)->Some_0);
                assert(n0[k] == (nk.id, nk));
                assert(pass_note(index, files, draws, k)->Some_0.id != pass_note(
                    index,
                    files,
                    draws,
                    n,
                )->Some_0.id);
                assert(value_of(i1, nk.id) == value_of(i0, nk.id));
                assert(fs[k] == files[k]);
            }
        }
    }
}

/// A pass over files whose identities the index holds keeps the index's
/// identities. Where every file that is taken in is kept under an identity
/// that has an entry, a pass changes what entries hold and nothing else:
/// place by place the index holds the identities that it held.
pub proof fn law_pass_over_known_ids_keeps_ids(
    index: Seq<(NoteId, IndexEntryView)>,
    files: Seq<SourceFile>,
    draws: Seq<(NoteId, Timestamp)>,
)
    requires
        distinct_ids(index),
        draws.len() == files.len(),
        forall|i: int|
            0 <= i < files.len() ==> ((#[trigger] pass_note(index, files, draws, i)) matches Some(
                note,
            ) ==> has_id(index, note.id)),
    ensures
        ids_of(loaded(index, Seq::empty(), files, draws).0) == ids_of(index),
        distinct_ids(loaded(index, Seq::empty(), files, draws).0),
    decreases files.len(),
{
    let none = Seq::<(NoteId, NoteView)>::empty();
    if files.len() == 0 {
        assert(files =~= Seq::<SourceFile>::empty());
        lemma_loaded_none(index, none, draws);
    } else {
        let n = files.len() - 1;
        let fs = files.drop_last();
        let ds = draws.drop_last();
        let f = files.last();
        let d = draws.last();
        assert forall|i: int| 0 <= i < fs.len() implies #[trigger] pass_note(index, fs, ds, i)
            == pass_note(index, files, draws, i) by {
            assert(fs.take(i) =~= files.take(i));
            assert(ds.take(i) =~= draws.take(i));
        }
        law_pass_over_known_ids_keeps_ids(index, fs, ds);
        lemma_loaded_more(index, none, fs, ds, f, d);
        assert(fs.push(f) =~= files);
        assert(ds.push(d) =~= draws);
        let before = loaded(index, none, fs, ds);
        assert(files.take(n) =~= fs);
        assert(draws.take(n) =~= ds);
        assert(pass_note(index, files, draws, n) == taken_note(before.0, before.1, f@, d.0, d.1));
        if let Some(note) = taken_note(before.0, before.1, f@, d.0, d.1) {
            assert(has_id(index, note.id));
            let k = index_of(index, note.id);
            assert(0 <= k < index.len() && index[k].0 == note.id);
            assert(ids_of(before.0).len() == ids_of(index).len());
            assert(ids_of(index)[k] == index[k].0);
            assert(ids_of(before.0)[k] == before.0[k].0);
            assert(before.0[k].0 == note.id);
            law_known_identity_keeps_ids(before.0, before.1, f@, d.0, d.1);
        }
    }
}

/// A deleted file is forgotten. Let the file of exactly one entry be gone,
/// and let the files that are there each be taken in under an identity of
/// its own that the index holds. Then after a load pass the index holds the
/// identities that it held but for the one whose file is gone, the shortcuts
/// of that identity are gone while every other note keeps its own, and there
/// is one note in memory for each file that is there: one less than a pass
/// over the same files and the deleted one leaves.
pub proof fn law_deleted_file_is_forgotten<V>(
    entries: Seq<(NoteId, IndexEntry)>,
    shortcuts: Seq<(NoteId, V)>,
    dir: Seq<char>,
    files: Seq<SourceFile>,
    draws: Seq<(NoteId, Timestamp)>,
    k: int,
)
    requires
        distinct_ids(entries),
        distinct_ids(shortcuts),
        0 <= k < entries.len(),
        is_stale(dir, paths_of(files), entries[k].1@),
        forall|j: int|
            0 <= j < entries.len() && j != k ==> !is_stale(
                dir,
                paths_of(files),
                (#[trigger] entries[j]).1@,
            ),
        draws.len() == files.len(),
        files_have_their_own_ids(map_values(entries.remove(k), entry_view_fn()), files, draws),
        forall|i: int|
            0 <= i < files.len() ==> has_id(
                entries.remove(k),
                (#[trigger] pass_note(
                    map_values(entries.remove(k), entry_view_fn()),
                    files,
                    draws,
                    i,
                ))->Some_0.id,
            ),
    ensures
        ({
            let gone = stale_ids(entries, dir, paths_of(files));
            let base = without_all(map_values(entries, entry_view_fn()), gone);
            let after = loaded(base, Seq::empty(), files, draws);
            &&& gone == seq![entries[k].0]
            &&& base == map_values(entries.remove(k), entry_view_fn())
            &&& ids_of(after.0) == ids_of(entries.remove(k))
            &&& !has_id(after.0, entries[k].0)
            &&& after.1.len() == files.len()
            &&& without_all(shortcuts, gone) == without(shortcuts, entries[k].0)
            &&& !has_id(without_all(shortcuts, gone), entries[k].0)
            &&& forall|other: NoteId|
                other != entries[k].0 ==> #[trigger] value_of(without_all(shortcuts, gone), other)
                    == value_of(shortcuts, other)
        }),
{
    let id = entries[k].0;
    let paths = paths_of(files);
    let gone = stale_ids(entries, dir, paths);
    let rest = entries.remove(k);
    let base = map_values(rest, entry_view_fn());
    law_single_stale_entry(entries, shortcuts, dir, paths, k);
    lemma_map_without_all(entries, entry_view_fn(), gone);
    lemma_index_of(entries, id, k);
    lemma_without(entries, id);
    assert(rest == without(entries, id));
    lemma_map_values(rest, entry_view_fn(), id, entries[k].1);
    assert forall|i: int| 0 <= i < files.len() implies ((#[trigger] pass_note(
        base,
        files,
        draws,
        i,
    )) matches Some(note) ==> has_id(base, note.id)) by {
        let note = pass_note(base, files, draws, i)->Some_0;
        lemma_map_values(rest, entry_view_fn(), note.id, entries[k].1);
    }
    law_pass_over_known_ids_keeps_ids(base, files, draws);
    law_pass_counts_files(base, files, draws);
    let after = loaded(base, Seq::empty(), files, draws);
    assert(ids_of(base) =~= ids_of(rest));
    if has_id(after.0, id) {
        let j = index_of(after.0, id);
        assert(ids_of(after.0)[j] == after.0[j].0);
        assert(ids_of(rest)[j] == rest[j].0);
        assert(rest[j].0 == id);
        assert(has_id(rest, id));
    }
}

/// A pass keeps the index without an identity twice.
pub proof fn lemma_pass_keeps_index_distinct(
    index: Seq<(NoteId, IndexEntryView)>,
    files: Seq<SourceFile>,
    draws: Seq<(NoteId, Timestamp)>,
)
    requires
        distinct_ids(index),
        draws.len() == files.len(),
    ensures
        distinct_ids(loaded(index, Seq::empty(), files, draws).0),
    decreases files.len(),
{
    let none = Seq::<(NoteId, NoteView)>::empty();
    if files.len() == 0 {
        assert(files =~= Seq::<SourceFile>::empty());
        lemma_loaded_none(index, none, draws);
    } else {
        let fs = files.drop_last();
        let ds = draws.drop_last();
        lemma_pass_keeps_index_distinct(index, fs, ds);
        lemma_loaded_more(index, none, fs, ds, files.last(), draws.last());
        assert(fs.push(files.last()) =~= files);
        assert(ds.push(draws.last()) =~= draws);
        let before = loaded(index, none, fs, ds);
        let f = files.last()@;
        let d = draws.last();
        if let Some(note) = taken_note(before.0, before.1, f, d.0, d.1) {
            lemma_upsert(before.0, note.id, entry_for(f, note));
        }
    }
}

/// An added file adds one note. Let a pass run over some files and then over
/// one more, whose name the index does not know by then and which is taken
/// in; and where that file holds an identity in its own header, let neither
/// the index nor the notes in memory hold it by then. Then the pass leaves
/// one note and one entry more than the pass over the files without that
/// one; the added file is kept under an identity that neither index nor
/// notes held, and every other identity keeps its entry and its note.
pub proof fn law_added_file_adds_one_note(
    index: Seq<(NoteId, IndexEntryView)>,
    files: Seq<SourceFile>,
    draws: Seq<(NoteId, Timestamp)>,
    added: SourceFile,
    draw: (NoteId, Timestamp),
)
    requires
        distinct_ids(index),
        draws.len() == files.len(),
        ({
            let before = loaded(index, Seq::empty(), files, draws);
            &&& !knows_filename(before.0, added@.filename)
            &&& taken_note(before.0, before.1, added@, draw.0, draw.1) is Some
            &&& embedded_identity(added@.content) matches Some(own) ==> !has_id(before.0, own)
                && !has_id(before.1, own)
        }),
    ensures
        ({
            let before = loaded(index, Seq::empty(), files, draws);
            let after = loaded(index, Seq::empty(), files.push(added), draws.push(draw));
            let id = taken_note(before.0, before.1, added@, draw.0, draw.1)->Some_0.id;
            &&& !has_id(before.0, id)
            &&& !has_id(before.1, id)
            &&& after.1.len() == before.1.len() + 1
            &&& after.0.len() == before.0.len() + 1
            &&& has_id(after.0, id)
            &&& has_id(after.1, id)
            &&& forall|other: NoteId|
                other != id ==> #[trigger] value_of(after.0, other) == value_of(before.0, other)
            &&& forall|other: NoteId|
                other != id ==> #[trigger] value_of(after.1, other) == value_of(before.1, other)
        }),
{
    let none = Seq::<(NoteId, NoteView)>::empty();
    let before = loaded(index, none, files, draws);
    lemma_pass_keeps_index_distinct(index, files, draws);
    law_notes_are_keyed_by_identity(index, files, draws);
    lemma_loaded_more(index, none, files, draws, added, draw);
    law_new_file_adds_one(before.0, before.1, added@, draw.0, draw.1);
}

} // verus!
