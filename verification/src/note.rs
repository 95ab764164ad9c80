//! Notes: what a note file holds, how it is read from markdown and written
//! back.

use crate::clock::Timestamp;
use crate::identity::{parse_uuid_bits, uuid_of_text, uuid_text, NoteId};
use crate::text::{
    chars_of, copy_strings, drop_spaces, find_drop_spaces, find_from, find_line_end,
    find_skip_copies, find_skip_spaces, has_prefix, line_end, matches_at, occurs_at, skip_copies,
    skip_spaces, slice_of, starts_with_char, texts,
};
use crate::yaml::{
    entry_views, read_yaml_field, reads_as_yaml_map, write_yaml_mapping, yaml_field,
    yaml_mapping_text, yaml_reads_as_map, YamlField, YamlFieldView,
};
use crate::filters::{lemma_filter_start, lemma_filter_step};
use vstd::prelude::*;
use vstd::string::*;

verus! {

/// What a shortcut points at: a file, a URL, or another note.
#[derive(Debug)]
pub enum LinkTarget {
    File { path: String },
    Url { url: String },
    Note { id: NoteId },
}

/// A named link that a note owns.
#[derive(Debug)]
pub struct Shortcut {
    pub alias: String,
    pub target: LinkTarget,
    pub description: Option<String>,
}

/// Two targets point at the same thing.
pub open spec fn same_target(a: LinkTarget, b: LinkTarget) -> bool {
    match (a, b) {
        (LinkTarget::File { path: p }, LinkTarget::File { path: q }) => p@ == q@,
        (LinkTarget::Url { url: p }, LinkTarget::Url { url: q }) => p@ == q@,
        (LinkTarget::Note { id: p }, LinkTarget::Note { id: q }) => p == q,
        _ => false,
    }
}

/// Two optional texts hold the same characters, or are both absent.
pub open spec fn same_optional_text(a: Option<String>, b: Option<String>) -> bool {
    match (a, b) {
        (Some(x), Some(y)) => x@ == y@,
        (None, None) => true,
        _ => false,
    }
}

/// Two shortcuts hold the same alias, target and description.
pub open spec fn same_shortcut(a: Shortcut, b: Shortcut) -> bool {
    &&& a.alias@ == b.alias@
    &&& same_target(a.target, b.target)
    &&& same_optional_text(a.description, b.description)
}

impl Clone for LinkTarget {
    fn clone(&self) -> (r: Self)
        ensures
            same_target(*self, r),
    {
        match self {
            LinkTarget::File { path } => LinkTarget::File { path: path.clone() },
            LinkTarget::Url { url } => LinkTarget::Url { url: url.clone() },
            LinkTarget::Note { id } => LinkTarget::Note { id: *id },
        }
    }
}

impl Clone for Shortcut {
    fn clone(&self) -> (r: Self)
        ensures
            same_shortcut(*self, r),
    {
        Shortcut {
            alias: self.alias.clone(),
            target: self.target.clone(),
            description: match &self.description {
                Some(d) => Some(d.clone()),
                None => None,
            },
        }
    }
}

/// The line that opens and closes a header: three hyphens and a line feed.
pub open spec fn marker() -> Seq<char> {
    seq!['-', '-', '-', '\n']
}

/// What opens a top-level heading: a hash sign and a space.
pub open spec fn heading_mark() -> Seq<char> {
    seq!['#', ' ']
}

/// The ending of a note's file name.
pub open spec fn note_suffix() -> Seq<char> {
    seq!['.', 'm', 'd']
}

/// The marker stands at `at` as a line of its own, after the opening line.
pub open spec fn marker_line_at(content: Seq<char>, at: int) -> bool {
    4 <= at && occurs_at(content, marker(), at) && content[at - 1] == '\n'
}

/// `content` opens with the marker line, and `at` is where the next marker
/// line begins.
pub open spec fn header_closes_at(content: Seq<char>, at: int) -> bool {
    &&& has_prefix(content, marker())
    &&& marker_line_at(content, at)
    &&& forall|j: int| 4 <= j < at ==> !marker_line_at(content, j)
}

/// `content` has a header block.
pub open spec fn has_header(content: Seq<char>) -> bool {
    exists|at: int| header_closes_at(content, at)
}

/// Where the header block of `content` closes.
pub open spec fn header_close(content: Seq<char>) -> int {
    choose|at: int| header_closes_at(content, at)
}

/// The header and the body of `content`: the lines between the opening
/// marker line and the next marker line, and all that follows that line.
pub open spec fn split_frontmatter_spec(content: Seq<char>) -> Option<(Seq<char>, Seq<char>)> {
    if has_header(content) {
        let at = header_close(content);
        Some((content.subrange(4, at), content.subrange(at + 4, content.len() as int)))
    } else {
        None
    }
}

/// A line begins at `i`.
pub open spec fn is_line_start(s: Seq<char>, i: int) -> bool {
    0 <= i < s.len() && (i == 0 || s[i - 1] == '\n')
}

/// A line that opens with the heading mark begins at `i`.
pub open spec fn heading_at(s: Seq<char>, i: int) -> bool {
    is_line_start(s, i) && occurs_at(s, heading_mark(), i)
}

/// The first heading line of `s` begins at `i`.
pub open spec fn first_heading(s: Seq<char>, i: int) -> bool {
    heading_at(s, i) && forall|j: int| 0 <= j < i ==> !heading_at(s, j)
}

/// The title that the heading line at `i` gives: the line without its leading
/// heading marks and without the white space around what is left.
pub open spec fn heading_text(s: Seq<char>, i: int) -> Seq<char> {
    let end = line_end(s, i);
    let from = skip_copies(s, heading_mark(), i, end);
    let a = skip_spaces(s, from, end);
    let b = drop_spaces(s, a, end);
    s.subrange(a, b)
}

/// The title of the first heading line, if there is one.
pub open spec fn heading_title(s: Seq<char>) -> Option<Seq<char>> {
    if exists|i: int| first_heading(s, i) {
        Some(heading_text(s, choose|i: int| first_heading(s, i)))
    } else {
        None
    }
}

/// The file name without its `.md` ending, where it has one.
pub open spec fn file_stem(filename: Seq<char>) -> Seq<char> {
    if occurs_at(filename, note_suffix(), filename.len() - 3) {
        filename.subrange(0, filename.len() - 3)
    } else {
        filename
    }
}

/// An optional text, with the empty text for none.
pub open spec fn text_or_empty(t: Option<Seq<char>>) -> Seq<char> {
    match t {
        Some(t) => t,
        None => Seq::empty(),
    }
}

/// The title of a note: the first that is not empty of the header's title,
/// the first heading's text and the file's stem. It is empty only where the
/// stem is.
pub open spec fn resolved_title(
    header_title: Option<Seq<char>>,
    body: Seq<char>,
    filename: Seq<char>,
) -> Seq<char> {
    if text_or_empty(header_title).len() > 0 {
        text_or_empty(header_title)
    } else if text_or_empty(heading_title(body)).len() > 0 {
        text_or_empty(heading_title(body))
    } else {
        file_stem(filename)
    }
}

/// No position in `from..line_end` holds a line feed, and the line's end is
/// the text's end or a line feed.
pub proof fn lemma_line_end(s: Seq<char>, from: int)
    requires
        0 <= from <= s.len(),
    ensures
        from <= line_end(s, from) <= s.len(),
        forall|k: int| from <= k < line_end(s, from) ==> s[k] != '\n',
        line_end(s, from) < s.len() ==> s[line_end(s, from)] == '\n',
    decreases s.len() - from,
{
    if from < s.len() && s[from] != '\n' {
        lemma_line_end(s, from + 1);
    }
}

/// The marker as characters.
pub fn marker_chars() -> (v: Vec<char>)
    ensures
        v@ == marker(),
{
    let v = vec!['-', '-', '-', '\n'];
    assert(v@ =~= marker());
    v
}

/// The heading mark as characters.
pub fn heading_mark_chars() -> (v: Vec<char>)
    ensures
        v@ == heading_mark(),
{
    let v = vec!['#', ' '];
    assert(v@ =~= heading_mark());
    v
}

/// The note suffix as characters.
pub fn note_suffix_chars() -> (v: Vec<char>)
    ensures
        v@ == note_suffix(),
{
    let v = vec!['.', 'm', 'd'];
    assert(v@ =~= note_suffix());
    v
}

/// Where the header block of `chars` closes, if it has one.
pub fn find_header_close(chars: &Vec<char>) -> (r: Option<usize>)
    ensures
        match r {
            Some(at) => header_closes_at(chars@, at as int) && at + 4 <= chars.len(),
            None => !has_header(chars@),
        },
{
    let m = marker_chars();
    if !matches_at(chars, 0, &m) {
        return None;
    }
    let mut from: usize = 4;
    while from <= chars.len()
        invariant
            m@ == marker(),
            has_prefix(chars@, marker()),
            4 <= from,
            forall|j: int| 4 <= j < from ==> !marker_line_at(chars@, j),
        decreases chars.len() + 1 - from,
    {
        match find_from(chars, &m, from) {
            None => {
                return None;
            },
            Some(at) => {
                if chars[at - 1] == '\n' {
                    assert(header_closes_at(chars@, at as int));
                    return Some(at);
                }
                from = at + 1;
            },
        }
    }
    None
}

/// Splits a note file into its header and its body.
pub fn split_frontmatter(content: &str) -> (r: Option<(String, String)>)
    ensures
        match r {
            Some((header, body)) => split_frontmatter_spec(content@) == Some((header@, body@)),
            None => split_frontmatter_spec(content@).is_none(),
        },
{
    let chars = chars_of(content);
    match find_header_close(&chars) {
        None => None,
        Some(at) => {
            proof {
                let c = header_close(content@);
                assert(header_closes_at(content@, c));
                assert(c == at);
            }
            let header = slice_of(content, 4, at);
            let body = slice_of(content, at + 4, chars.len());
            Some((header, body))
        },
    }
}

/// The title of the first heading line of `content`, if there is one.
pub fn extract_title_from_content(content: &str) -> (r: Option<String>)
    ensures
        match r {
            Some(t) => heading_title(content@) == Some(t@),
            None => heading_title(content@).is_none(),
        },
{
    let s = chars_of(content);
    let mark = heading_mark_chars();
    let mut start: usize = 0;
    while start < s.len()
        invariant
            s@ == content@,
            mark@ == heading_mark(),
            start <= s.len(),
            start < s.len() ==> is_line_start(s@, start as int),
            forall|j: int| 0 <= j < start ==> !heading_at(s@, j),
        decreases s.len() - start,
    {
        let end = find_line_end(&s, start);
        proof {
            lemma_line_end(s@, start as int);
        }
        if matches_at(&s, start, &mark) {
            let from = find_skip_copies(&s, &mark, start, end);
            let a = find_skip_spaces(&s, from, end);
            let b = find_drop_spaces(&s, a, end);
            proof {
                assert(first_heading(s@, start as int));
                let c = choose|i: int| first_heading(s@, i);
                assert(first_heading(s@, c));
                assert(c == start);
            }
            return Some(slice_of(content, a, b));
        }
        if end >= s.len() {
            proof {
                assert forall|j: int| 0 <= j < s.len() implies !heading_at(s@, j) by {
                    if j > start {
                        assert(s@[j - 1] != '\n');
                    }
                }
            }
            return None;
        }
        proof {
            assert forall|j: int| 0 <= j < end + 1 implies !heading_at(s@, j) by {
                if j > start {
                    assert(s@[j - 1] != '\n');
                }
            }
        }
        start = end + 1;
    }
    None
}

/// The file name without its `.md` ending, where it has one.
pub fn stem_of(filename: &str) -> (r: String)
    ensures
        r@ == file_stem(filename@),
{
    let s = chars_of(filename);
    let suffix = note_suffix_chars();
    if s.len() >= 3 && matches_at(&s, s.len() - 3, &suffix) {
        slice_of(filename, 0, s.len() - 3)
    } else {
        assert(filename@.subrange(0, filename@.len() as int) =~= filename@);
        slice_of(filename, 0, s.len())
    }
}

/// The name of a note file: something, then the `.md` ending.
pub open spec fn names_note_file(filename: Seq<char>) -> bool {
    filename.len() > 3 && occurs_at(filename, note_suffix(), filename.len() - 3)
}

/// Whether a file of this name is a note file.
pub fn is_note_file(filename: &str) -> (r: bool)
    ensures
        r == names_note_file(filename@),
{
    let s = chars_of(filename);
    let suffix = note_suffix_chars();
    s.len() > 3 && matches_at(&s, s.len() - 3, &suffix)
}

/// The key under which a header holds the note's title.
pub open spec fn title_key() -> Seq<char> {
    "title"@
}

/// The key under which a header holds the note's identity.
pub open spec fn id_key() -> Seq<char> {
    "id"@
}

/// Why a header cannot be read.
#[derive(Clone, Copy, Debug, PartialEq, Eq, Structural)]
pub enum FrontmatterFault {
    /// The header is not a YAML document.
    Syntax,
    /// The header is a YAML document but no mapping.
    NotMapping,
    /// The title is there and is a sequence, a mapping or a tagged value.
    BadTitle,
    /// The identity is there and is no string that holds a UUID.
    BadIdentity,
}

/// A header that cannot be read: the fault and, for a syntax fault, the
/// parser's message.
#[derive(Debug)]
pub struct FrontmatterError {
    pub fault: FrontmatterFault,
    pub detail: String,
}

/// What a note's header holds.
#[derive(Debug)]
pub struct NoteMeta {
    pub title: Option<String>,
    pub id: Option<NoteId>,
}

/// `NoteMeta` over mathematical strings.
pub struct NoteMetaView {
    pub title: Option<Seq<char>>,
    pub id: Option<NoteId>,
}

impl View for NoteMeta {
    type V = NoteMetaView;

    open spec fn view(&self) -> NoteMetaView {
        NoteMetaView {
            title: match self.title {
                Some(t) => Some(t@),
                None => None,
            },
            id: self.id,
        }
    }
}

/// The fault of a header whose two fields read as `title` and `id`, where
/// `parsed` is what the identity's text holds as a UUID; `None` for a header
/// without fault.
pub open spec fn header_fault(title: YamlFieldView, id: YamlFieldView, parsed: Option<u128>)
    -> Option<(FrontmatterFault, Seq<char>)> {
    if let YamlFieldView::Malformed(m) = title {
        Some((FrontmatterFault::Syntax, m))
    } else if let YamlFieldView::Malformed(m) = id {
        Some((FrontmatterFault::Syntax, m))
    } else if title is NotMapping || id is NotMapping {
        Some((FrontmatterFault::NotMapping, Seq::empty()))
    } else if title is Other {
        Some((FrontmatterFault::BadTitle, Seq::empty()))
    } else if id is Other || id is Number || id is Bool || (id is Text && parsed is None) {
        Some((FrontmatterFault::BadIdentity, Seq::empty()))
    } else {
        None
    }
}

/// A truth value as a title.
pub open spec fn truth_text(b: bool) -> Seq<char> {
    if b {
        "true"@
    } else {
        "false"@
    }
}

/// The title that a header's title field gives: a string, or a number or a
/// truth value as text.
pub open spec fn header_title(title: YamlFieldView) -> Option<Seq<char>> {
    match title {
        YamlFieldView::Text(t) => Some(t),
        YamlFieldView::Number(t) => Some(t),
        YamlFieldView::Bool(b) => Some(truth_text(b)),
        _ => None,
    }
}

/// The identity that a header's identity field gives.
pub open spec fn header_identity(id: YamlFieldView, parsed: Option<u128>) -> Option<NoteId> {
    match id {
        YamlFieldView::Text(_) => NoteId::spec_from_parsed(parsed),
        _ => None,
    }
}

/// What the text of an identity field holds as a UUID.
pub open spec fn parsed_identity(id: YamlFieldView) -> Option<u128> {
    match id {
        YamlFieldView::Text(t) => uuid_of_text(t),
        _ => None,
    }
}

/// What reading a header with these two fields gives.
pub open spec fn meta_of_fields(title: YamlFieldView, id: YamlFieldView, parsed: Option<u128>)
    -> Result<NoteMetaView, (FrontmatterFault, Seq<char>)> {
    match header_fault(title, id, parsed) {
        Some(e) => Err(e),
        None => Ok(
            NoteMetaView { title: header_title(title), id: header_identity(id, parsed) },
        ),
    }
}

/// What reading the header text `header` gives.
pub open spec fn meta_of_header(header: Seq<char>) -> Result<
    NoteMetaView,
    (FrontmatterFault, Seq<char>),
> {
    let as_map = yaml_reads_as_map(header);
    let title = settled(yaml_field(header, title_key()), as_map);
    let id = settled(yaml_field(header, id_key()), as_map);
    meta_of_fields(title, id, parsed_identity(id))
}

/// A field as it counts for a header: a document that holds null reads as
/// empty only where it also reads as a map, that is where it has no content;
/// an explicit null is no mapping.
pub open spec fn settled(field: YamlFieldView, as_map: bool) -> YamlFieldView {
    if field is EmptyDocument && !as_map {
        YamlFieldView::NotMapping
    } else {
        field
    }
}

/// Computes `settled`.
pub fn settle(field: YamlField, as_map: bool) -> (r: YamlField)
    ensures
        r@ == settled(field@, as_map),
{
    match field {
        YamlField::EmptyDocument => if as_map {
            YamlField::EmptyDocument
        } else {
            YamlField::NotMapping
        },
        other => other,
    }
}

/// `r` is the exact outcome `expected` of reading a header.
pub open spec fn meta_outcome(
    r: Result<NoteMeta, FrontmatterError>,
    expected: Result<NoteMetaView, (FrontmatterFault, Seq<char>)>,
) -> bool {
    match expected {
        Ok(m) => r is Ok && r->Ok_0@ == m,
        Err((fault, detail)) => r is Err && r->Err_0.fault == fault && r->Err_0.detail@ == detail,
    }
}

impl Clone for NoteMeta {
    fn clone(&self) -> (r: Self)
        ensures
            r@ == self@,
    {
        NoteMeta {
            title: match &self.title {
                Some(t) => Some(t.clone()),
                None => None,
            },
            id: self.id,
        }
    }
}

impl NoteMeta {
    /// Decides what a header holds from its two fields as the YAML reader gave
    /// them and from what the UUID parser made of the identity's text.
    pub fn read(title: YamlField, id: YamlField, parsed: Option<u128>) -> (r: Result<
        NoteMeta,
        FrontmatterError,
    >)
        ensures
            meta_outcome(r, meta_of_fields(title@, id@, parsed)),
    {
        if let YamlField::Malformed(m) = title {
            return Err(FrontmatterError { fault: FrontmatterFault::Syntax, detail: m });
        }
        if let YamlField::Malformed(m) = id {
            return Err(FrontmatterError { fault: FrontmatterFault::Syntax, detail: m });
        }
        let title_no_mapping = match title {
            YamlField::NotMapping => true,
            _ => false,
        };
        let id_no_mapping = match id {
            YamlField::NotMapping => true,
            _ => false,
        };
        if title_no_mapping || id_no_mapping {
            return Err(
                FrontmatterError { fault: FrontmatterFault::NotMapping, detail: String::new() },
            );
        }
        let meta_title = match title {
            YamlField::Text(t) => Some(t),
            YamlField::Number(t) => Some(t),
            YamlField::Bool(b) => Some(
                if b {
                    String::from_str("true")
                } else {
                    String::from_str("false")
                },
            ),
            YamlField::Other => {
                return Err(
                    FrontmatterError { fault: FrontmatterFault::BadTitle, detail: String::new() },
                );
            },
            _ => None,
        };
        let meta_id = match id {
            YamlField::Text(_) => match NoteId::from_parsed(parsed) {
                Some(i) => Some(i),
                None => {
                    return Err(
                        FrontmatterError {
                            fault: FrontmatterFault::BadIdentity,
                            detail: String::new(),
                        },
                    );
                },
            },
            YamlField::Other | YamlField::Number(_) | YamlField::Bool(_) => {
                return Err(
                    FrontmatterError {
                        fault: FrontmatterFault::BadIdentity,
                        detail: String::new(),
                    },
                );
            },
            _ => None,
        };
        Ok(NoteMeta { title: meta_title, id: meta_id })
    }

    /// Reads what a header holds from its two fields as the YAML reader gave
    /// them.
    pub fn from_fields(title: YamlField, id: YamlField) -> (r: Result<NoteMeta, FrontmatterError>)
        ensures
            meta_outcome(r, meta_of_fields(title@, id@, parsed_identity(id@))),
    {
        let parsed = match &id {
            YamlField::Text(t) => parse_uuid_bits(t.as_str()),
            _ => None,
        };
        Self::read(title, id, parsed)
    }

    /// Reads a header.
    pub fn parse(header: &str) -> (r: Result<NoteMeta, FrontmatterError>)
        ensures
            meta_outcome(r, meta_of_header(header@)),
    {
        let as_map = reads_as_yaml_map(header);
        let title = settle(read_yaml_field(header, "title"), as_map);
        let id = settle(read_yaml_field(header, "id"), as_map);
        Self::from_fields(title, id)
    }
}

/// A note: its identity, where it came from, what its header holds, its
/// resolved title, its two times, its body and its tags.
#[derive(Debug)]
pub struct Note {
    pub id: NoteId,
    pub filename: String,
    pub meta: NoteMeta,
    pub title: String,
    pub created_at: Timestamp,
    pub updated_at: Timestamp,
    pub content: String,
    pub tags: Vec<String>,
}

/// `Note` over mathematical strings.
pub struct NoteView {
    pub id: NoteId,
    pub filename: Seq<char>,
    pub meta: NoteMetaView,
    pub title: Seq<char>,
    pub created_at: Timestamp,
    pub updated_at: Timestamp,
    pub content: Seq<char>,
    pub tags: Seq<Seq<char>>,
}

impl View for Note {
    type V = NoteView;

    open spec fn view(&self) -> NoteView {
        NoteView {
            id: self.id,
            filename: self.filename@,
            meta: self.meta@,
            title: self.title@,
            created_at: self.created_at,
            updated_at: self.updated_at,
            content: self.content@,
            tags: texts(self.tags@),
        }
    }
}

impl Clone for Note {
    fn clone(&self) -> (r: Self)
        ensures
            r@ == self@,
    {
        Note {
            id: self.id,
            filename: self.filename.clone(),
            meta: self.meta.clone(),
            title: self.title.clone(),
            created_at: self.created_at,
            updated_at: self.updated_at,
            content: self.content.clone(),
            tags: copy_strings(&self.tags),
        }
    }
}

/// The function that takes a note to its view.
pub open spec fn note_view_fn() -> spec_fn(Note) -> NoteView {
    |n: Note| n@
}

/// The note that a file gives whose header, if it has one, holds `header`:
/// the header's identity goes before the candidate's, the title is resolved,
/// and the note's own header holds both.
pub open spec fn note_of(
    candidate: NoteId,
    filename: Seq<char>,
    header: NoteMetaView,
    body: Seq<char>,
    tags: Seq<Seq<char>>,
    created_at: Timestamp,
    updated_at: Timestamp,
) -> NoteView {
    let id = match header.id {
        Some(i) => i,
        None => candidate,
    };
    let title = resolved_title(header.title, body, filename);
    NoteView {
        id,
        filename,
        meta: NoteMetaView { title: Some(title), id: Some(id) },
        title,
        created_at,
        updated_at,
        content: body,
        tags,
    }
}

/// A header that holds nothing.
pub open spec fn empty_meta() -> NoteMetaView {
    NoteMetaView { title: None, id: None }
}

/// What reading the file text `content` as a note gives.
pub open spec fn markdown_note(
    candidate: NoteId,
    filename: Seq<char>,
    content: Seq<char>,
    tags: Seq<Seq<char>>,
    created_at: Timestamp,
    updated_at: Timestamp,
) -> Result<NoteView, (FrontmatterFault, Seq<char>)> {
    match split_frontmatter_spec(content) {
        None => Ok(
            note_of(candidate, filename, empty_meta(), content, tags, created_at, updated_at),
        ),
        Some((header, body)) => match meta_of_header(header) {
            Err(e) => Err(e),
            Ok(meta) => Ok(note_of(candidate, filename, meta, body, tags, created_at, updated_at)),
        },
    }
}

/// `r` is the exact outcome `expected` of reading a note.
pub open spec fn note_outcome(
    r: Result<Note, FrontmatterError>,
    expected: Result<NoteView, (FrontmatterFault, Seq<char>)>,
) -> bool {
    match expected {
        Ok(n) => r is Ok && r->Ok_0@ == n,
        Err((fault, detail)) => r is Err && r->Err_0.fault == fault && r->Err_0.detail@ == detail,
    }
}

/// The entries that a note's header is written with: its title, then its
/// identity as UUID text.
pub open spec fn written_entries(title: Seq<char>, id: NoteId) -> Seq<(Seq<char>, Seq<char>)> {
    seq![(title_key(), title), (id_key(), uuid_text(id.bits))]
}

/// The text of a note's file: a header with the note's title and identity,
/// then the note's body.
pub open spec fn note_text(note: NoteView) -> Seq<char> {
    rendered(yaml_mapping_text(written_entries(note.title, note.id)), note.content)
}

/// A note file: the marker, the header text, the marker, the body.
pub open spec fn rendered(header: Seq<char>, body: Seq<char>) -> Seq<char> {
    marker() + header + marker() + body
}

/// A tag that names a folder: it opens with `@`.
pub open spec fn is_folder_tag(tag: Seq<char>) -> bool {
    tag.len() > 0 && tag[0] == '@'
}

/// Whether the file text has a header that reads without fault and holds an
/// identity.
pub open spec fn has_embedded_identity(content: Seq<char>) -> bool {
    match split_frontmatter_spec(content) {
        None => false,
        Some((header, _)) => match meta_of_header(header) {
            Ok(meta) => meta.id is Some,
            Err(_) => false,
        },
    }
}

/// The identity that the header of `content` holds, where the file has a
/// header that reads without fault.
pub open spec fn embedded_identity(content: Seq<char>) -> Option<NoteId> {
    match split_frontmatter_spec(content) {
        None => None,
        Some((header, _)) => match meta_of_header(header) {
            Ok(meta) => meta.id,
            Err(_) => None,
        },
    }
}

/// Puts a note file together from its header text and its body.
pub fn render_markdown(header: &str, body: &str) -> (r: String)
    ensures
        r@ == rendered(header@, body@),
{
    proof {
        reveal_strlit("---\n");
        assert("---\n"@ =~= marker());
    }
    let mut out = String::from_str("---\n");
    out.append(header);
    out.append("---\n");
    out.append(body);
    out
}

impl Note {
    /// Builds the note of a file from what its header holds (`header` is empty
    /// for a file without one) and from its body.
    pub fn assemble(
        candidate: NoteId,
        filename: String,
        header: NoteMeta,
        body: String,
        tags: Vec<String>,
        created_at: Timestamp,
        updated_at: Timestamp,
    ) -> (note: Note)
        ensures
            note@ == note_of(
                candidate,
                filename@,
                header@,
                body@,
                texts(tags@),
                created_at,
                updated_at,
            ),
            file_stem(filename@).len() > 0 ==> note@.title.len() > 0,
            note@.meta == (NoteMetaView { title: Some(note@.title), id: Some(note@.id) }),
    {
        let id = match header.id {
            Some(i) => i,
            None => candidate,
        };
        let from_header = match header.title {
            Some(t) => t,
            None => String::new(),
        };
        let title = if from_header.as_str().unicode_len() > 0 {
            from_header
        } else {
            let from_heading = match extract_title_from_content(body.as_str()) {
                Some(t) => t,
                None => String::new(),
            };
            if from_heading.as_str().unicode_len() > 0 {
                from_heading
            } else {
                stem_of(filename.as_str())
            }
        };
        let meta = NoteMeta { title: Some(title.clone()), id: Some(id) };
        Note { id, filename, meta, title, created_at, updated_at, content: body, tags }
    }

    /// Reads a note from the text of its file. An identity in the header goes
    /// before `id`; a header that cannot be read is an error.
    pub fn from_markdown(
        id: NoteId,
        filename: String,
        content: String,
        tags: Vec<String>,
        created_at: Timestamp,
        updated_at: Timestamp,
    ) -> (r: Result<Note, FrontmatterError>)
        ensures
            note_outcome(
                r,
                markdown_note(id, filename@, content@, texts(tags@), created_at, updated_at),
            ),
            r is Ok && file_stem(filename@).len() > 0 ==> r->Ok_0@.title.len() > 0,
            r is Ok ==> r->Ok_0@.meta == (NoteMetaView {
                title: Some(r->Ok_0@.title),
                id: Some(r->Ok_0@.id),
            }),
    {
        match split_frontmatter(content.as_str()) {
            Some((header, body)) => match NoteMeta::parse(header.as_str()) {
                Err(e) => Err(e),
                Ok(meta) => Ok(
                    Self::assemble(id, filename, meta, body, tags, created_at, updated_at),
                ),
            },
            None => {
                let meta = NoteMeta { title: None, id: None };
                Ok(Self::assemble(id, filename, meta, content, tags, created_at, updated_at))
            },
        }
    }

    /// The text of the note's header: its title and its identity.
    pub fn header_text(&self) -> (r: String)
        ensures
            r@ == yaml_mapping_text(written_entries(self.title@, self.id)),
    {
        let mut entries: Vec<(String, String)> = Vec::new();
        entries.push((String::from_str("title"), self.title.clone()));
        entries.push((String::from_str("id"), self.id.to_text()));
        assert(entry_views(entries@) =~= written_entries(self.title@, self.id));
        write_yaml_mapping(&entries)
    }

    /// The note as the text of a file: always a header with the note's title
    /// and identity, then the body.
    pub fn to_markdown(&self) -> (r: String)
        ensures
            r@ == note_text(self@),
    {
        let header = self.header_text();
        render_markdown(header.as_str(), self.content.as_str())
    }

    /// Whether the file text opens with the marker.
    pub fn has_frontmatter(content: &str) -> (r: bool)
        ensures
            r == has_prefix(content@, marker()),
    {
        let chars = chars_of(content);
        let m = marker_chars();
        matches_at(&chars, 0, &m)
    }

    /// Whether the file text has a header that reads without fault and holds
    /// an identity.
    pub fn has_uuid_in_frontmatter(content: &str) -> (r: bool)
        ensures
            r == has_embedded_identity(content@),
    {
        match split_frontmatter(content) {
            Some((header, _)) => match NoteMeta::parse(header.as_str()) {
                Ok(meta) => meta.id.is_some(),
                Err(_) => false,
            },
            None => false,
        }
    }
}

/// The first folder tag of `tags` stands at `i`.
pub open spec fn first_folder_tag(tags: Seq<Seq<char>>, i: int) -> bool {
    &&& 0 <= i < tags.len()
    &&& is_folder_tag(tags[i])
    &&& forall|j: int| 0 <= j < i ==> !is_folder_tag(#[trigger] tags[j])
}

/// The tags of `tags` that name no folder, in their order.
pub open spec fn regular_tags(tags: Seq<Seq<char>>) -> Seq<Seq<char>> {
    tags.filter(names_no_folder())
}

/// The condition that a tag names no folder.
pub open spec fn names_no_folder() -> spec_fn(Seq<char>) -> bool {
    |t: Seq<char>| !is_folder_tag(t)
}

/// The texts of a list of string slices.
pub open spec fn slice_texts(v: Seq<&str>) -> Seq<Seq<char>> {
    Seq::new(v.len(), |i: int| v[i]@)
}

impl Note {
    /// The note's folder: the first of its tags that opens with `@`.
    pub fn get_folder_tag(&self) -> (r: Option<&str>)
        ensures
            match r {
                Some(t) => exists|i: int|
                    first_folder_tag(texts(self.tags@), i) && t@ == self.tags@[i]@,
                None => forall|i: int|
                    0 <= i < self.tags@.len() ==> !is_folder_tag(#[trigger] self.tags@[i]@),
            },
    {
        let mut i: usize = 0;
        while i < self.tags.len()
            invariant
                i <= self.tags.len(),
                forall|j: int| 0 <= j < i ==> !is_folder_tag(#[trigger] self.tags@[j]@),
            decreases self.tags.len() - i,
        {
            if starts_with_char(self.tags[i].as_str(), '@') {
                assert(first_folder_tag(texts(self.tags@), i as int));
                return Some(self.tags[i].as_str());
            }
            i += 1;
        }
        None
    }

    /// The note's tags that name no folder, in their order.
    pub fn get_regular_tags(&self) -> (r: Vec<&str>)
        ensures
            slice_texts(r@) == regular_tags(texts(self.tags@)),
    {
        let mut out: Vec<&str> = Vec::new();
        let ghost all = texts(self.tags@);
        let mut i: usize = 0;
        proof {
            lemma_filter_start(all, names_no_folder());
            assert(slice_texts(out@) =~= regular_tags(all.take(0)));
        }
        while i < self.tags.len()
            invariant
                i <= self.tags.len(),
                all == texts(self.tags@),
                slice_texts(out@) == regular_tags(all.take(i as int)),
            decreases self.tags.len() - i,
        {
            let ghost before = slice_texts(out@);
            let folder = starts_with_char(self.tags[i].as_str(), '@');
            if !folder {
                out.push(self.tags[i].as_str());
            }
            proof {
                lemma_filter_step(all, names_no_folder(), i as int);
                if !folder {
                    assert(slice_texts(out@) =~= before.push(self.tags@[i as int]@));
                }
            }
            i += 1;
        }
        assert(all.take(i as int) =~= all);
        out
    }
}

} // verus!
