//! The shortcut registry: for each note, its shortcuts by alias.

use crate::id_map::{distinct_ids, has_id, lemma_index_of, value_of, without, IdMap};
use crate::identity::NoteId;
use crate::note::{LinkTarget, Shortcut};
use crate::text::same_text;
use vstd::prelude::*;

verus! {

/// Some pair of `s` has the alias `alias`.
pub open spec fn has_alias(s: Seq<(String, Shortcut)>, alias: Seq<char>) -> bool {
    exists|i: int| 0 <= i < s.len() && (#[trigger] s[i]).0@ == alias
}

/// No alias stands twice in `s`.
pub open spec fn distinct_aliases(s: Seq<(String, Shortcut)>) -> bool {
    forall|i: int, j: int| 0 <= i < j < s.len() ==> (#[trigger] s[i]).0@ != (#[trigger] s[j]).0@
}

/// A position of `s` that holds the alias `alias`, where there is one.
pub open spec fn alias_index(s: Seq<(String, Shortcut)>, alias: Seq<char>) -> int {
    choose|i: int| 0 <= i < s.len() && (#[trigger] s[i]).0@ == alias
}

/// The shortcut that `s` holds for `alias`.
pub open spec fn shortcut_of(s: Seq<(String, Shortcut)>, alias: Seq<char>) -> Option<Shortcut> {
    if has_alias(s, alias) {
        Some(s[alias_index(s, alias)].1)
    } else {
        None
    }
}

/// With distinct aliases, the position of an alias is the one place where it
/// stands.
pub proof fn lemma_alias_index(s: Seq<(String, Shortcut)>, alias: Seq<char>, i: int)
    requires
        distinct_aliases(s),
        0 <= i < s.len(),
        s[i].0@ == alias,
    ensures
        has_alias(s, alias),
        alias_index(s, alias) == i,
        shortcut_of(s, alias) == Some(s[i].1),
{
    let j = alias_index(s, alias);
    assert(0 <= j < s.len() && s[j].0@ == alias);
    if j < i {
        assert(s[j].0@ != s[i].0@);
    } else if i < j {
        assert(s[i].0@ != s[j].0@);
    }
}

/// The shortcuts of one note, by alias, in the order in which the aliases came
/// in.
#[derive(Debug)]
pub struct AliasMap {
    items: Vec<(String, Shortcut)>,
}

impl View for AliasMap {
    type V = Seq<(String, Shortcut)>;

    closed spec fn view(&self) -> Seq<(String, Shortcut)> {
        self.items@
    }
}

/// `after` is `before` with `shortcut` under `alias`: in the place of the
/// shortcut that `alias` had, or else at the end, and nothing else changed.
pub open spec fn alias_put(
    before: Seq<(String, Shortcut)>,
    after: Seq<(String, Shortcut)>,
    alias: Seq<char>,
    shortcut: Shortcut,
) -> bool {
    let at = if has_alias(before, alias) {
        alias_index(before, alias)
    } else {
        before.len() as int
    };
    &&& after.len() == if has_alias(before, alias) {
        before.len()
    } else {
        before.len() + 1
    }
    &&& after[at].0@ == alias
    &&& after[at].1 == shortcut
    &&& forall|j: int| 0 <= j < before.len() && j != at ==> #[trigger] after[j] == before[j]
}

impl AliasMap {
    /// No alias stands twice.
    pub open spec fn wf(&self) -> bool {
        distinct_aliases(self@)
    }

    /// A map without aliases.
    pub fn new() -> (m: AliasMap)
        ensures
            m@ == Seq::<(String, Shortcut)>::empty(),
            m.wf(),
    {
        AliasMap { items: Vec::new() }
    }

    /// The number of aliases.
    pub fn len(&self) -> (n: usize)
        ensures
            n == self@.len(),
    {
        self.items.len()
    }

    /// Whether there is no alias.
    pub fn is_empty(&self) -> (r: bool)
        ensures
            r == (self@.len() == 0),
    {
        self.items.len() == 0
    }

    /// The alias at position `i`.
    pub fn alias_at(&self, i: usize) -> (alias: &String)
        requires
            i < self@.len(),
        ensures
            *alias == self@[i as int].0,
    {
        &self.items[i].0
    }

    /// The shortcut at position `i`.
    pub fn shortcut_at(&self, i: usize) -> (shortcut: &Shortcut)
        requires
            i < self@.len(),
        ensures
            *shortcut == self@[i as int].1,
    {
        &self.items[i].1
    }

    /// The position of `alias`, if it is there.
    pub fn position(&self, alias: &str) -> (r: Option<usize>)
        ensures
            match r {
                Some(i) => i < self@.len() && self@[i as int].0@ == alias@,
                None => !has_alias(self@, alias@),
            },
    {
        let mut i: usize = 0;
        while i < self.items.len()
            invariant
                i <= self.items.len(),
                forall|j: int| 0 <= j < i ==> (#[trigger] self.items@[j]).0@ != alias@,
            decreases self.items.len() - i,
        {
            if same_text(self.items[i].0.as_str(), alias) {
                return Some(i);
            }
            i += 1;
        }
        None
    }

    /// The shortcut under `alias`.
    pub fn get(&self, alias: &str) -> (r: Option<&Shortcut>)
        requires
            self.wf(),
        ensures
            match r {
                Some(s) => shortcut_of(self@, alias@) == Some(*s),
                None => shortcut_of(self@, alias@).is_none(),
            },
    {
        match self.position(alias) {
            Some(i) => {
                proof {
                    lemma_alias_index(self@, alias@, i as int);
                }
                Some(&self.items[i].1)
            },
            None => None,
        }
    }

    /// Puts `shortcut` under `alias`; a shortcut that `alias` had is replaced.
    pub fn insert(&mut self, alias: String, shortcut: Shortcut)
        requires
            old(self).wf(),
        ensures
            alias_put(old(self)@, final(self)@, alias@, shortcut),
            final(self).wf(),
    {
        match self.position(alias.as_str()) {
            Some(i) => {
                proof {
                    lemma_alias_index(self@, alias@, i as int);
                }
                self.items.set(i, (alias, shortcut));
            },
            None => {
                self.items.push((alias, shortcut));
            },
        }
    }
}

/// The registry: the shortcuts of each note that has any.
#[derive(Debug)]
pub struct ShortcutsRegistry {
    pub(crate) shortcuts: IdMap<AliasMap>,
}

/// Every note's aliases are distinct.
pub open spec fn all_alias_maps_wf(s: Seq<(NoteId, AliasMap)>) -> bool {
    forall|i: int| 0 <= i < s.len() ==> (#[trigger] s[i]).1.wf()
}

impl ShortcutsRegistry {
    /// The notes with their shortcuts, in the order in which the notes came
    /// in.
    pub closed spec fn entries(&self) -> Seq<(NoteId, AliasMap)> {
        self.shortcuts@
    }

    /// No note stands twice, and every note's aliases are distinct.
    pub open spec fn wf(&self) -> bool {
        distinct_ids(self.entries()) && all_alias_maps_wf(self.entries())
    }

    /// A registry without shortcuts.
    pub fn new() -> (registry: ShortcutsRegistry)
        ensures
            registry.entries() == Seq::<(NoteId, AliasMap)>::empty(),
            registry.wf(),
    {
        ShortcutsRegistry { shortcuts: IdMap::new() }
    }

    /// The number of notes that have shortcuts.
    pub fn len(&self) -> (n: usize)
        ensures
            n == self.entries().len(),
    {
        self.shortcuts.len()
    }

    /// The note at position `i`.
    pub fn owner_at(&self, i: usize) -> (id: NoteId)
        requires
            i < self.entries().len(),
        ensures
            id == self.entries()[i as int].0,
    {
        self.shortcuts.key_at(i)
    }

    /// The shortcuts of the note at position `i`.
    pub fn aliases_at(&self, i: usize) -> (aliases: &AliasMap)
        requires
            i < self.entries().len(),
        ensures
            *aliases == self.entries()[i as int].1,
    {
        self.shortcuts.value_at(i)
    }

    /// The shortcuts of `note_id`.
    pub fn get_shortcuts(&self, note_id: &NoteId) -> (r: Option<&AliasMap>)
        requires
            self.wf(),
        ensures
            match r {
                Some(m) => value_of(self.entries(), *note_id) == Some(*m) && m.wf(),
                None => value_of(self.entries(), *note_id).is_none(),
            },
    {
        let r = self.shortcuts.get(*note_id);
        proof {
            if has_id(self.entries(), *note_id) {
                let i = crate::id_map::index_of(self.entries(), *note_id);
                assert(self.entries()[i].1.wf());
            }
        }
        r
    }

    /// Takes all shortcuts of `note_id` out and returns them.
    pub fn remove_shortcuts(&mut self, note_id: &NoteId) -> (removed: Option<AliasMap>)
        requires
            old(self).wf(),
        ensures
            final(self).entries() == without(old(self).entries(), *note_id),
            final(self).wf(),
            removed == value_of(old(self).entries(), *note_id),
    {
        let ghost before = self.entries();
        let r = self.shortcuts.remove(*note_id);
        proof {
            if has_id(before, *note_id) {
                let k = crate::id_map::index_of(before, *note_id);
                let after = self.entries();
                assert forall|i: int| 0 <= i < after.len() implies (#[trigger] after[i]).1.wf() by {
                    let b = if i < k { i } else { i + 1 };
                    assert(after[i] == before[b]);
                }
            }
        }
        r
    }
}

/// The shortcut points at the note `target`.
pub open spec fn points_to(shortcut: Shortcut, target: NoteId) -> bool {
    match shortcut.target {
        LinkTarget::Note { id } => id == target,
        _ => false,
    }
}

/// The shortcuts among `aliases` that point at `target`, each with its owner
/// and its alias, in the order of `aliases`.
pub open spec fn refs_of(owner: NoteId, aliases: Seq<(String, Shortcut)>, target: NoteId) -> Seq<
    (NoteId, Seq<char>, Shortcut),
>
    decreases aliases.len(),
{
    if aliases.len() == 0 {
        Seq::empty()
    } else {
        let rest = refs_of(owner, aliases.drop_last(), target);
        let last = aliases.last();
        if points_to(last.1, target) {
            rest.push((owner, last.0@, last.1))
        } else {
            rest
        }
    }
}

/// The shortcuts of the whole registry that point at `target`: owner by
/// owner in the registry's order, and for each owner in the order of its
/// aliases.
pub open spec fn all_refs(entries: Seq<(NoteId, AliasMap)>, target: NoteId) -> Seq<
    (NoteId, Seq<char>, Shortcut),
>
    decreases entries.len(),
{
    if entries.len() == 0 {
        Seq::empty()
    } else {
        all_refs(entries.drop_last(), target) + refs_of(
            entries.last().0,
            entries.last().1@,
            target,
        )
    }
}

/// The references that a list of found shortcuts stands for.
pub open spec fn found_refs(found: Seq<(NoteId, String, &Shortcut)>) -> Seq<
    (NoteId, Seq<char>, Shortcut),
> {
    Seq::new(found.len(), |i: int| (found[i].0, found[i].1@, *found[i].2))
}

/// The aliases that `note_id` has in `entries`; none where it has no entry.
pub open spec fn aliases_of(entries: Seq<(NoteId, AliasMap)>, note_id: NoteId) -> Seq<
    (String, Shortcut),
> {
    match value_of(entries, note_id) {
        Some(m) => m@,
        None => Seq::empty(),
    }
}

/// Whether the shortcut points at the note `target`.
pub fn shortcut_points_to(shortcut: &Shortcut, target: NoteId) -> (r: bool)
    ensures
        r == points_to(*shortcut, target),
{
    match &shortcut.target {
        LinkTarget::Note { id } => *id == target,
        _ => false,
    }
}

impl ShortcutsRegistry {
    /// Gives `note_id` the shortcut `shortcut` under `alias`. A shortcut that
    /// the note had under this alias is replaced; a note without shortcuts
    /// comes in at the end of the registry. Nothing else changes.
    pub fn add_shortcut(&mut self, note_id: NoteId, alias: String, shortcut: Shortcut)
        requires
            old(self).wf(),
        ensures
            final(self).wf(),
            has_id(final(self).entries(), note_id),
            alias_put(
                aliases_of(old(self).entries(), note_id),
                aliases_of(final(self).entries(), note_id),
                alias@,
                shortcut,
            ),
            final(self).entries().len() == if has_id(old(self).entries(), note_id) {
                old(self).entries().len()
            } else {
                old(self).entries().len() + 1
            },
            forall|j: int|
                0 <= j < old(self).entries().len() && old(self).entries()[j].0 != note_id
                    ==> #[trigger] final(self).entries()[j] == old(self).entries()[j],
            forall|j: int|
                0 <= j < old(self).entries().len() ==> (#[trigger] final(self).entries()[j]).0
                    == old(self).entries()[j].0,
    {
        let ghost before = self.entries();
        match self.shortcuts.position(note_id) {
            Some(i) => {
                proof {
                    lemma_index_of(before, note_id, i as int);
                }
                let mut aliases = self.shortcuts.swap_at(i, AliasMap::new());
                aliases.insert(alias, shortcut);
                self.shortcuts.swap_at(i, aliases);
                proof {
                    let after = self.entries();
                    assert(after[i as int].0 == note_id);
                    lemma_index_of(after, note_id, i as int);
                    assert forall|j: int| 0 <= j < after.len() implies (
                    #[trigger] after[j]).1.wf() by {
                        if j != i {
                            assert(after[j] == before[j]);
                        }
                    }
                }
            },
            None => {
                let mut aliases = AliasMap::new();
                aliases.insert(alias, shortcut);
                proof {
                    crate::id_map::lemma_upsert(before, note_id, aliases);
                }
                self.shortcuts.insert(note_id, aliases);
                proof {
                    let after = self.entries();
                    assert(after == before.push((note_id, aliases)));
                    lemma_index_of(after, note_id, before.len() as int);
                    assert forall|j: int| 0 <= j < after.len() implies (
                    #[trigger] after[j]).1.wf() by {
                        if j < before.len() {
                            assert(after[j] == before[j]);
                        }
                    }
                }
            },
        }
    }

    /// Every shortcut of the registry that points at the note `target_id`,
    /// with the note that owns it and its alias.
    pub fn find_references_to_note(&self, target_id: &NoteId) -> (found: Vec<
        (NoteId, String, &Shortcut),
    >)
        ensures
            found_refs(found@) == all_refs(self.entries(), *target_id),
    {
        let mut out: Vec<(NoteId, String, &Shortcut)> = Vec::new();
        let ghost all = self.entries();
        let mut i: usize = 0;
        proof {
            assert(all.take(0) =~= Seq::<(NoteId, AliasMap)>::empty());
            assert(found_refs(out@) =~= all_refs(all.take(0), *target_id));
        }
        while i < self.shortcuts.len()
            invariant
                i <= all.len(),
                all == self.entries(),
                found_refs(out@) == all_refs(all.take(i as int), *target_id),
            decreases all.len() - i,
        {
            let owner = self.shortcuts.key_at(i);
            let aliases = self.shortcuts.value_at(i);
            let ghost base = found_refs(out@);
            let ghost items = aliases@;
            let mut j: usize = 0;
            proof {
                assert(items.take(0) =~= Seq::<(String, Shortcut)>::empty());
                assert(found_refs(out@) =~= base + refs_of(owner, items.take(0), *target_id));
            }
            while j < aliases.len()
                invariant
                    j <= items.len(),
                    items == aliases@,
                    found_refs(out@) == base + refs_of(owner, items.take(j as int), *target_id),
                decreases items.len() - j,
            {
                let ghost so_far = found_refs(out@);
                let shortcut = aliases.shortcut_at(j);
                let hit = shortcut_points_to(shortcut, *target_id);
                if hit {
                    out.push((owner, aliases.alias_at(j).clone(), shortcut));
                }
                proof {
                    let next = items.take(j + 1);
                    assert(next.drop_last() =~= items.take(j as int));
                    assert(next.last() == items[j as int]);
                    let part = refs_of(owner, items.take(j as int), *target_id);
                    if hit {
                        let r = (owner, items[j as int].0@, items[j as int].1);
                        assert(found_refs(out@) =~= so_far.push(r));
                        assert(so_far.push(r) =~= base + part.push(r));
                    }
                }
                j += 1;
            }
            proof {
                assert(items.take(j as int) =~= items);
                let next = all.take(i + 1);
                assert(next.drop_last() =~= all.take(i as int));
                assert(next.last() == all[i as int]);
            }
            i += 1;
        }
        assert(all.take(i as int) =~= all);
        out
    }
}

} // verus!
