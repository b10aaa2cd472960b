//! The store: a cache of live entries with borrow discipline, a file model,
//! and the hook pipeline around every CRUD operation.
//!
//! Per identifier the store moves through three states: absent (no cache
//! slot), present (slot exists, not borrowed) and borrowed (a live
//! [`FileLockEntry`] exists).  The borrow status is the sole mechanism that
//! keeps two handles from mutating one record at the same time.
//!
//! The store holds the file contents it governs in memory, as a list of
//! `(identifier, text)` pairs; reading the backing directory into the store
//! at start-up and flushing [`Store::files`] back to disk are left to the
//! embedding program, which owns all file access.

use vstd::prelude::*;

use crate::configuration::{
    aspect_names, config_is_valid, spec_config_names, spec_config_valid, spec_opt_value_view,
};
use crate::entry::{Entry, SpecEntry};
use crate::error::{StoreError, StoreErrorKind};
use crate::header::spec_default_header;
use crate::hook::{
    Aspect, Hook, HookPosition, aspect_hooks, apply_entry_hooks, entry_run_error, id_run_error,
    run_entry_hooks, run_id_hooks,
};
use crate::storeid::{StoreId, spec_storified, storify};
use crate::value::{SpecValue, Value, spec_table_get, spec_table_view, table_find,
    lemma_table_view_index};

verus! {

/// Mutual-exclusion status of a cache slot.
#[derive(Clone, Copy, Debug, PartialEq, Eq, Structural)]
pub enum StoreEntryStatus {
    Present,
    Borrowed,
}

/// A cache slot: per-identifier bookkeeping.
struct StoreEntry {
    id: StoreId,
    status: StoreEntryStatus,
}

/// The position of the first pair of `s` whose key is `key`, if any.
pub open spec fn spec_assoc_find<T>(s: Seq<(Seq<char>, T)>, key: Seq<char>) -> Option<int>
    decreases s.len(),
{
    if s.len() == 0 {
        None
    } else if s[0].0 == key {
        Some(0)
    } else {
        match spec_assoc_find(s.drop_first(), key) {
            Some(i) => Some(i + 1),
            None => None,
        }
    }
}

/// A found position is in bounds and carries the key searched for, and no
/// earlier pair does.
pub proof fn lemma_assoc_find<T>(s: Seq<(Seq<char>, T)>, key: Seq<char>)
    ensures
        match spec_assoc_find(s, key) {
            Some(i) => 0 <= i < s.len() && s[i].0 == key && forall|j: int|
                0 <= j < i ==> s[j].0 != key,
            None => forall|j: int| 0 <= j < s.len() ==> s[j].0 != key,
        },
    decreases s.len(),
{
    if s.len() > 0 && s[0].0 != key {
        let rest = s.drop_first();
        lemma_assoc_find(rest, key);
        assert forall|j: int| 0 <= j < rest.len() implies rest[j] == s[j + 1] by {}
        match spec_assoc_find(rest, key) {
            Some(i) => {
                assert forall|j: int| 0 <= j < i + 1 implies s[j].0 != key by {
                    if j > 0 {
                        assert(rest[j - 1].0 != key);
                    }
                }
            },
            None => {
                assert forall|j: int| 0 <= j < s.len() implies s[j].0 != key by {
                    if j > 0 {
                        assert(rest[j - 1].0 != key);
                    }
                }
            },
        }
    }
}


/// Updating a pair in place, keeping its key, leaves it where the key is
/// found.
pub proof fn lemma_assoc_find_update<T>(s: Seq<(Seq<char>, T)>, i: int, p: (Seq<char>, T))
    requires
        0 <= i < s.len(),
        spec_assoc_find(s, p.0) == Some(i),
    ensures
        spec_assoc_find(s.update(i, p), p.0) == Some(i),
    decreases s.len(),
{
    lemma_assoc_find(s, p.0);
    if i > 0 {
        assert(s.update(i, p).drop_first() =~= s.drop_first().update(i - 1, p));
        lemma_assoc_find(s.drop_first(), p.0);
        lemma_assoc_find(s, p.0);
        assert(spec_assoc_find(s.drop_first(), p.0) == Some(i - 1));
        lemma_assoc_find_update(s.drop_first(), i - 1, p);
    }
}

/// A pair appended under a fresh key is found at the end.
pub proof fn lemma_assoc_find_push<T>(s: Seq<(Seq<char>, T)>, p: (Seq<char>, T))
    requires
        spec_assoc_find(s, p.0) is None,
    ensures
        spec_assoc_find(s.push(p), p.0) == Some(s.len() as int),
    decreases s.len(),
{
    if s.len() == 0 {
        assert(s.push(p)[0] == p);
    } else {
        assert(s.push(p).drop_first() =~= s.drop_first().push(p));
        lemma_assoc_find_push(s.drop_first(), p);
    }
}

/// The slot marked for `sid` is found with its new status.
pub proof fn lemma_slots_mark_found(
    slots: Seq<(Seq<char>, StoreEntryStatus)>,
    sid: Seq<char>,
    status: StoreEntryStatus,
)
    ensures
        ({
            let marked = spec_slots_mark(slots, sid, status);
            match spec_assoc_find(marked, sid) {
                Some(i) => 0 <= i < marked.len() && marked[i] == (sid, status),
                None => false,
            }
        }),
{
    match spec_assoc_find(slots, sid) {
        Some(i) => {
            lemma_assoc_find(slots, sid);
            lemma_assoc_find_update(slots, i, (sid, status));
        },
        None => {
            lemma_assoc_find_push(slots, (sid, status));
        },
    }
}

/// `slots` with the slot for `sid` marked `status` (added when absent).
pub open spec fn spec_slots_mark(
    slots: Seq<(Seq<char>, StoreEntryStatus)>,
    sid: Seq<char>,
    status: StoreEntryStatus,
) -> Seq<(Seq<char>, StoreEntryStatus)> {
    match spec_assoc_find(slots, sid) {
        Some(i) => slots.update(i, (sid, status)),
        None => slots.push((sid, status)),
    }
}

/// `files` with the file for `sid` set to `text` (added when absent).
pub open spec fn spec_files_put(
    files: Seq<(Seq<char>, Seq<char>)>,
    sid: Seq<char>,
    text: Seq<char>,
) -> Seq<(Seq<char>, Seq<char>)> {
    match spec_assoc_find(files, sid) {
        Some(i) => files.update(i, (sid, text)),
        None => files.push((sid, text)),
    }
}

/// What loading an entry for `sid` from an optional file text yields: a
/// fresh default entry when there is no file, the parsed entry when the text
/// is accepted, and nothing (a fatal load failure) otherwise.
pub open spec fn spec_loaded_entry(file: Option<Seq<char>>, sid: Seq<char>) -> Option<SpecEntry> {
    match file {
        None => Some(
            SpecEntry {
                location: sid,
                header: spec_default_header(),
                content: Seq::<char>::empty(),
            },
        ),
        Some(text) => match crate::codec::spec_entry_accepted(text) {
            Some(tc) => Some(
                SpecEntry { location: sid, header: SpecValue::Table(tc.0), content: tc.1 },
            ),
            None => None,
        },
    }
}


/// The file put for `sid` is found with its new text.
pub proof fn lemma_files_put_found(files: Seq<(Seq<char>, Seq<char>)>, sid: Seq<char>, text: Seq<char>)
    ensures
        ({
            let nf = spec_files_put(files, sid, text);
            match spec_assoc_find(nf, sid) {
                Some(j) => 0 <= j < nf.len() && nf[j] == (sid, text),
                None => false,
            }
        }),
{
    match spec_assoc_find(files, sid) {
        Some(i) => {
            lemma_assoc_find(files, sid);
            lemma_assoc_find_update(files, i, (sid, text));
        },
        None => {
            lemma_assoc_find_push(files, (sid, text));
        },
    }
}

/// The write-back/read-back law: once an entry with header table `t` and
/// content `c` has been flushed for `sid` (as `update` and `release` do),
/// loading `sid` from the new file model yields exactly that entry — under
/// the round-trip conditions on the header (schema-valid, bare keys, and the
/// written closing delimiter is the text's first delimiter line).
pub proof fn lemma_flush_then_load(
    files: Seq<(Seq<char>, Seq<char>)>,
    sid: Seq<char>,
    t: Seq<(Seq<char>, SpecValue)>,
    c: Seq<char>,
)
    requires
        crate::codec::spec_schema_ok(t),
        crate::codec::spec_value_wf(SpecValue::Table(t)),
        crate::codec::spec_find_delim(crate::codec::spec_entry_text(t, c), 4) == Some(
            4 + crate::codec::spec_body(t).len() as int,
        ),
    ensures
        ({
            let nf = spec_files_put(files, sid, crate::codec::spec_entry_text(t, c));
            let fo = match spec_assoc_find(nf, sid) {
                Some(j) => Some(nf[j].1),
                None => None::<Seq<char>>,
            };
            spec_loaded_entry(fo, sid) == Some(
                SpecEntry { location: sid, header: SpecValue::Table(t), content: c },
            )
        }),
{
    lemma_files_put_found(files, sid, crate::codec::spec_entry_text(t, c));
    crate::codec::lemma_entry_round_trip(t, c);
}

/// A scoped handle on a borrowed entry.  While it exists, its identifier's
/// slot is borrowed and no second handle can be taken.  Hand it back with
/// [`Store::update`] (failures surface) or [`Store::release`] (best-effort
/// flush, failures swallowed).
pub struct FileLockEntry {
    entry: Entry,
    key: StoreId,
}

impl FileLockEntry {
    /// The entry behind this handle.
    pub closed spec fn spec_entry(&self) -> SpecEntry {
        self.entry@
    }

    /// The (storified) identifier this handle locks.
    pub closed spec fn spec_key(&self) -> Seq<char> {
        self.key@
    }

    /// The entry field itself (for relating a borrowed entry to its owner).
    pub closed spec fn entry_part(&self) -> Entry {
        self.entry
    }

    /// The entry behind this handle.
    pub fn get_entry(&self) -> (r: &Entry)
        ensures
            r@ == self.spec_entry(),
    {
        &self.entry
    }

    /// Mutable access to the entry; the key is unchanged.
    pub fn get_entry_mut(&mut self) -> (r: &mut Entry)
        ensures
            *r == old(self).entry_part(),
            final(self).spec_entry() == final(r)@,
            final(self).spec_key() == old(self).spec_key(),
    {
        &mut self.entry
    }

    /// The identifier this handle locks.
    pub fn get_key(&self) -> (r: &StoreId)
        ensures
            r@ == self.spec_key(),
    {
        &self.key
    }
}

/// The store: location, configuration, eight aspect lists, the cache-slot
/// table and the in-memory file model.
pub struct Store<H> {
    location: String,
    configuration: Option<Value>,
    pre_create_aspects: Vec<Aspect<H>>,
    post_create_aspects: Vec<Aspect<H>>,
    pre_retrieve_aspects: Vec<Aspect<H>>,
    post_retrieve_aspects: Vec<Aspect<H>>,
    pre_update_aspects: Vec<Aspect<H>>,
    post_update_aspects: Vec<Aspect<H>>,
    pre_delete_aspects: Vec<Aspect<H>>,
    post_delete_aspects: Vec<Aspect<H>>,
    entries: Vec<StoreEntry>,
    files: Vec<(StoreId, String)>,
}

impl<H: Hook> Store<H> {
    /// The root directory prefix of this store.
    pub closed spec fn spec_location(&self) -> Seq<char> {
        self.location@
    }

    /// The configuration value of this store, if any.
    pub closed spec fn spec_config(&self) -> Option<SpecValue> {
        spec_opt_value_view(self.configuration)
    }

    /// The cache slots: identifier and borrow status, in insertion order.
    pub closed spec fn spec_slots(&self) -> Seq<(Seq<char>, StoreEntryStatus)> {
        Seq::new(self.entries@.len(), |i: int| (self.entries@[i].id@, self.entries@[i].status))
    }

    /// The file model: identifier and text, in insertion order.
    pub closed spec fn spec_files(&self) -> Seq<(Seq<char>, Seq<char>)> {
        Seq::new(self.files@.len(), |i: int| (self.files@[i].0@, self.files@[i].1@))
    }

    /// The aspects registered at a lifecycle point, in order.
    pub closed spec fn spec_aspects(&self, pos: HookPosition) -> Seq<Aspect<H>> {
        match pos {
            HookPosition::PreCreate => self.pre_create_aspects@,
            HookPosition::PostCreate => self.post_create_aspects@,
            HookPosition::PreRetrieve => self.pre_retrieve_aspects@,
            HookPosition::PostRetrieve => self.post_retrieve_aspects@,
            HookPosition::PreUpdate => self.pre_update_aspects@,
            HookPosition::PostUpdate => self.post_update_aspects@,
            HookPosition::PreDelete => self.pre_delete_aspects@,
            HookPosition::PostDelete => self.post_delete_aspects@,
        }
    }

    /// Whether a cache slot exists for `id`.
    pub open spec fn spec_has_slot(&self, id: Seq<char>) -> bool {
        spec_assoc_find(self.spec_slots(), id) is Some
    }

    /// Whether the slot for `id` is borrowed.
    pub open spec fn spec_borrowed(&self, id: Seq<char>) -> bool {
        match spec_assoc_find(self.spec_slots(), id) {
            Some(i) => self.spec_slots()[i].1 == StoreEntryStatus::Borrowed,
            None => false,
        }
    }

    /// The text of the file for `id`, if one exists.
    pub open spec fn spec_file_of(&self, id: Seq<char>) -> Option<Seq<char>> {
        match spec_assoc_find(self.spec_files(), id) {
            Some(i) => Some(self.spec_files()[i].1),
            None => None,
        }
    }

    /// Well-formedness: one slot per identifier, one file per identifier.
    pub open spec fn wf(&self) -> bool {
        (forall|i: int, j: int|
            0 <= i < j < self.spec_slots().len() ==> (#[trigger] self.spec_slots()[i]).0 != (
            #[trigger] self.spec_slots()[j]).0) && (forall|i: int, j: int|
            0 <= i < j < self.spec_files().len() ==> (#[trigger] self.spec_files()[i]).0 != (
            #[trigger] self.spec_files()[j]).0)
    }

    /// Everything but the slot table is unchanged.
    pub open spec fn same_but_slots(&self, other: &Store<H>) -> bool {
        self.spec_location() == other.spec_location() && self.spec_config() == other.spec_config()
            && self.spec_files() == other.spec_files() && self.spec_aspects(HookPosition::PreCreate) == other.spec_aspects(HookPosition::PreCreate)
            && self.spec_aspects(HookPosition::PostCreate) == other.spec_aspects(
            HookPosition::PostCreate,
        ) && self.spec_aspects(HookPosition::PreRetrieve) == other.spec_aspects(
            HookPosition::PreRetrieve,
        ) && self.spec_aspects(HookPosition::PostRetrieve) == other.spec_aspects(
            HookPosition::PostRetrieve,
        ) && self.spec_aspects(HookPosition::PreUpdate) == other.spec_aspects(
            HookPosition::PreUpdate,
        ) && self.spec_aspects(HookPosition::PostUpdate) == other.spec_aspects(
            HookPosition::PostUpdate,
        ) && self.spec_aspects(HookPosition::PreDelete) == other.spec_aspects(
            HookPosition::PreDelete,
        ) && self.spec_aspects(HookPosition::PostDelete) == other.spec_aspects(
            HookPosition::PostDelete,
        )
    }

    /// Everything but the slot table and the file model is unchanged.
    pub open spec fn same_but_state(&self, other: &Store<H>) -> bool {
        self.spec_location() == other.spec_location() && self.spec_config() == other.spec_config()
            && self.spec_aspects(HookPosition::PreCreate) == other.spec_aspects(HookPosition::PreCreate)
            && self.spec_aspects(HookPosition::PostCreate) == other.spec_aspects(
            HookPosition::PostCreate,
        ) && self.spec_aspects(HookPosition::PreRetrieve) == other.spec_aspects(
            HookPosition::PreRetrieve,
        ) && self.spec_aspects(HookPosition::PostRetrieve) == other.spec_aspects(
            HookPosition::PostRetrieve,
        ) && self.spec_aspects(HookPosition::PreUpdate) == other.spec_aspects(
            HookPosition::PreUpdate,
        ) && self.spec_aspects(HookPosition::PostUpdate) == other.spec_aspects(
            HookPosition::PostUpdate,
        ) && self.spec_aspects(HookPosition::PreDelete) == other.spec_aspects(
            HookPosition::PreDelete,
        ) && self.spec_aspects(HookPosition::PostDelete) == other.spec_aspects(
            HookPosition::PostDelete,
        )
    }

    /// Finds the cache slot for `sid`.
    fn find_slot(&self, sid: &StoreId) -> (r: Option<usize>)
        ensures
            match r {
                Some(i) => spec_assoc_find(self.spec_slots(), sid@) == Some(i as int) && i
                    < self.spec_slots().len(),
                None => spec_assoc_find(self.spec_slots(), sid@) == None::<int>,
            },
    {
        let ghost m = self.spec_slots();
        let mut i: usize = 0;
        while i < self.entries.len()
            invariant
                0 <= i <= self.entries@.len(),
                m == self.spec_slots(),
                m.len() == self.entries@.len(),
                forall|j: int| 0 <= j < i ==> (#[trigger] m[j]).0 != sid@,
            decreases self.entries@.len() - i,
        {
            if self.entries[i].id == *sid {
                proof {
                    assert(m[i as int].0 == sid@);
                    lemma_assoc_find(m, sid@);
                }
                return Some(i);
            }
            i = i + 1;
        }
        proof {
            lemma_assoc_find(m, sid@);
        }
        None
    }

    /// Finds the file for `sid`.
    fn find_file(&self, sid: &StoreId) -> (r: Option<usize>)
        ensures
            match r {
                Some(i) => spec_assoc_find(self.spec_files(), sid@) == Some(i as int) && i
                    < self.spec_files().len(),
                None => spec_assoc_find(self.spec_files(), sid@) == None::<int>,
            },
    {
        let ghost m = self.spec_files();
        let mut i: usize = 0;
        while i < self.files.len()
            invariant
                0 <= i <= self.files@.len(),
                m == self.spec_files(),
                m.len() == self.files@.len(),
                forall|j: int| 0 <= j < i ==> (#[trigger] m[j]).0 != sid@,
            decreases self.files@.len() - i,
        {
            if self.files[i].0 == *sid {
                proof {
                    assert(m[i as int].0 == sid@);
                    lemma_assoc_find(m, sid@);
                }
                return Some(i);
            }
            i = i + 1;
        }
        proof {
            lemma_assoc_find(m, sid@);
        }
        None
    }
}


/// Whether the keys of an association sequence are pairwise distinct.
pub open spec fn spec_assoc_unique<T>(s: Seq<(Seq<char>, T)>) -> bool {
    forall|i: int, j: int|
        0 <= i < j < s.len() ==> (#[trigger] s[i]).0 != (#[trigger] s[j]).0
}

/// Updating a pair in place, keeping its key, keeps the keys distinct.
pub proof fn lemma_assoc_update_unique<T>(s: Seq<(Seq<char>, T)>, i: int, p: (Seq<char>, T))
    requires
        spec_assoc_unique(s),
        0 <= i < s.len(),
        p.0 == s[i].0,
    ensures
        spec_assoc_unique(s.update(i, p)),
{
}

/// Appending a pair with a fresh key keeps the keys distinct.
pub proof fn lemma_assoc_push_unique<T>(s: Seq<(Seq<char>, T)>, p: (Seq<char>, T))
    requires
        spec_assoc_unique(s),
        forall|j: int| 0 <= j < s.len() ==> (#[trigger] s[j]).0 != p.0,
    ensures
        spec_assoc_unique(s.push(p)),
{
}

/// Removing a pair keeps the keys distinct.
pub proof fn lemma_assoc_remove_unique<T>(s: Seq<(Seq<char>, T)>, i: int)
    requires
        spec_assoc_unique(s),
        0 <= i < s.len(),
    ensures
        spec_assoc_unique(s.remove(i)),
{
    assert forall|a: int, b: int|
        0 <= a < b < s.remove(i).len() implies (#[trigger] s.remove(i)[a]).0 != (#[trigger] s.remove(
        i,
    )[b]).0 by {
        let a0: int = if a < i {
            a
        } else {
            a + 1
        };
        let b0: int = if b < i {
            b
        } else {
            b + 1
        };
        assert(s.remove(i)[a] == s[a0]);
        assert(s.remove(i)[b] == s[b0]);
    }
}

impl<H: Hook> Store<H> {
    /// Marks (or creates) the slot for `sid` with `status`.
    fn mark_slot(&mut self, sid: &StoreId, status: StoreEntryStatus)
        requires
            old(self).wf(),
        ensures
            final(self).wf(),
            final(self).same_but_slots(old(self)),
            final(self).spec_slots() == spec_slots_mark(old(self).spec_slots(), sid@, status),
    {
        let ghost slots0 = self.spec_slots();
        match self.find_slot(sid) {
            Some(i) => {
                proof {
                    lemma_assoc_find(slots0, sid@);
                }
                self.entries.remove(i);
                self.entries.insert(i, StoreEntry { id: sid.clone(), status: status });
                proof {
                    assert(self.spec_slots() =~= slots0.update(i as int, (sid@, status)));
                    lemma_assoc_update_unique(slots0, i as int, (sid@, status));
                    assert(self.spec_files() =~= old(self).spec_files());
                }
            },
            None => {
                proof {
                    lemma_assoc_find(slots0, sid@);
                }
                self.entries.push(StoreEntry { id: sid.clone(), status: status });
                proof {
                    assert(self.spec_slots() =~= slots0.push((sid@, status)));
                    lemma_assoc_push_unique(slots0, (sid@, status));
                    assert(self.spec_files() =~= old(self).spec_files());
                }
            },
        }
    }

    /// Removes the slot for `sid`, if one exists.
    fn drop_slot(&mut self, sid: &StoreId)
        requires
            old(self).wf(),
        ensures
            final(self).wf(),
            final(self).same_but_slots(old(self)),
            final(self).spec_slots() == (match spec_assoc_find(old(self).spec_slots(), sid@) {
                Some(i) => old(self).spec_slots().remove(i),
                None => old(self).spec_slots(),
            }),
    {
        let ghost slots0 = self.spec_slots();
        match self.find_slot(sid) {
            Some(i) => {
                self.entries.remove(i);
                proof {
                    assert(self.spec_slots() =~= slots0.remove(i as int));
                    lemma_assoc_remove_unique(slots0, i as int);
                    assert(self.spec_files() =~= old(self).spec_files());
                }
            },
            None => {},
        }
    }

    /// Stores `text` as the file for `sid` (created when absent, truncated
    /// and overwritten when present).
    fn put_file(&mut self, sid: &StoreId, text: String)
        requires
            old(self).wf(),
        ensures
            final(self).wf(),
            final(self).same_but_state(old(self)),
            final(self).spec_slots() == old(self).spec_slots(),
            final(self).spec_files() == spec_files_put(old(self).spec_files(), sid@, text@),
    {
        let ghost files0 = self.spec_files();
        match self.find_file(sid) {
            Some(j) => {
                proof {
                    lemma_assoc_find(files0, sid@);
                }
                self.files.remove(j);
                self.files.insert(j, (sid.clone(), text));
                proof {
                    assert(self.spec_files() =~= files0.update(j as int, (sid@, text@)));
                    lemma_assoc_update_unique(files0, j as int, (sid@, text@));
                    assert(self.spec_slots() =~= old(self).spec_slots());
                }
            },
            None => {
                proof {
                    lemma_assoc_find(files0, sid@);
                }
                self.files.push((sid.clone(), text));
                proof {
                    assert(self.spec_files() =~= files0.push((sid@, text@)));
                    lemma_assoc_push_unique(files0, (sid@, text@));
                    assert(self.spec_slots() =~= old(self).spec_slots());
                }
            },
        }
    }

    /// Builds the aspect list for one lifecycle point from the configured
    /// names.
    fn build_aspects(config: &Option<Value>, key: &String) -> (r: Vec<Aspect<H>>)
        requires
            (match spec_opt_value_view(*config) {
                Some(SpecValue::Table(t)) => crate::configuration::spec_aspect_key_ok(t, key@),
                _ => true,
            }),
        ensures
            ({
                let names = spec_config_names(spec_opt_value_view(*config), key@);
                r@.len() == names.len() && (forall|i: int|
                    0 <= i < names.len() ==> (#[trigger] r@[i]).spec_name() == names[i]
                        && r@[i].spec_hooks() == Seq::<H>::empty())
            }),
    {
        let names = aspect_names(config, key);
        let mut out: Vec<Aspect<H>> = Vec::new();
        let ghost gnames = spec_config_names(spec_opt_value_view(*config), key@);
        let mut i: usize = 0;
        while i < names.len()
            invariant
                0 <= i <= names@.len(),
                out@.len() == i,
                gnames.len() == names@.len(),
                forall|k: int| 0 <= k < names@.len() ==> (#[trigger] names@[k])@ == gnames[k],
                forall|k: int| 0 <= k < i ==> (#[trigger] out@[k]).spec_name() == gnames[k]
                    && out@[k].spec_hooks() == Seq::<H>::empty(),
            decreases names@.len() - i,
        {
            out.push(Aspect::new(names[i].clone()));
            i = i + 1;
        }
        out
    }

    /// All aspect lists are freshly built from the configured names, with no
    /// hooks yet.
    pub open spec fn spec_fresh_aspects(&self, key: Seq<char>, pos: HookPosition) -> bool {
        ({
            let names = spec_config_names(self.spec_config(), key);
            let asps = self.spec_aspects(pos);
            asps.len() == names.len() && (forall|i: int|
                0 <= i < names.len() ==> (#[trigger] asps[i]).spec_name() == names[i]
                    && asps[i].spec_hooks() == Seq::<H>::empty())
        })
    }

    /// Creates a new store over an empty file model.
    ///
    /// A malformed configuration is rejected; an accepted one supplies the
    /// aspect names for the eight lifecycle points.  Creating the backing
    /// directory on disk is the embedding program's concern.
    pub fn new(location: String, store_config: Option<Value>) -> (r: Result<Store<H>, StoreError>)
        ensures
            r matches Ok(st) ==> spec_config_valid(spec_opt_value_view(store_config)) && st.wf()
                && st.spec_location() == location@ && st.spec_config() == spec_opt_value_view(
                store_config,
            ) && st.spec_slots().len() == 0 && st.spec_files().len() == 0
                && st.spec_fresh_aspects("pre-create-aspects"@, HookPosition::PreCreate)
                && st.spec_fresh_aspects("post-create-aspects"@, HookPosition::PostCreate)
                && st.spec_fresh_aspects("pre-retrieve-aspects"@, HookPosition::PreRetrieve)
                && st.spec_fresh_aspects("post-retrieve-aspects"@, HookPosition::PostRetrieve)
                && st.spec_fresh_aspects("pre-update-aspects"@, HookPosition::PreUpdate)
                && st.spec_fresh_aspects("post-update-aspects"@, HookPosition::PostUpdate)
                && st.spec_fresh_aspects("pre-delete-aspects"@, HookPosition::PreDelete)
                && st.spec_fresh_aspects("post-delete-aspects"@, HookPosition::PostDelete),
            r matches Err(e) ==> !spec_config_valid(spec_opt_value_view(store_config))
                && e.spec_kind() == StoreErrorKind::ConfigurationError,
    {
        if !config_is_valid(&store_config) {
            return Err(StoreError::new(StoreErrorKind::ConfigurationError, None));
        }
        let store = Store {
            pre_create_aspects: Self::build_aspects(
                &store_config,
                &String::from_str("pre-create-aspects"),
            ),
            post_create_aspects: Self::build_aspects(
                &store_config,
                &String::from_str("post-create-aspects"),
            ),
            pre_retrieve_aspects: Self::build_aspects(
                &store_config,
                &String::from_str("pre-retrieve-aspects"),
            ),
            post_retrieve_aspects: Self::build_aspects(
                &store_config,
                &String::from_str("post-retrieve-aspects"),
            ),
            pre_update_aspects: Self::build_aspects(
                &store_config,
                &String::from_str("pre-update-aspects"),
            ),
            post_update_aspects: Self::build_aspects(
                &store_config,
                &String::from_str("post-update-aspects"),
            ),
            pre_delete_aspects: Self::build_aspects(
                &store_config,
                &String::from_str("pre-delete-aspects"),
            ),
            post_delete_aspects: Self::build_aspects(
                &store_config,
                &String::from_str("post-delete-aspects"),
            ),
            location: location,
            configuration: store_config,
            entries: Vec::new(),
            files: Vec::new(),
        };
        Ok(store)
    }

    /// The store configuration.
    pub fn config(&self) -> (r: Option<&Value>)
        ensures
            match r {
                Some(v) => self.spec_config() == Some(v@),
                None => self.spec_config() is None,
            },
    {
        self.configuration.as_ref()
    }

    /// The root path of this store.
    pub fn path(&self) -> (r: &String)
        ensures
            r@ == self.spec_location(),
    {
        &self.location
    }

    /// Normalizes an identifier under this store's root.
    pub fn storify_id(&self, id: &StoreId) -> (r: StoreId)
        ensures
            r@ == spec_storified(self.spec_location(), id@),
    {
        storify(&self.location, id)
    }

    /// Seeds the file model with one file, as read from the backing
    /// directory; `id` is the full (storified) identifier.  A file that is
    /// already present is not overwritten.
    pub fn load_file(&mut self, id: StoreId, text: String) -> (r: Result<(), StoreError>)
        requires
            old(self).wf(),
        ensures
            final(self).wf(),
            final(self).same_but_state(old(self)),
            final(self).spec_slots() == old(self).spec_slots(),
            match spec_assoc_find(old(self).spec_files(), id@) {
                Some(_) => (r matches Err(e) && e.spec_kind() == StoreErrorKind::StorePathExists)
                    && final(self).spec_files() == old(self).spec_files(),
                None => r is Ok && final(self).spec_files() == old(self).spec_files().push(
                    (id@, text@),
                ),
            },
    {
        let ghost files0 = self.spec_files();
        match self.find_file(&id) {
            Some(_) => Err(StoreError::new(StoreErrorKind::StorePathExists, None)),
            None => {
                proof {
                    lemma_assoc_find(files0, id@);
                }
                self.files.push((id, text));
                proof {
                    assert(self.spec_files() =~= files0.push(
                        (self.files@.last().0@, self.files@.last().1@),
                    ));
                    lemma_assoc_push_unique(files0, self.spec_files().last());
                    assert(self.spec_slots() =~= old(self).spec_slots());
                }
                Ok(())
            },
        }
    }

    /// The file model: one `(identifier, text)` pair per governed file, for
    /// the embedding program to flush to disk.
    pub fn files(&self) -> (r: &Vec<(StoreId, String)>)
        ensures
            r@.len() == self.spec_files().len(),
            forall|i: int| 0 <= i < r@.len() ==> ((#[trigger] r@[i]).0@, r@[i].1@)
                == self.spec_files()[i],
    {
        &self.files
    }
}


impl<H: Hook> Store<H> {
    /// Creates the entry at `id`: fails when a slot already exists; otherwise
    /// inserts a borrowed slot and hands out a handle on a fresh entry.
    ///
    /// Pre-create hooks run on the identifier and abort creation when one
    /// fails; post-create hooks run on the fresh entry, and the handle is
    /// returned whatever their verdict (best-effort policy — logging was the
    /// only reporting channel for a failing post-create hook).  Nothing is
    /// written to the file model; the file appears on first write-back.
    #[verifier::rlimit(60)]
    pub fn create(&mut self, id: StoreId) -> (r: Result<FileLockEntry, StoreError>)
        requires
            old(self).wf(),
        ensures
            final(self).wf(),
            final(self).same_but_slots(old(self)),
            ({
                let sid = spec_storified(old(self).spec_location(), id@);
                let pre = aspect_hooks(old(self).spec_aspects(HookPosition::PreCreate));
                let post = aspect_hooks(old(self).spec_aspects(HookPosition::PostCreate));
                match id_run_error(pre, sid) {
                    Some(k) => (r matches Err(e) && e.spec_kind()
                        == StoreErrorKind::PreHookExecuteError && e.spec_cause_kind() == Some(k))
                        && final(self).spec_slots() == old(self).spec_slots(),
                    None => if old(self).spec_has_slot(sid) {
                        (r matches Err(e) && e.spec_kind() == StoreErrorKind::EntryAlreadyExists)
                            && final(self).spec_slots() == old(self).spec_slots()
                    } else {
                        r matches Ok(fle) && fle.spec_key() == sid && fle.spec_entry()
                            == apply_entry_hooks(
                            post,
                            SpecEntry {
                                location: sid,
                                header: spec_default_header(),
                                content: Seq::<char>::empty(),
                            },
                        ) && final(self).spec_slots() == old(self).spec_slots().push(
                            (sid, StoreEntryStatus::Borrowed),
                        ) && final(self).spec_borrowed(sid)
                    },
                }
            }),
    {
        let sid = storify(&self.location, &id);
        match run_id_hooks(&self.pre_create_aspects, &sid) {
            Err(e) => {
                return Err(
                    StoreError::new(StoreErrorKind::PreHookExecuteError, Some(Box::new(e))),
                );
            },
            Ok(_) => {},
        }
        let ghost slots0 = self.spec_slots();
        match self.find_slot(&sid) {
            Some(_) => {
                return Err(StoreError::new(StoreErrorKind::EntryAlreadyExists, None));
            },
            None => {},
        }
        proof {
            lemma_assoc_find(slots0, sid@);
        }
        self.entries.push(StoreEntry { id: sid.clone(), status: StoreEntryStatus::Borrowed });
        proof {
            assert(self.spec_slots() =~= slots0.push((sid@, StoreEntryStatus::Borrowed)));
            lemma_assoc_push_unique(slots0, (sid@, StoreEntryStatus::Borrowed));
            assert(self.spec_files() =~= old(self).spec_files());
        }
        proof {
            lemma_assoc_find_push(slots0, (sid@, StoreEntryStatus::Borrowed));
        }
        let mut entry = Entry::new(sid.clone());
        proof {
            assert(entry@ =~= (SpecEntry {
                location: sid@,
                header: spec_default_header(),
                content: Seq::<char>::empty(),
            }));
        }
        let _ = run_entry_hooks(&self.post_create_aspects, &mut entry);
        Ok(FileLockEntry { entry: entry, key: sid })
    }

    /// Borrows the entry at `id`, loading it from its file when one exists
    /// (no file means a fresh entry).  Fails when the identifier is already
    /// borrowed; pre-retrieve hooks abort the retrieval, a failing
    /// post-retrieve hook revokes it (the store is left unchanged).
    #[verifier::rlimit(60)]
    pub fn retrieve(&mut self, id: StoreId) -> (r: Result<FileLockEntry, StoreError>)
        requires
            old(self).wf(),
        ensures
            final(self).wf(),
            final(self).same_but_slots(old(self)),
            ({
                let sid = spec_storified(old(self).spec_location(), id@);
                let pre = aspect_hooks(old(self).spec_aspects(HookPosition::PreRetrieve));
                let post = aspect_hooks(old(self).spec_aspects(HookPosition::PostRetrieve));
                match id_run_error(pre, sid) {
                    Some(k) => (r matches Err(e) && e.spec_kind()
                        == StoreErrorKind::PreHookExecuteError && e.spec_cause_kind() == Some(k))
                        && final(self).spec_slots() == old(self).spec_slots(),
                    None => if old(self).spec_borrowed(sid) {
                        (r matches Err(e) && e.spec_kind() == StoreErrorKind::EntryAlreadyBorrowed)
                            && final(self).spec_slots() == old(self).spec_slots()
                    } else {
                        match spec_loaded_entry(old(self).spec_file_of(sid), sid) {
                            None => (r matches Err(e) && e.spec_kind()
                                == StoreErrorKind::MalformedEntry) && final(self).spec_slots()
                                == old(self).spec_slots(),
                            Some(e0) => match entry_run_error(post, e0) {
                                Some(k) => (r matches Err(e) && e.spec_kind()
                                    == StoreErrorKind::HookExecutionError && e.spec_cause_kind()
                                    == Some(k)) && final(self).spec_slots() == old(self).spec_slots(),
                                None => r matches Ok(fle) && fle.spec_key() == sid
                                    && fle.spec_entry() == apply_entry_hooks(post, e0) && final(self).spec_slots() == spec_slots_mark(
                                    old(self).spec_slots(),
                                    sid,
                                    StoreEntryStatus::Borrowed,
                                ) && final(self).spec_borrowed(sid),
                            },
                        }
                    },
                }
            }),
    {
        let sid = storify(&self.location, &id);
        match run_id_hooks(&self.pre_retrieve_aspects, &sid) {
            Err(e) => {
                return Err(
                    StoreError::new(StoreErrorKind::PreHookExecuteError, Some(Box::new(e))),
                );
            },
            Ok(_) => {},
        }
        let slot = self.find_slot(&sid);
        match slot {
            Some(i) => {
                if self.entries[i].status == StoreEntryStatus::Borrowed {
                    return Err(StoreError::new(StoreErrorKind::EntryAlreadyBorrowed, None));
                }
            },
            None => {},
        }
        let mut entry = match self.find_file(&sid) {
            Some(j) => {
                match Entry::from_str(sid.clone(), self.files[j].1.as_str()) {
                    Ok(e) => e,
                    Err(e) => {
                        return Err(e);
                    },
                }
            },
            None => Entry::new(sid.clone()),
        };
        let ghost e0 = entry@;
        proof {
            if self.spec_file_of(sid@) is None {
                assert(entry@ =~= (SpecEntry {
                    location: sid@,
                    header: spec_default_header(),
                    content: Seq::<char>::empty(),
                }));
            } else {
                assert(entry@ =~= spec_loaded_entry(self.spec_file_of(sid@), sid@)->0);
            }
            assert(spec_loaded_entry(self.spec_file_of(sid@), sid@) == Some(e0));
        }
        match run_entry_hooks(&self.post_retrieve_aspects, &mut entry) {
            Err(e) => {
                return Err(StoreError::new(StoreErrorKind::HookExecutionError, Some(Box::new(e))));
            },
            Ok(_) => {},
        }
        let ghost slots_before = self.spec_slots();
        self.mark_slot(&sid, StoreEntryStatus::Borrowed);
        proof {
            lemma_slots_mark_found(slots_before, sid@, StoreEntryStatus::Borrowed);
        }
        Ok(FileLockEntry { entry: entry, key: sid })
    }

    /// A detached copy of the entry at `id`, for read-only inspection: fails
    /// with a locked identifier while the entry is borrowed (the record may
    /// be half-written); no hooks run, no state changes.
    pub fn retrieve_copy(&self, id: StoreId) -> (r: Result<Entry, StoreError>)
        ensures
            ({
                let sid = spec_storified(self.spec_location(), id@);
                if self.spec_borrowed(sid) {
                    r matches Err(e) && e.spec_kind() == StoreErrorKind::IdLocked
                } else {
                    match spec_loaded_entry(self.spec_file_of(sid), sid) {
                        Some(e0) => r matches Ok(e) && e@ == e0,
                        None => r matches Err(e) && e.spec_kind()
                            == StoreErrorKind::MalformedEntry,
                    }
                }
            }),
    {
        let sid = storify(&self.location, &id);
        match self.find_slot(&sid) {
            Some(i) => {
                if self.entries[i].status == StoreEntryStatus::Borrowed {
                    return Err(StoreError::new(StoreErrorKind::IdLocked, None));
                }
            },
            None => {},
        }
        match self.find_file(&sid) {
            Some(j) => Entry::from_str(sid.clone(), self.files[j].1.as_str()),
            None => {
                let e = Entry::new(sid.clone());
                proof {
                    assert(e@ =~= (SpecEntry {
                        location: sid@,
                        header: spec_default_header(),
                        content: Seq::<char>::empty(),
                    }));
                }
                Ok(e)
            },
        }
    }

    /// Writes a borrowed entry back: verifies the header (an invalid header
    /// aborts without writing, the slot stays borrowed), serializes it over
    /// the old file, and marks the slot present.
    #[verifier::rlimit(60)]
    fn write_back(&mut self, fle: &FileLockEntry) -> (r: Result<(), StoreError>)
        requires
            old(self).wf(),
        ensures
            final(self).wf(),
            final(self).same_but_state(old(self)),
            ({
                let key = fle.spec_key();
                let e1 = fle.spec_entry();
                if !old(self).spec_has_slot(key) {
                    (r matches Err(e) && e.spec_kind() == StoreErrorKind::IdNotFound) && final(self).spec_slots() == old(self).spec_slots() && final(self).spec_files() == old(self).spec_files()
                } else if !crate::header::spec_header_valid(e1.header) {
                    (r matches Err(e) && (match e1.header {
                        SpecValue::Table(t) => e.spec_kind() == StoreErrorKind::MalformedEntry && (
                        e.spec_parser_cause() matches Some(p) && p.spec_kind()
                            == crate::header::spec_schema_error_kind(t)),
                        _ => e.spec_kind() == StoreErrorKind::HeaderTypeFailure,
                    })) && final(self).spec_slots() == old(self).spec_slots() && final(self).spec_files() == old(self).spec_files()
                } else {
                    r is Ok && final(self).spec_files() == spec_files_put(
                        old(self).spec_files(),
                        key,
                        crate::codec::spec_entry_text(e1.header->Table_0, e1.content),
                    ) && final(self).spec_slots() == spec_slots_mark(
                        old(self).spec_slots(),
                        key,
                        StoreEntryStatus::Present,
                    ) && !final(self).spec_borrowed(key)
                }
            }),
    {
        match self.find_slot(fle.get_key()) {
            None => {
                return Err(StoreError::new(StoreErrorKind::IdNotFound, None));
            },
            Some(_) => {},
        }
        match fle.get_entry().verify() {
            Err(e) => {
                return Err(e);
            },
            Ok(_) => {},
        }
        let text = fle.get_entry().to_str();
        self.put_file(fle.get_key(), text);
        let ghost slots_before = self.spec_slots();
        self.mark_slot(fle.get_key(), StoreEntryStatus::Present);
        proof {
            lemma_slots_mark_found(slots_before, fle.spec_key(), StoreEntryStatus::Present);
        }
        Ok(())
    }

    /// Writes the handle's entry back and returns it to the store.
    ///
    /// Pre-update hooks rewrite the entry first and abort the update when one
    /// fails; the header is then verified and the entry serialized over the
    /// old file, the slot marked present; post-update hooks run last, after
    /// the write.  Any failure is returned; a failure before the write leaves
    /// the slot borrowed.
    #[verifier::rlimit(60)]
    pub fn update(&mut self, fle: FileLockEntry) -> (r: Result<(), StoreError>)
        requires
            old(self).wf(),
        ensures
            final(self).wf(),
            final(self).same_but_state(old(self)),
            ({
                let key = fle.spec_key();
                let pre = aspect_hooks(old(self).spec_aspects(HookPosition::PreUpdate));
                let post = aspect_hooks(old(self).spec_aspects(HookPosition::PostUpdate));
                let e1 = apply_entry_hooks(pre, fle.spec_entry());
                match entry_run_error(pre, fle.spec_entry()) {
                    Some(k) => (r matches Err(e) && e.spec_kind()
                        == StoreErrorKind::PreHookExecuteError && e.spec_cause_kind() == Some(k))
                        && final(self).spec_slots() == old(self).spec_slots() && final(self).spec_files() == old(self).spec_files(),
                    None => if !old(self).spec_has_slot(key) {
                        (r matches Err(e) && e.spec_kind() == StoreErrorKind::IdNotFound) && final(self).spec_slots() == old(self).spec_slots() && final(self).spec_files()
                            == old(self).spec_files()
                    } else if !crate::header::spec_header_valid(e1.header) {
                        (r matches Err(e) && (match e1.header {
                            SpecValue::Table(t) => e.spec_kind() == StoreErrorKind::MalformedEntry
                                && (e.spec_parser_cause() matches Some(p) && p.spec_kind()
                                == crate::header::spec_schema_error_kind(t)),
                            _ => e.spec_kind() == StoreErrorKind::HeaderTypeFailure,
                        })) && final(self).spec_slots() == old(self).spec_slots() && final(self).spec_files() == old(self).spec_files()
                    } else {
                        &&& final(self).spec_files() == spec_files_put(
                            old(self).spec_files(),
                            key,
                            crate::codec::spec_entry_text(e1.header->Table_0, e1.content),
                        )
                        &&& final(self).spec_slots() == spec_slots_mark(
                            old(self).spec_slots(),
                            key,
                            StoreEntryStatus::Present,
                        )
                        &&& !final(self).spec_borrowed(key)
                        &&& (match entry_run_error(post, e1) {
                            Some(k) => r matches Err(e) && e.spec_kind()
                                == StoreErrorKind::PostHookExecuteError && e.spec_cause_kind()
                                == Some(k),
                            None => r is Ok,
                        })
                    },
                }
            }),
    {
        let mut fle = fle;
        match run_entry_hooks(&self.pre_update_aspects, fle.get_entry_mut()) {
            Err(e) => {
                return Err(
                    StoreError::new(StoreErrorKind::PreHookExecuteError, Some(Box::new(e))),
                );
            },
            Ok(_) => {},
        }
        match self.write_back(&fle) {
            Err(e) => {
                return Err(e);
            },
            Ok(_) => {},
        }
        match run_entry_hooks(&self.post_update_aspects, fle.get_entry_mut()) {
            Err(e) => Err(StoreError::new(StoreErrorKind::PostHookExecuteError, Some(Box::new(e)))),
            Ok(_) => Ok(()),
        }
    }

    /// Returns a handle without observing write failures: the same write-back
    /// as an update, but without hooks, and any failure is swallowed.  An
    /// entry whose header does not verify is not written and its slot stays
    /// borrowed; an explicit [`Store::update`] is the only way to observe
    /// write failures.
    #[verifier::rlimit(60)]
    pub fn release(&mut self, fle: FileLockEntry)
        requires
            old(self).wf(),
        ensures
            final(self).wf(),
            final(self).same_but_state(old(self)),
            ({
                let key = fle.spec_key();
                let e1 = fle.spec_entry();
                if old(self).spec_has_slot(key) && crate::header::spec_header_valid(e1.header) {
                    final(self).spec_files() == spec_files_put(
                        old(self).spec_files(),
                        key,
                        crate::codec::spec_entry_text(e1.header->Table_0, e1.content),
                    ) && final(self).spec_slots() == spec_slots_mark(
                        old(self).spec_slots(),
                        key,
                        StoreEntryStatus::Present,
                    ) && !final(self).spec_borrowed(key)
                } else {
                    final(self).spec_slots() == old(self).spec_slots() && final(self).spec_files()
                        == old(self).spec_files()
                }
            }),
    {
        let _ = self.write_back(&fle);
    }

    /// Deletes the entry at `id`: fails with a locked identifier while the
    /// entry is borrowed (nothing is touched); otherwise the cache slot is
    /// dropped first, then the file — a missing file is a file error with the
    /// slot already gone (no rollback).  Pre-delete hooks abort the deletion;
    /// post-delete hooks run after the removal.
    #[verifier::rlimit(60)]
    pub fn delete(&mut self, id: StoreId) -> (r: Result<(), StoreError>)
        requires
            old(self).wf(),
        ensures
            final(self).wf(),
            final(self).same_but_state(old(self)),
            ({
                let sid = spec_storified(old(self).spec_location(), id@);
                let pre = aspect_hooks(old(self).spec_aspects(HookPosition::PreDelete));
                let post = aspect_hooks(old(self).spec_aspects(HookPosition::PostDelete));
                match id_run_error(pre, sid) {
                    Some(k) => (r matches Err(e) && e.spec_kind()
                        == StoreErrorKind::PreHookExecuteError && e.spec_cause_kind() == Some(k))
                        && final(self).spec_slots() == old(self).spec_slots() && final(self).spec_files() == old(self).spec_files(),
                    None => if old(self).spec_borrowed(sid) {
                        (r matches Err(e) && e.spec_kind() == StoreErrorKind::IdLocked) && final(self).spec_slots() == old(self).spec_slots() && final(self).spec_files()
                            == old(self).spec_files()
                    } else {
                        &&& final(self).spec_slots() == (match spec_assoc_find(
                            old(self).spec_slots(),
                            sid,
                        ) {
                            Some(i) => old(self).spec_slots().remove(i),
                            None => old(self).spec_slots(),
                        })
                        &&& (match spec_assoc_find(old(self).spec_files(), sid) {
                            None => (r matches Err(e) && e.spec_kind() == StoreErrorKind::FileError)
                                && final(self).spec_files() == old(self).spec_files(),
                            Some(j) => final(self).spec_files() == old(self).spec_files().remove(j)
                                && (match id_run_error(post, sid) {
                                Some(k) => r matches Err(e) && e.spec_kind()
                                    == StoreErrorKind::PostHookExecuteError && e.spec_cause_kind()
                                    == Some(k),
                                None => r is Ok,
                            }),
                        })
                    },
                }
            }),
    {
        let sid = storify(&self.location, &id);
        match run_id_hooks(&self.pre_delete_aspects, &sid) {
            Err(e) => {
                return Err(
                    StoreError::new(StoreErrorKind::PreHookExecuteError, Some(Box::new(e))),
                );
            },
            Ok(_) => {},
        }
        match self.find_slot(&sid) {
            Some(i) => {
                if self.entries[i].status == StoreEntryStatus::Borrowed {
                    return Err(StoreError::new(StoreErrorKind::IdLocked, None));
                }
            },
            None => {},
        }
        self.drop_slot(&sid);
        let ghost files0 = self.spec_files();
        let ghost slots1 = self.spec_slots();
        match self.find_file(&sid) {
            None => {
                return Err(StoreError::new(StoreErrorKind::FileError, None));
            },
            Some(j) => {
                self.files.remove(j);
                proof {
                    assert(self.spec_files() =~= files0.remove(j as int));
                    lemma_assoc_remove_unique(files0, j as int);
                    assert(self.spec_slots() =~= slots1);
                }
            },
        }
        match run_id_hooks(&self.post_delete_aspects, &sid) {
            Err(e) => Err(StoreError::new(StoreErrorKind::PostHookExecuteError, Some(Box::new(e)))),
            Ok(_) => Ok(()),
        }
    }

    /// Moves the file at `old_id` to `new_id` without loading it.  A borrowed
    /// source is rejected; a present source slot is evicted, so the next
    /// retrieve re-populates under the new identifier; a source without a
    /// file is a rename error.
    #[verifier::rlimit(60)]
    pub fn move_by_id(&mut self, old_id: StoreId, new_id: StoreId) -> (r: Result<(), StoreError>)
        requires
            old(self).wf(),
        ensures
            final(self).wf(),
            final(self).same_but_state(old(self)),
            ({
                let so = spec_storified(old(self).spec_location(), old_id@);
                let sn = spec_storified(old(self).spec_location(), new_id@);
                if old(self).spec_borrowed(so) {
                    (r matches Err(e) && e.spec_kind() == StoreErrorKind::IdLocked) && final(self).spec_slots() == old(self).spec_slots() && final(self).spec_files() == old(self).spec_files()
                } else {
                    &&& final(self).spec_slots() == (match spec_assoc_find(
                        old(self).spec_slots(),
                        so,
                    ) {
                        Some(i) => old(self).spec_slots().remove(i),
                        None => old(self).spec_slots(),
                    })
                    &&& (match spec_assoc_find(old(self).spec_files(), so) {
                        None => (r matches Err(e) && e.spec_kind()
                            == StoreErrorKind::EntryRenameError) && final(self).spec_files()
                            == old(self).spec_files(),
                        Some(j) => r is Ok && final(self).spec_files() == spec_files_put(
                            old(self).spec_files().remove(j),
                            sn,
                            old(self).spec_files()[j].1,
                        ),
                    })
                }
            }),
    {
        let so = storify(&self.location, &old_id);
        let sn = storify(&self.location, &new_id);
        match self.find_slot(&so) {
            Some(i) => {
                if self.entries[i].status == StoreEntryStatus::Borrowed {
                    return Err(StoreError::new(StoreErrorKind::IdLocked, None));
                }
            },
            None => {},
        }
        self.drop_slot(&so);
        let ghost files0 = self.spec_files();
        let ghost slots1 = self.spec_slots();
        match self.find_file(&so) {
            None => Err(StoreError::new(StoreErrorKind::EntryRenameError, None)),
            Some(j) => {
                let (_, text) = self.files.remove(j);
                proof {
                    assert(self.spec_files() =~= files0.remove(j as int));
                    lemma_assoc_remove_unique(files0, j as int);
                    assert(self.spec_slots() =~= slots1);
                }
                self.put_file(&sn, text);
                Ok(())
            },
        }
    }
}


/// The position of the first aspect named `name`, if any.
pub open spec fn spec_aspect_find<H: Hook>(s: Seq<Aspect<H>>, name: Seq<char>) -> Option<int>
    decreases s.len(),
{
    if s.len() == 0 {
        None
    } else if s[0].spec_name() == name {
        Some(0)
    } else {
        match spec_aspect_find(s.drop_first(), name) {
            Some(i) => Some(i + 1),
            None => None,
        }
    }
}

/// A found position is in bounds and carries the name searched for, and no
/// earlier aspect does.
pub proof fn lemma_aspect_find<H: Hook>(s: Seq<Aspect<H>>, name: Seq<char>)
    ensures
        match spec_aspect_find(s, name) {
            Some(i) => 0 <= i < s.len() && s[i].spec_name() == name && forall|j: int|
                0 <= j < i ==> (#[trigger] s[j]).spec_name() != name,
            None => forall|j: int| 0 <= j < s.len() ==> (#[trigger] s[j]).spec_name() != name,
        },
    decreases s.len(),
{
    if s.len() > 0 && s[0].spec_name() != name {
        let rest = s.drop_first();
        lemma_aspect_find(rest, name);
        assert forall|j: int| 0 <= j < rest.len() implies rest[j] == s[j + 1] by {}
        match spec_aspect_find(rest, name) {
            Some(i) => {
                assert forall|j: int| 0 <= j < i + 1 implies (#[trigger] s[j]).spec_name() != name
                by {
                    if j > 0 {
                        assert(rest[j - 1].spec_name() != name);
                    }
                }
            },
            None => {
                assert forall|j: int| 0 <= j < s.len() implies (#[trigger] s[j]).spec_name()
                    != name by {
                    if j > 0 {
                        assert(rest[j - 1].spec_name() != name);
                    }
                }
            },
        }
    }
}


/// The position of the first aspect named `name` in `list`.
fn find_aspect<H: Hook>(list: &Vec<Aspect<H>>, name: &String) -> (r: Option<usize>)
    ensures
        match r {
            Some(i) => spec_aspect_find(list@, name@) == Some(i as int) && i < list@.len(),
            None => spec_aspect_find(list@, name@) == None::<int>,
        },
{
    let ghost asps0 = list@;
    let mut i: usize = 0;
    while i < list.len()
        invariant
            0 <= i <= list@.len(),
            list@ == asps0,
            forall|j: int| 0 <= j < i ==> (#[trigger] asps0[j]).spec_name() != name@,
        decreases list@.len() - i,
    {
        if *list[i].name() == *name {
            proof {
                lemma_aspect_find(asps0, name@);
            }
            return Some(i);
        }
        i = i + 1;
    }
    proof {
        lemma_aspect_find(asps0, name@);
    }
    None
}

/// Appends `h` to the hooks of the aspect at position `i`.
fn push_hook_at<H: Hook>(list: &mut Vec<Aspect<H>>, i: usize, h: H)
    requires
        i < old(list)@.len(),
    ensures
        final(list)@.len() == old(list)@.len(),
        forall|j: int| 0 <= j < old(list)@.len() && j != i ==> final(list)@[j] == (#[trigger] old(
            list,
        )@[j]),
        final(list)@[i as int].spec_name() == old(list)@[i as int].spec_name(),
        final(list)@[i as int].spec_hooks() == old(list)@[i as int].spec_hooks().push(h),
{
    let mut a = list.remove(i);
    a.register_hook(h);
    list.insert(i, a);
    proof {
        assert(list@ =~= old(list)@.update(i as int, list@[i as int]));
        assert(list@[i as int].spec_hooks().drop_last() =~= old(list)@[i as int].spec_hooks());
    }
}

/// The per-hook configuration under the `hooks` table of a configuration
/// value, if any.
pub open spec fn spec_hook_config(c: Option<SpecValue>, name: Seq<char>) -> Option<SpecValue> {
    match c {
        Some(SpecValue::Table(t)) => match spec_table_get(t, "hooks"@) {
            Some(SpecValue::Table(ht)) => spec_table_get(ht, name),
            _ => None,
        },
        _ => None,
    }
}

/// Looks up the `hooks.<name>` section of a configuration value.
fn hook_config<'a>(config: &'a Option<Value>, name: &String) -> (r: Option<&'a Value>)
    ensures
        match r {
            Some(v) => spec_hook_config(spec_opt_value_view(*config), name@) == Some(v@),
            None => spec_hook_config(spec_opt_value_view(*config), name@) is None,
        },
{
    match config {
        Some(Value::Table(t)) => {
            match table_find(t, &String::from_str("hooks")) {
                Some(i) => {
                    proof {
                        lemma_table_view_index(t@, i as int);
                    }
                    match &t[i].1 {
                        Value::Table(ht) => {
                            match table_find(ht, name) {
                                Some(j) => {
                                    proof {
                                        lemma_table_view_index(ht@, j as int);
                                    }
                                    Some(&ht[j].1)
                                },
                                None => None,
                            }
                        },
                        _ => None,
                    }
                },
                None => None,
            }
        },
        _ => None,
    }
}

/// Whether `p` is a prefix of `s`.
pub open spec fn spec_is_prefix(p: Seq<char>, s: Seq<char>) -> bool {
    p.len() <= s.len() && s.subrange(0, p.len() as int) == p
}

/// The identifiers of the files whose identifier starts with `prefix`, in
/// file order.
pub open spec fn spec_ids_under(files: Seq<(Seq<char>, Seq<char>)>, prefix: Seq<char>) -> Seq<
    Seq<char>,
>
    decreases files.len(),
{
    if files.len() == 0 {
        Seq::empty()
    } else {
        let rest = spec_ids_under(files.drop_last(), prefix);
        if spec_is_prefix(prefix, files.last().0) {
            rest.push(files.last().0)
        } else {
            rest
        }
    }
}

/// Whether the characters of `s` start with the characters of `prefix`.
#[verifier::loop_isolation(false)]
fn str_has_prefix(s: &String, prefix: &Vec<char>) -> (r: bool)
    ensures
        r == spec_is_prefix(prefix@, s@),
{
    let sc = crate::strutil::str_chars(s.as_str());
    if prefix.len() > sc.len() {
        return false;
    }
    let mut i: usize = 0;
    while i < prefix.len()
        invariant
            0 <= i <= prefix@.len() <= sc@.len(),
            sc@ == s@,
            forall|j: int| 0 <= j < i ==> s@[j] == prefix@[j],
        decreases prefix@.len() - i,
    {
        if sc[i] != prefix[i] {
            proof {
                assert(s@.subrange(0, prefix@.len() as int)[i as int] != prefix@[i as int]);
            }
            return false;
        }
        i = i + 1;
    }
    proof {
        assert(s@.subrange(0, prefix@.len() as int) =~= prefix@);
    }
    true
}

impl<H: Hook> Store<H> {
    /// The per-hook configuration section for a hook name, if any.
    pub fn get_config_for_hook(&self, name: &String) -> (r: Option<&Value>)
        ensures
            match r {
                Some(v) => spec_hook_config(self.spec_config(), name@) == Some(v@),
                None => spec_hook_config(self.spec_config(), name@) is None,
            },
    {
        hook_config(&self.configuration, name)
    }

    /// Registers a hook under an aspect name at one lifecycle point.  The
    /// hook first receives its configuration section, then joins the end of
    /// the first aspect with that name; a name that no aspect carries is
    /// rejected, and no aspect's hook list changes.
    #[verifier::rlimit(100)]
    #[verifier::spinoff_prover]
    pub fn register_hook(&mut self, position: HookPosition, aspect_name: &String, h: H) -> (r:
        Result<(), StoreError>)
        requires
            old(self).wf(),
        ensures
            final(self).wf(),
            final(self).spec_location() == old(self).spec_location(),
            final(self).spec_config() == old(self).spec_config(),
            final(self).spec_slots() == old(self).spec_slots(),
            final(self).spec_files() == old(self).spec_files(),
            forall|p: HookPosition| p != position ==> (#[trigger] final(self).spec_aspects(p))
                == old(self).spec_aspects(p),
            spec_aspect_find(old(self).spec_aspects(position), aspect_name@) is None ==> (
            r matches Err(e) && (e.spec_kind() == StoreErrorKind::HookRegisterError
                && e.spec_cause_kind() == Some(StoreErrorKind::AspectNameNotFoundError) && final(self).spec_aspects(position) == old(self).spec_aspects(position))),
            (spec_aspect_find(old(self).spec_aspects(position), aspect_name@) matches Some(i)
                ==> r is Ok && ({
                let asps = old(self).spec_aspects(position);
                let after = final(self).spec_aspects(position);
                let registered = (match crate::store::spec_hook_config(
                    old(self).spec_config(),
                    h.spec_hook_name(),
                ) {
                    Some(v) => h.with_config(v),
                    None => h,
                });
                after.len() == asps.len() && (forall|j: int|
                    0 <= j < asps.len() && j != i ==> after[j] == (#[trigger] asps[j]))
                    && after[i].spec_name() == asps[i].spec_name() && after[i].spec_hooks()
                    == asps[i].spec_hooks().push(registered)
            })),
    {
        let mut h = h;
        let hname = h.hook_name();
        match hook_config(&self.configuration, &hname) {
            Some(v) => h.set_config(v),
            None => {},
        }
        let found = match position {
            HookPosition::PreCreate => find_aspect(&self.pre_create_aspects, aspect_name),
            HookPosition::PostCreate => find_aspect(&self.post_create_aspects, aspect_name),
            HookPosition::PreRetrieve => find_aspect(&self.pre_retrieve_aspects, aspect_name),
            HookPosition::PostRetrieve => find_aspect(&self.post_retrieve_aspects, aspect_name),
            HookPosition::PreUpdate => find_aspect(&self.pre_update_aspects, aspect_name),
            HookPosition::PostUpdate => find_aspect(&self.post_update_aspects, aspect_name),
            HookPosition::PreDelete => find_aspect(&self.pre_delete_aspects, aspect_name),
            HookPosition::PostDelete => find_aspect(&self.post_delete_aspects, aspect_name),
        };
        match found {
            None => {
                proof {
                    assert(spec_aspect_find(old(self).spec_aspects(position), aspect_name@)
                        is None);
                    assert(self.spec_aspects(position) == old(self).spec_aspects(position));
                }
                let annfe = StoreError::new(StoreErrorKind::AspectNameNotFoundError, None);
                Err(StoreError::new(StoreErrorKind::HookRegisterError, Some(Box::new(annfe))))
            },
            Some(i) => {
                match position {
                    HookPosition::PreCreate => push_hook_at(&mut self.pre_create_aspects, i, h),
                    HookPosition::PostCreate => push_hook_at(&mut self.post_create_aspects, i, h),
                    HookPosition::PreRetrieve => push_hook_at(
                        &mut self.pre_retrieve_aspects,
                        i,
                        h,
                    ),
                    HookPosition::PostRetrieve => push_hook_at(
                        &mut self.post_retrieve_aspects,
                        i,
                        h,
                    ),
                    HookPosition::PreUpdate => push_hook_at(&mut self.pre_update_aspects, i, h),
                    HookPosition::PostUpdate => push_hook_at(&mut self.post_update_aspects, i, h),
                    HookPosition::PreDelete => push_hook_at(&mut self.pre_delete_aspects, i, h),
                    HookPosition::PostDelete => push_hook_at(&mut self.post_delete_aspects, i, h),
                }
                proof {
                    assert(spec_aspect_find(old(self).spec_aspects(position), aspect_name@)
                        == Some(i as int));
                    assert(self.spec_slots() =~= old(self).spec_slots());
                    assert(self.spec_files() =~= old(self).spec_files());
                    assert forall|p: HookPosition| p != position implies (
                    #[trigger] self.spec_aspects(p)) == old(self).spec_aspects(p) by {
                        match p {
                            HookPosition::PreCreate => {},
                            HookPosition::PostCreate => {},
                            HookPosition::PreRetrieve => {},
                            HookPosition::PostRetrieve => {},
                            HookPosition::PreUpdate => {},
                            HookPosition::PostUpdate => {},
                            HookPosition::PreDelete => {},
                            HookPosition::PostDelete => {},
                        }
                    }
                }
                Ok(())
            },
        }
    }

    /// Lists the identifiers stored under one module name: every file whose
    /// identifier starts with `<root>/<module>/`, in file order.  No entries
    /// are loaded.
    #[verifier::loop_isolation(false)]
    pub fn retrieve_for_module(&self, mod_name: &str) -> (r: Result<Vec<StoreId>, StoreError>)
        ensures
            ({
                let prefix = self.spec_location() + seq!['/'] + mod_name@ + seq!['/'];
                let ids = spec_ids_under(self.spec_files(), prefix);
                r matches Ok(v) && v@.len() == ids.len() && (forall|i: int|
                    0 <= i < ids.len() ==> (#[trigger] v@[i])@ == ids[i])
            }),
    {
        let mut prefix = crate::strutil::str_chars(self.location.as_str());
        prefix.push('/');
        crate::strutil::push_str_chars(&mut prefix, mod_name);
        prefix.push('/');
        proof {
            assert(prefix@ =~= self.spec_location() + seq!['/'] + mod_name@ + seq!['/']);
        }
        let mut out: Vec<StoreId> = Vec::new();
        let mut i: usize = 0;
        while i < self.files.len()
            invariant
                0 <= i <= self.files@.len(),
                prefix@ == self.spec_location() + seq!['/'] + mod_name@ + seq!['/'],
                ({
                    let ids = spec_ids_under(
                        self.spec_files().subrange(0, i as int),
                        prefix@,
                    );
                    out@.len() == ids.len() && (forall|k: int|
                        0 <= k < ids.len() ==> (#[trigger] out@[k])@ == ids[k])
                }),
            decreases self.files@.len() - i,
        {
            let ghost pre_ids = spec_ids_under(self.spec_files().subrange(0, i as int), prefix@);
            if str_has_prefix(&self.files[i].0, &prefix) {
                out.push(self.files[i].0.clone());
            }
            proof {
                let cur = self.spec_files().subrange(0, i as int + 1);
                assert(cur.drop_last() =~= self.spec_files().subrange(0, i as int));
                assert(cur.last() == self.spec_files()[i as int]);
            }
            i = i + 1;
        }
        proof {
            assert(self.spec_files().subrange(0, self.files@.len() as int) =~= self.spec_files());
        }
        Ok(out)
    }
}

} // verus!
