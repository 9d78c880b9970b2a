//! The catalog store and its reconciliation with the files on disk: entries
//! keyed by (relative path, base label), the liveness flag of the
//! mark-and-sweep cycle, and lookups by identifier and content hash.
use vstd::prelude::*;
use vstd::string::*;
use crate::text::str_eq;

verus! {

/// One cataloged file.
pub struct Entry {
    pub id: i64,
    pub name: Option<String>,
    pub model_name: Option<String>,
    pub path: String,
    pub base_label: String,
    pub hash: String,
    pub note: String,
    pub live: bool,
    pub updated_at: i64,
    pub tags: Vec<String>,
}

/// What a lookup or a search hands out of an entry.
pub struct Item {
    pub id: i64,
    pub name: Option<String>,
    pub path: String,
    pub base_label: String,
    pub note: String,
}

#[derive(Debug)]
pub enum CatalogError {
    /// No entry has the identifier or hash asked for.
    NotFound,
    /// Every identifier has been handed out.
    Exhausted,
}

/// The view of an optional string.
pub open spec fn opt_view(o: Option<String>) -> Option<Seq<char>> {
    match o {
        Some(s) => Some(s@),
        None => None,
    }
}

/// The view of an optional string slice.
pub open spec fn opt_str_view(o: Option<&str>) -> Option<Seq<char>> {
    match o {
        Some(s) => Some(s@),
        None => None,
    }
}

impl View for Item {
    type V = (i64, Option<Seq<char>>, Seq<char>, Seq<char>, Seq<char>);

    open spec fn view(&self) -> Self::V {
        (self.id, opt_view(self.name), self.path@, self.base_label@, self.note@)
    }
}

impl Entry {
    /// The natural key of an entry.
    pub open spec fn key(self) -> (Seq<char>, Seq<char>) {
        (self.path@, self.base_label@)
    }

    /// What lookups hand out of the entry.
    pub open spec fn item_view(self) -> (i64, Option<Seq<char>>, Seq<char>, Seq<char>, Seq<char>) {
        (self.id, opt_view(self.name), self.path@, self.base_label@, self.note@)
    }

    /// The entry with its liveness flag cleared.
    pub open spec fn cleared(self) -> Entry {
        Entry { live: false, ..self }
    }

    /// Builds the record that lookups hand out.
    pub fn to_item(&self) -> (r: Item)
        ensures
            r@ == self.item_view(),
    {
        Item {
            id: self.id,
            name: clone_opt(&self.name),
            path: self.path.clone(),
            base_label: self.base_label.clone(),
            note: self.note.clone(),
        }
    }
}

/// Copies an optional string.
pub fn clone_opt(o: &Option<String>) -> (r: Option<String>)
    ensures
        opt_view(r) == opt_view(*o),
{
    match o {
        Some(s) => Some(s.clone()),
        None => None,
    }
}

fn owned_opt(o: Option<&str>) -> (r: Option<String>)
    ensures
        opt_view(r) == opt_str_view(o),
{
    match o {
        Some(s) => Some(s.to_owned()),
        None => None,
    }
}

/// No two entries share an identifier.
pub open spec fn ids_unique(rows: Seq<Entry>) -> bool {
    forall|i: int, j: int|
        0 <= i < rows.len() && 0 <= j < rows.len() && i != j ==> #[trigger] rows[i].id != #[trigger] rows[j].id
}

/// No two entries share a natural key.
pub open spec fn keys_unique(rows: Seq<Entry>) -> bool {
    forall|i: int, j: int|
        0 <= i < rows.len() && 0 <= j < rows.len() && i != j ==> #[trigger] rows[i].key() != #[trigger] rows[j].key()
}

/// Identifiers are unique, positive and below `next`; keys are unique.
pub open spec fn rows_wf(rows: Seq<Entry>, next: i64) -> bool {
    &&& 1 <= next
    &&& forall|i: int| 0 <= i < rows.len() ==> 1 <= #[trigger] rows[i].id < next
    &&& ids_unique(rows)
    &&& keys_unique(rows)
}

/// The state that starting a scan leaves: every live entry loses its
/// liveness flag.
pub open spec fn scan_started(old: Seq<Entry>, new: Seq<Entry>) -> bool {
    &&& new.len() == old.len()
    &&& forall|i: int| 0 <= i < old.len() ==> #[trigger] new[i] == if old[i].live { old[i].cleared() } else { old[i] }
}

pub open spec fn has_key(rows: Seq<Entry>, path: Seq<char>, label: Seq<char>) -> bool {
    exists|i: int| 0 <= i < rows.len() && #[trigger] rows[i].key() == (path, label)
}

pub open spec fn has_live_id(rows: Seq<Entry>, id: i64) -> bool {
    exists|i: int| 0 <= i < rows.len() && #[trigger] rows[i].id == id && rows[i].live
}

pub open spec fn has_id(rows: Seq<Entry>, id: i64) -> bool {
    exists|i: int| 0 <= i < rows.len() && #[trigger] rows[i].id == id
}

/// `new` is `old` seen again by a scan: live, with the given name, hash and
/// modification time, and everything else kept.
pub open spec fn refreshed(
    old: Entry,
    new: Entry,
    name: Option<Seq<char>>,
    hash: Seq<char>,
    modified_at: i64,
) -> bool {
    &&& new.id == old.id
    &&& new.live
    &&& opt_view(new.name) == name
    &&& new.hash@ == hash
    &&& new.updated_at == modified_at
    &&& new.path == old.path
    &&& new.base_label == old.base_label
    &&& new.model_name == old.model_name
    &&& new.note == old.note
    &&& new.tags == old.tags
}

/// `e` is a fresh entry for a file first seen by a scan.
pub open spec fn created(
    e: Entry,
    path: Seq<char>,
    label: Seq<char>,
    name: Option<Seq<char>>,
    hash: Seq<char>,
    modified_at: i64,
) -> bool {
    &&& e.key() == (path, label)
    &&& e.live
    &&& opt_view(e.name) == name
    &&& e.model_name is None
    &&& e.hash@ == hash
    &&& e.note@.len() == 0
    &&& e.updated_at == modified_at
    &&& e.tags@.len() == 0
}

/// The effect of one observation of the file at (`path`, `label`) that
/// returned `r`.
pub open spec fn observed(
    old: Seq<Entry>,
    new: Seq<Entry>,
    r: Result<i64, CatalogError>,
    path: Seq<char>,
    label: Seq<char>,
    name: Option<Seq<char>>,
    hash: Seq<char>,
    modified_at: i64,
) -> bool {
    &&& r is Err ==> r->Err_0 is Exhausted && new == old && !has_key(old, path, label)
    &&& forall|i: int|
        0 <= i < old.len() && #[trigger] old[i].key() == (path, label) ==> r == Ok::<i64, CatalogError>(old[i].id)
            && new == old.update(i, new[i]) && refreshed(old[i], new[i], name, hash, modified_at)
    &&& r is Ok && !has_key(old, path, label) ==> {
        &&& new.len() == old.len() + 1
        &&& new.drop_last() == old
        &&& new.last().id == r->Ok_0
        &&& !has_id(old, r->Ok_0)
        &&& created(new.last(), path, label, name, hash, modified_at)
    }
}

/// Entries that survive a sweep.
pub open spec fn is_live(e: Entry) -> bool {
    e.live
}

/// The relational store of catalog entries.
pub struct Catalog {
    rows: Vec<Entry>,
    next_id: i64,
}

impl View for Catalog {
    type V = Seq<Entry>;

    closed spec fn view(&self) -> Seq<Entry> {
        self.rows@
    }
}

impl Catalog {
    /// Identifiers are unique, positive and below the next one to hand
    /// out; natural keys are unique.
    pub closed spec fn wf(&self) -> bool {
        rows_wf(self.rows@, self.next_id)
    }

    /// The identifier the next new entry gets.
    pub closed spec fn next_id_spec(&self) -> i64 {
        self.next_id
    }

    /// What a well-formed catalog guarantees of its entries.
    pub proof fn wf_facts(&self)
        requires
            self.wf(),
        ensures
            ids_unique(self@),
            keys_unique(self@),
    {
    }

    /// An empty catalog.
    pub fn new() -> (r: Catalog)
        ensures
            r.wf(),
            r@.len() == 0,
            r.next_id_spec() == 1,
    {
        Catalog { rows: Vec::new(), next_id: 1 }
    }

    /// The entries, in the order of their creation.
    pub fn entries(&self) -> (r: &Vec<Entry>)
        ensures
            r@ == self@,
    {
        &self.rows
    }

    fn find_key(&self, path: &str, label: &str) -> (r: Option<usize>)
        ensures
            match r {
                Some(i) => i < self@.len() && self@[i as int].key() == (path@, label@),
                None => !has_key(self@, path@, label@),
            },
    {
        let mut i: usize = 0;
        while i < self.rows.len()
            invariant
                i <= self.rows@.len(),
                forall|k: int| 0 <= k < i ==> #[trigger] self.rows@[k].key() != (path@, label@),
            decreases self.rows@.len() - i,
        {
            let e = &self.rows[i];
            if str_eq(e.path.as_str(), path) && str_eq(e.base_label.as_str(), label) {
                return Some(i);
            }
            i += 1;
        }
        None
    }

    fn find_id(&self, id: i64) -> (r: Option<usize>)
        ensures
            match r {
                Some(i) => i < self@.len() && self@[i as int].id == id,
                None => !has_id(self@, id),
            },
    {
        let mut i: usize = 0;
        while i < self.rows.len()
            invariant
                i <= self.rows@.len(),
                forall|k: int| 0 <= k < i ==> #[trigger] self.rows@[k].id != id,
            decreases self.rows@.len() - i,
        {
            if self.rows[i].id == id {
                return Some(i);
            }
            i += 1;
        }
        None
    }

    /// Records that the file at (`path`, `base_label`) was seen: an existing
    /// entry with that key is made live again and takes the new name, hash and
    /// modification time; otherwise a live entry is created. Returns the
    /// entry's identifier.
    pub fn insert_or_update(
        &mut self,
        name: Option<&str>,
        path: &str,
        base_label: &str,
        hash: &str,
        modified_at: i64,
    ) -> (r: Result<i64, CatalogError>)
        requires
            old(self).wf(),
        ensures
            final(self).wf(),
            r is Err <==> (!has_key(old(self)@, path@, base_label@) && old(self).next_id_spec()
                == i64::MAX),
            observed(old(self)@, final(self)@, r, path@, base_label@, opt_str_view(name), hash@, modified_at),
            final(self).next_id_spec() as int == if r is Ok && !has_key(old(self)@, path@, base_label@) {
                old(self).next_id_spec() + 1
            } else {
                old(self).next_id_spec() as int
            },
    {
        match self.find_key(path, base_label) {
            Some(i) => {
                let ghost before = self.rows@;
                self.rows[i].live = true;
                self.rows[i].name = owned_opt(name);
                self.rows[i].hash = hash.to_owned();
                self.rows[i].updated_at = modified_at;
                proof {
                    assert(self.rows@ =~= before.update(i as int, self.rows@[i as int]));
                    assert forall|k: int| 0 <= k < before.len() && #[trigger] before[k].key() == (path@, base_label@) implies k == i by {}
                }
                Ok(self.rows[i].id)
            },
            None => {
                if self.next_id == i64::MAX {
                    return Err(CatalogError::Exhausted);
                }
                let id = self.next_id;
                let e = Entry {
                    id,
                    name: owned_opt(name),
                    model_name: None,
                    path: path.to_owned(),
                    base_label: base_label.to_owned(),
                    hash: hash.to_owned(),
                    note: String::new(),
                    live: true,
                    updated_at: modified_at,
                    tags: Vec::new(),
                };
                let ghost before = self.rows@;
                self.rows.push(e);
                self.next_id = id + 1;
                proof {
                    assert(self.rows@.drop_last() =~= before);
                    assert forall|k: int| 0 <= k < before.len() implies #[trigger] before[k].id != id by {}
                }
                Ok(id)
            },
        }
    }

    /// Starts a scan: every live entry loses its liveness flag.
    pub fn mark_obsolete_all(&mut self)
        requires
            old(self).wf(),
        ensures
            final(self).wf(),
            final(self).next_id_spec() == old(self).next_id_spec(),
            scan_started(old(self)@, final(self)@),
    {
        let ghost before = self.rows@;
        let mut i: usize = 0;
        while i < self.rows.len()
            invariant
                self.next_id == old(self).next_id,
                self.rows@.len() == before.len(),
                i <= before.len(),
                rows_wf(before, self.next_id),
                forall|k: int|
                    0 <= k < i ==> #[trigger] self.rows@[k] == if before[k].live { before[k].cleared() } else { before[k] },
                forall|k: int| i <= k < before.len() ==> #[trigger] self.rows@[k] == before[k],
            decreases before.len() - i,
        {
            if self.rows[i].live {
                self.rows[i].live = false;
            }
            i += 1;
        }
        proof {
            assert forall|a: int, b: int|
                0 <= a < self.rows@.len() && 0 <= b < self.rows@.len() && a != b implies #[trigger] self.rows@[a].key() != #[trigger] self.rows@[b].key() by {
                assert(self.rows@[a].key() == before[a].key());
                assert(self.rows@[b].key() == before[b].key());
            }
            assert forall|a: int, b: int|
                0 <= a < self.rows@.len() && 0 <= b < self.rows@.len() && a != b implies #[trigger] self.rows@[a].id != #[trigger] self.rows@[b].id by {
                assert(self.rows@[a].id == before[a].id);
                assert(self.rows@[b].id == before[b].id);
            }
            assert forall|a: int| 0 <= a < self.rows@.len() implies 1 <= #[trigger] self.rows@[a].id < self.next_id by {
                assert(self.rows@[a].id == before[a].id);
            }
        }
    }

    /// Removes every entry whose liveness flag is clear; returns how many.
    pub fn clean(&mut self) -> (r: u64)
        requires
            old(self).wf(),
        ensures
            final(self).wf(),
            final(self).next_id_spec() == old(self).next_id_spec(),
            final(self)@ == live_rows(old(self)@),
            r as int == old(self)@.len() - final(self)@.len(),
    {
        let ghost before = self.rows@;
        let ghost mut j: int = 0;
        let n0 = self.rows.len();
        proof {
            assert(before.subrange(0, 0) =~= seq![]);
            assert(self.rows@.subrange(0, 0) =~= seq![]);
            assert(self.rows@.subrange(0, n0 as int) =~= before.subrange(0, n0 as int));
        }
        let mut removed: u64 = 0;
        let mut i: usize = 0;
        while i < self.rows.len()
            invariant
                self.next_id == old(self).next_id,
                0 <= j <= before.len(),
                i <= self.rows@.len(),
                rows_wf(self.rows@, self.next_id),
                self.rows@.subrange(0, i as int) == live_rows(before.subrange(0, j)),
                self.rows@.subrange(i as int, self.rows@.len() as int) == before.subrange(j, before.len() as int),
                removed as int == before.len() - self.rows@.len(),
                before.len() <= usize::MAX,
            decreases self.rows@.len() - i,
        {
            let ghost cur = self.rows@;
            assert(cur.subrange(i as int, cur.len() as int).len() == before.subrange(j, before.len() as int).len());
            assert(j < before.len());
            assert(cur[i as int] == before[j]) by {
                assert(cur.subrange(i as int, cur.len() as int)[0] == cur[i as int]);
                assert(before.subrange(j, before.len() as int)[0] == before[j]);
            }
            assert(before.subrange(0, j + 1).drop_last() =~= before.subrange(0, j));
            if self.rows[i].live {
                i += 1;
                proof {
                    assert(self.rows@.subrange(0, i as int) =~= cur.subrange(0, i - 1).push(cur[i - 1]));
                    assert forall|k: int| 0 <= k < self.rows@.len() - i implies #[trigger] self.rows@.subrange(i as int, self.rows@.len() as int)[k] == before.subrange(j + 1, before.len() as int)[k] by {
                        assert(cur.subrange(i - 1, cur.len() as int)[k + 1] == before.subrange(j, before.len() as int)[k + 1]);
                    }
                    assert(self.rows@.subrange(i as int, self.rows@.len() as int) =~= before.subrange(j + 1, before.len() as int));
                }
            } else {
                self.rows.remove(i);
                removed += 1;
                proof {
                    lemma_wf_remove(cur, self.next_id, i as int);
                    assert(self.rows@.subrange(0, i as int) =~= cur.subrange(0, i as int));
                    assert forall|k: int| 0 <= k < self.rows@.len() - i implies #[trigger] self.rows@.subrange(i as int, self.rows@.len() as int)[k] == before.subrange(j + 1, before.len() as int)[k] by {
                        assert(cur.subrange(i as int, cur.len() as int)[k + 1] == before.subrange(j, before.len() as int)[k + 1]);
                    }
                    assert(self.rows@.subrange(i as int, self.rows@.len() as int) =~= before.subrange(j + 1, before.len() as int));
                }
            }
            proof {
                j = j + 1;
            }
        }
        proof {
            assert(j == before.len()) by {
                assert(self.rows@.subrange(i as int, self.rows@.len() as int).len() == 0);
            }
            assert(before.subrange(0, j) =~= before);
            assert(self.rows@.subrange(0, i as int) =~= self.rows@);
        }
        removed
    }

    /// Clears the liveness flag of one entry and returns its relative path and
    /// base label, so that its files can be moved aside.
    pub fn mark_obsolete(&mut self, id: i64) -> (r: Result<(String, String), CatalogError>)
        requires
            old(self).wf(),
        ensures
            final(self).wf(),
            final(self).next_id_spec() == old(self).next_id_spec(),
            !has_id(old(self)@, id) ==> r is Err && r->Err_0 is NotFound && final(self)@ == old(self)@,
            forall|i: int|
                0 <= i < old(self)@.len() && #[trigger] old(self)@[i].id == id ==> {
                    &&& r is Ok
                    &&& r->Ok_0.0@ == old(self)@[i].path@
                    &&& r->Ok_0.1@ == old(self)@[i].base_label@
                    &&& final(self)@ == old(self)@.update(i, old(self)@[i].cleared())
                },
    {
        match self.find_id(id) {
            None => Err(CatalogError::NotFound),
            Some(i) => {
                let ghost before = self.rows@;
                self.rows[i].live = false;
                proof {
                    lemma_wf_update(before, self.next_id, i as int, self.rows@[i as int]);
                    assert(self.rows@ =~= before.update(i as int, before[i as int].cleared()));
                    assert forall|k: int| 0 <= k < before.len() && #[trigger] before[k].id == id implies k == i by {}
                }
                Ok((self.rows[i].path.clone(), self.rows[i].base_label.clone()))
            },
        }
    }

    /// The live entry with identifier `id`.
    pub fn get_by_id(&self, id: i64) -> (r: Result<Item, CatalogError>)
        requires
            self.wf(),
        ensures
            !has_live_id(self@, id) ==> r is Err && r->Err_0 is NotFound,
            forall|i: int|
                0 <= i < self@.len() && #[trigger] self@[i].id == id && self@[i].live ==> r is Ok && r->Ok_0@
                    == self@[i].item_view(),
    {
        match self.find_id(id) {
            None => Err(CatalogError::NotFound),
            Some(i) => {
                proof {
                    assert forall|k: int| 0 <= k < self@.len() && #[trigger] self@[k].id == id implies k == i by {}
                }
                if self.rows[i].live {
                    Ok(self.rows[i].to_item())
                } else {
                    Err(CatalogError::NotFound)
                }
            },
        }
    }

    /// The first live entry whose content hash is `hash`.
    pub fn get_by_hash(&self, hash: &str) -> (r: Result<Item, CatalogError>)
        ensures
            r is Err <==> !(exists|i: int| 0 <= i < self@.len() && #[trigger] hash_live(self@[i], hash@)),
            r is Err ==> r->Err_0 is NotFound,
            r is Ok ==> exists|i: int|
                0 <= i < self@.len() && #[trigger] hash_live(self@[i], hash@) && r->Ok_0@ == self@[i].item_view()
                    && forall|k: int| 0 <= k < i ==> !hash_live(self@[k], hash@),
    {
        let mut i: usize = 0;
        while i < self.rows.len()
            invariant
                i <= self.rows@.len(),
                forall|k: int| 0 <= k < i ==> !#[trigger] hash_live(self.rows@[k], hash@),
            decreases self.rows@.len() - i,
        {
            if self.rows[i].live && str_eq(self.rows[i].hash.as_str(), hash) {
                assert(hash_live(self@[i as int], hash@));
                return Ok(self.rows[i].to_item());
            }
            i += 1;
        }
        Err(CatalogError::NotFound)
    }

    /// Replaces the tag list of one entry.
    pub fn set_tags(&mut self, id: i64, tags: Vec<String>) -> (r: Result<(), CatalogError>)
        requires
            old(self).wf(),
        ensures
            final(self).wf(),
            final(self).next_id_spec() == old(self).next_id_spec(),
            !has_id(old(self)@, id) ==> r is Err && r->Err_0 is NotFound && final(self)@ == old(self)@,
            forall|i: int|
                0 <= i < old(self)@.len() && #[trigger] old(self)@[i].id == id ==> r is Ok && final(self)@
                    == old(self)@.update(i, Entry { tags: tags, ..old(self)@[i] }),
    {
        match self.find_id(id) {
            None => Err(CatalogError::NotFound),
            Some(i) => {
                let ghost before = self.rows@;
                self.rows[i].tags = tags;
                proof {
                    lemma_wf_update(before, self.next_id, i as int, self.rows@[i as int]);
                    assert(self.rows@ =~= before.update(i as int, Entry { tags: tags, ..before[i as int] }));
                    assert forall|k: int| 0 <= k < before.len() && #[trigger] before[k].id == id implies k == i by {}
                }
                Ok(())
            },
        }
    }

    /// Replaces the free-text note of one entry.
    pub fn set_note(&mut self, id: i64, note: &str) -> (r: Result<(), CatalogError>)
        requires
            old(self).wf(),
        ensures
            final(self).wf(),
            final(self).next_id_spec() == old(self).next_id_spec(),
            !has_id(old(self)@, id) ==> r is Err && r->Err_0 is NotFound && final(self)@ == old(self)@,
            forall|i: int|
                0 <= i < old(self)@.len() && #[trigger] old(self)@[i].id == id ==> r is Ok
                    && final(self)@ == old(self)@.update(i, final(self)@[i])
                    && final(self)@[i] == (Entry { note: final(self)@[i].note, ..old(self)@[i] })
                    && final(self)@[i].note@ == note@,
    {
        match self.find_id(id) {
            None => Err(CatalogError::NotFound),
            Some(i) => {
                let ghost before = self.rows@;
                self.rows[i].note = note.to_owned();
                proof {
                    lemma_wf_update(before, self.next_id, i as int, self.rows@[i as int]);
                    assert(self.rows@ =~= before.update(i as int, self.rows@[i as int]));
                    assert forall|k: int| 0 <= k < before.len() && #[trigger] before[k].id == id implies k == i by {}
                }
                Ok(())
            },
        }
    }

    /// Sets the model name that searches match besides the display name.
    pub fn set_model_name(&mut self, id: i64, model_name: Option<&str>) -> (r: Result<(), CatalogError>)
        requires
            old(self).wf(),
        ensures
            final(self).wf(),
            final(self).next_id_spec() == old(self).next_id_spec(),
            !has_id(old(self)@, id) ==> r is Err && r->Err_0 is NotFound && final(self)@ == old(self)@,
            forall|i: int|
                0 <= i < old(self)@.len() && #[trigger] old(self)@[i].id == id ==> r is Ok
                    && final(self)@ == old(self)@.update(i, final(self)@[i])
                    && final(self)@[i] == (Entry { model_name: final(self)@[i].model_name, ..old(self)@[i] })
                    && opt_view(final(self)@[i].model_name) == opt_str_view(model_name),
    {
        match self.find_id(id) {
            None => Err(CatalogError::NotFound),
            Some(i) => {
                let ghost before = self.rows@;
                self.rows[i].model_name = owned_opt(model_name);
                proof {
                    lemma_wf_update(before, self.next_id, i as int, self.rows@[i as int]);
                    assert(self.rows@ =~= before.update(i as int, self.rows@[i as int]));
                    assert forall|k: int| 0 <= k < before.len() && #[trigger] before[k].id == id implies k == i by {}
                }
                Ok(())
            },
        }
    }
}

/// A live entry whose content hash is `hash`.
pub open spec fn hash_live(e: Entry, hash: Seq<char>) -> bool {
    e.live && e.hash@ == hash
}

/// The entries of `s` whose liveness flag is set, in order.
pub open spec fn live_rows(s: Seq<Entry>) -> Seq<Entry>
    decreases s.len(),
{
    if s.len() == 0 {
        seq![]
    } else if s.last().live {
        live_rows(s.drop_last()).push(s.last())
    } else {
        live_rows(s.drop_last())
    }
}

proof fn lemma_wf_remove(s: Seq<Entry>, next: i64, i: int)
    requires
        rows_wf(s, next),
        0 <= i < s.len(),
    ensures
        rows_wf(s.remove(i), next),
{
    let t = s.remove(i);
    assert forall|a: int| 0 <= a < t.len() implies t[a] == s[if a < i { a } else { a + 1 }] by {}
    assert forall|a: int, b: int|
        0 <= a < t.len() && 0 <= b < t.len() && a != b implies #[trigger] t[a].id != #[trigger] t[b].id by {
        assert(t[a] == s[if a < i { a } else { a + 1 }]);
        assert(t[b] == s[if b < i { b } else { b + 1 }]);
    }
    assert forall|a: int, b: int|
        0 <= a < t.len() && 0 <= b < t.len() && a != b implies #[trigger] t[a].key() != #[trigger] t[b].key() by {
        assert(t[a] == s[if a < i { a } else { a + 1 }]);
        assert(t[b] == s[if b < i { b } else { b + 1 }]);
    }
    assert forall|a: int| 0 <= a < t.len() implies 1 <= #[trigger] t[a].id < next by {
        assert(t[a] == s[if a < i { a } else { a + 1 }]);
    }
}

proof fn lemma_wf_update(s: Seq<Entry>, next: i64, i: int, e: Entry)
    requires
        rows_wf(s, next),
        0 <= i < s.len(),
        e.id == s[i].id,
        e.key() == s[i].key(),
    ensures
        rows_wf(s.update(i, e), next),
{
    let t = s.update(i, e);
    assert forall|a: int, b: int|
        0 <= a < t.len() && 0 <= b < t.len() && a != b implies #[trigger] t[a].id != #[trigger] t[b].id by {
        assert(t[a].id == s[a].id);
        assert(t[b].id == s[b].id);
    }
    assert forall|a: int, b: int|
        0 <= a < t.len() && 0 <= b < t.len() && a != b implies #[trigger] t[a].key() != #[trigger] t[b].key() by {
        assert(t[a].key() == s[a].key());
        assert(t[b].key() == s[b].key());
    }
    assert forall|a: int| 0 <= a < t.len() implies 1 <= #[trigger] t[a].id < next by {
        assert(t[a].id == s[a].id);
    }
}

/// The natural key of the entry with identifier `id`.
pub open spec fn key_with_id(rows: Seq<Entry>, id: i64) -> (Seq<char>, Seq<char>) {
    rows[choose|i: int| 0 <= i < rows.len() && rows[i].id == id].key()
}

/// The keys of the entries that `ids` name, in the order of `ids`; an
/// identifier with no entry is skipped.
pub open spec fn keys_for(rows: Seq<Entry>, ids: Seq<i64>) -> Seq<(Seq<char>, Seq<char>)>
    decreases ids.len(),
{
    if ids.len() == 0 {
        seq![]
    } else if has_id(rows, ids.last()) {
        keys_for(rows, ids.drop_last()).push(key_with_id(rows, ids.last()))
    } else {
        keys_for(rows, ids.drop_last())
    }
}

pub open spec fn string_pairs(v: Seq<(String, String)>) -> Seq<(Seq<char>, Seq<char>)> {
    v.map_values(|p: (String, String)| (p.0@, p.1@))
}

impl Catalog {
    /// Soft-deletes every entry that `ids` name and returns their keys, so
    /// that their files can be moved aside; an identifier with no entry is
    /// skipped and the rest go on.
    pub fn mark_obsolete_ids(&mut self, ids: &Vec<i64>) -> (r: Vec<(String, String)>)
        requires
            old(self).wf(),
        ensures
            final(self).wf(),
            final(self).next_id_spec() == old(self).next_id_spec(),
            final(self)@.len() == old(self)@.len(),
            forall|i: int|
                0 <= i < old(self)@.len() ==> #[trigger] final(self)@[i] == if ids@.contains(old(self)@[i].id) {
                    old(self)@[i].cleared()
                } else {
                    old(self)@[i]
                },
            string_pairs(r@) == keys_for(old(self)@, ids@),
    {
        let ghost before = self.rows@;
        let mut out: Vec<(String, String)> = Vec::new();
        let mut k: usize = 0;
        while k < ids.len()
            invariant
                self.next_id == old(self).next_id,
                self.wf(),
                k <= ids@.len(),
                rows_wf(before, self.next_id),
                self.rows@.len() == before.len(),
                forall|i: int|
                    0 <= i < before.len() ==> #[trigger] self.rows@[i] == if ids@.subrange(0, k as int).contains(before[i].id) {
                        before[i].cleared()
                    } else {
                        before[i]
                    },
                string_pairs(out@) == keys_for(before, ids@.subrange(0, k as int)),
            decreases ids@.len() - k,
        {
            let id = ids[k];
            let ghost cur = self.rows@;
            let ghost pre = ids@.subrange(0, k as int);
            let ghost next = ids@.subrange(0, k + 1);
            assert(next.drop_last() =~= pre);
            assert(next.last() == id);
            assert forall|i: int| 0 <= i < before.len() implies #[trigger] cur[i].id == before[i].id && cur[i].key() == before[i].key() by {
                assert(cur[i] == if pre.contains(before[i].id) { before[i].cleared() } else { before[i] });
            }
            assert(has_id(cur, id) == has_id(before, id)) by {
                if has_id(cur, id) {
                    let i = choose|i: int| 0 <= i < cur.len() && #[trigger] cur[i].id == id;
                    assert(before[i].id == id);
                }
                if has_id(before, id) {
                    let i = choose|i: int| 0 <= i < before.len() && #[trigger] before[i].id == id;
                    assert(cur[i].id == id);
                }
            }
            let res = self.mark_obsolete(id);
            match res {
                Ok(pair) => {
                    proof {
                        let i = choose|i: int| 0 <= i < cur.len() && #[trigger] cur[i].id == id;
                        let c = choose|c: int| 0 <= c < before.len() && before[c].id == id;
                        assert(before[i].id == id);
                        assert(c == i);
                        assert(string_pairs(out@.push(pair)) =~= string_pairs(out@).push((pair.0@, pair.1@)));
                    }
                    out.push(pair);
                },
                Err(_) => {},
            }
            proof {
                assert forall|i: int| 0 <= i < before.len() implies #[trigger] self.rows@[i] == if next.contains(before[i].id) {
                    before[i].cleared()
                } else {
                    before[i]
                } by {
                    if before[i].id == id {
                        assert(next[k as int] == id);
                        assert(cur[i].id == id);
                    } else {
                        assert(next.contains(before[i].id) == pre.contains(before[i].id)) by {
                            if next.contains(before[i].id) {
                                let a = choose|a: int| 0 <= a < next.len() && next[a] == before[i].id;
                                assert(pre[a] == before[i].id);
                            }
                            if pre.contains(before[i].id) {
                                let a = choose|a: int| 0 <= a < pre.len() && pre[a] == before[i].id;
                                assert(next[a] == before[i].id);
                            }
                        }
                        if has_id(cur, id) {
                            let j = choose|j: int| 0 <= j < cur.len() && #[trigger] cur[j].id == id;
                            assert(j != i);
                        }
                    }
                }
            }
            k += 1;
        }
        assert(ids@.subrange(0, k as int) =~= ids@);
        out
    }
}

/// `live_rows(s)` holds the live entries of `s`, each one of `s`.
pub proof fn lemma_live_rows(s: Seq<Entry>)
    ensures
        forall|j: int| 0 <= j < live_rows(s).len() ==> (#[trigger] live_rows(s)[j]).live && s.contains(live_rows(s)[j]),
        forall|q: int| 0 <= q < s.len() && #[trigger] s[q].live ==> live_rows(s).contains(s[q]),
    decreases s.len(),
{
    if s.len() > 0 {
        let p = s.drop_last();
        lemma_live_rows(p);
        let o = live_rows(s);
        let op = live_rows(p);
        assert forall|j: int| 0 <= j < o.len() implies (#[trigger] o[j]).live && s.contains(o[j]) by {
            if j < op.len() {
                assert(o[j] == op[j]);
                assert(p.contains(op[j]));
                let q = choose|q: int| 0 <= q < p.len() && p[q] == op[j];
                assert(s[q] == p[q]);
            } else {
                assert(o[j] == s[s.len() - 1]);
            }
        }
        assert forall|q: int| 0 <= q < s.len() && #[trigger] s[q].live implies o.contains(s[q]) by {
            if q < s.len() - 1 {
                assert(p[q] == s[q]);
                assert(op.contains(p[q]));
                let j = choose|j: int| 0 <= j < op.len() && op[j] == p[q];
                assert(o[j] == op[j]);
            } else {
                assert(o[o.len() - 1] == s[q]);
            }
        }
    }
}

} // verus!
