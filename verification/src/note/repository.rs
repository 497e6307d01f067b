//! The note repository: create, find-by-id, and delete-by-id.
//!
//! The repository state is modelled as the sequence of stored note models,
//! newest last. `spec_find` and `spec_delete` give the mathematical meaning
//! of point lookup and removal; every operation's contract is stated over
//! them. Absence is a success outcome, never an error, and deletion is
//! "ensure absence", so deleting a missing id succeeds.

use vstd::prelude::*;

use crate::note_id::NoteId;

verus! {

/// A stored note, as a repository caller sees it.
#[derive(Debug)]
pub struct NoteEntity {
    pub id: NoteId,
    pub content: String,
    pub confidential: bool,
}

/// The mathematical model of one stored note.
pub ghost struct NoteModel {
    pub id: u128,
    pub content: Seq<char>,
    pub confidential: bool,
}

impl NoteEntity {
    /// The model of this entity.
    pub open spec fn model(self) -> NoteModel {
        NoteModel { id: self.id.bits, content: self.content@, confidential: self.confidential }
    }

    /// An owned copy with the same model.
    pub fn duplicate(&self) -> (r: NoteEntity)
        ensures
            r == *self,
    {
        NoteEntity { id: self.id, content: self.content.clone(), confidential: self.confidential }
    }
}

/// The caller-supplied part of a note; the id is generated server-side.
pub struct CreateNoteInput {
    pub content: String,
    pub confidential: bool,
}

/// The single error kind a repository operation can surface: the storage
/// layer failed (constraint violation or connectivity loss). Absence of a
/// row is never reported through this type.
#[derive(Clone, Copy, PartialEq, Eq, Structural, Debug)]
pub enum RepositoryError {
    Database,
}

/// The statement a database-backed binding issues to create a note; the
/// database generates the id and hands the full row back.
pub open spec fn insert_statement() -> Seq<char> {
    "INSERT INTO notes (id, content, confidential) VALUES (gen_random_uuid(), $1, $2) RETURNING id, content, confidential"@
}

/// The statement a database-backed binding issues for a point lookup.
pub open spec fn select_statement() -> Seq<char> {
    "SELECT id, content, confidential FROM notes WHERE id = $1"@
}

/// The statement a database-backed binding issues to ensure absence.
pub open spec fn delete_statement() -> Seq<char> {
    "DELETE FROM notes WHERE id = $1"@
}

/// The parametrized SQL behind `create`.
pub fn sql_insert_note() -> (r: &'static str)
    ensures
        r@ == insert_statement(),
{
    "INSERT INTO notes (id, content, confidential) VALUES (gen_random_uuid(), $1, $2) RETURNING id, content, confidential"
}

/// The parametrized SQL behind `find`.
pub fn sql_select_note() -> (r: &'static str)
    ensures
        r@ == select_statement(),
{
    "SELECT id, content, confidential FROM notes WHERE id = $1"
}

/// The parametrized SQL behind `delete`.
pub fn sql_delete_note() -> (r: &'static str)
    ensures
        r@ == delete_statement(),
{
    "DELETE FROM notes WHERE id = $1"
}

/// Point lookup: the newest stored model with the given id, if any.
pub open spec fn spec_find(s: Seq<NoteModel>, id: u128) -> Option<NoteModel>
    decreases s.len(),
{
    if s.len() == 0 {
        None
    } else if s.last().id == id {
        Some(s.last())
    } else {
        spec_find(s.drop_last(), id)
    }
}

/// Removal: the sequence without every model carrying the given id.
pub open spec fn spec_delete(s: Seq<NoteModel>, id: u128) -> Seq<NoteModel>
    decreases s.len(),
{
    if s.len() == 0 {
        s
    } else if s.last().id == id {
        spec_delete(s.drop_last(), id)
    } else {
        spec_delete(s.drop_last(), id).push(s.last())
    }
}

/// Every stored note has a unique id: the repository invariant.
pub open spec fn unique_ids(s: Seq<NoteModel>) -> bool {
    forall|i: int, j: int| 0 <= i < j < s.len() ==> s[i].id != s[j].id
}

/// The repository capability: create, find and delete against some
/// storage binding, stated over the binding's model sequence. A binding
/// may fail at any point — storage may be unreachable — so each contract
/// says what happened exactly when the operation succeeded, and that a
/// failed operation changed nothing. The in-memory binding below
/// implements it; callers may inject any other binding that honours it.
pub trait NoteRepository: Sized {
    /// The sequence of stored note models, newest last.
    spec fn repo_view(&self) -> Seq<NoteModel>;

    /// The binding's invariant: stored ids are distinct.
    spec fn repo_wf(&self) -> bool;

    /// On success the store gained exactly one note: the caller's content
    /// and flag under a server-generated random id that was absent before.
    fn create(&mut self, input: CreateNoteInput) -> (r: Result<NoteEntity, RepositoryError>)
        requires
            old(self).repo_wf(),
        ensures
            final(self).repo_wf(),
            r matches Ok(n) ==> spec_find(old(self).repo_view(), n.id.bits) is None
                && n.content@ == input.content@ && n.confidential == input.confidential
                && n.id.is_v4() && final(self).repo_view() == old(self).repo_view().push(
                n.model(),
            ),
            r is Err ==> final(self).repo_view() == old(self).repo_view(),
    ;

    /// On success the note under the id is gone and every other note
    /// stands untouched, whether or not one was stored: deletion is
    /// "ensure absence".
    fn delete(&mut self, id: NoteId) -> (r: Result<(), RepositoryError>)
        requires
            old(self).repo_wf(),
        ensures
            final(self).repo_wf(),
            r is Ok ==> final(self).repo_view() == spec_delete(old(self).repo_view(), id.bits),
            r is Err ==> final(self).repo_view() == old(self).repo_view(),
    ;

    /// On success the outcome mirrors the lookup exactly: the stored note
    /// under the id, or absence — which is not an error.
    fn find(&self, id: NoteId) -> (r: Result<Option<NoteEntity>, RepositoryError>)
        ensures
            r matches Ok(Some(n)) ==> spec_find(self.repo_view(), id.bits) == Some(n.model()),
            r matches Ok(None) ==> spec_find(self.repo_view(), id.bits) is None,
    ;
}

/// The in-memory binding of the repository contract.
pub struct NoteRepositoryImpl {
    notes: Vec<NoteEntity>,
}

impl NoteRepository for NoteRepositoryImpl {
    open spec fn repo_view(&self) -> Seq<NoteModel> {
        self@
    }

    open spec fn repo_wf(&self) -> bool {
        self.wf()
    }

    fn create(&mut self, input: CreateNoteInput) -> (r: Result<NoteEntity, RepositoryError>) {
        NoteRepositoryImpl::create(self, input)
    }

    fn delete(&mut self, id: NoteId) -> (r: Result<(), RepositoryError>) {
        NoteRepositoryImpl::delete(self, id)
    }

    fn find(&self, id: NoteId) -> (r: Result<Option<NoteEntity>, RepositoryError>) {
        NoteRepositoryImpl::find(self, id)
    }
}

impl View for NoteRepositoryImpl {
    type V = Seq<NoteModel>;

    closed spec fn view(&self) -> Seq<NoteModel> {
        self.notes@.map_values(|e: NoteEntity| e.model())
    }
}

impl NoteRepositoryImpl {
    /// The repository invariant: all stored ids are distinct.
    pub open spec fn wf(&self) -> bool {
        unique_ids(self@)
    }

    /// An empty repository.
    pub fn new() -> (r: Self)
        ensures
            r@ == Seq::<NoteModel>::empty(),
            r.wf(),
    {
        let r = NoteRepositoryImpl { notes: Vec::new() };
        proof {
            assert(r@ =~= Seq::<NoteModel>::empty());
        }
        r
    }

    /// The index of the newest stored entity with the given id, if any.
    fn index_of(&self, id: NoteId) -> (r: Option<usize>)
        ensures
            match r {
                Some(i) => i < self@.len() && self@[i as int].id == id.bits
                    && spec_find(self@, id.bits) == Some(self@[i as int]),
                None => spec_find(self@, id.bits) is None,
            },
    {
        let ghost s = self@;
        let mut j: usize = self.notes.len();
        proof {
            assert(s.take(s.len() as int) =~= s);
        }
        while j > 0
            invariant
                j <= self.notes.len(),
                s == self@,
                s.len() == self.notes@.len(),
                spec_find(s, id.bits) == spec_find(s.take(j as int), id.bits),
            decreases j,
        {
            proof {
                assert(s.take(j as int).last() == s[j - 1]);
                assert(s.take(j as int).drop_last() =~= s.take(j - 1));
                assert(s[j - 1] == self.notes@[j - 1].model());
            }
            if self.notes[j - 1].id == id {
                return Some(j - 1);
            }
            j = j - 1;
        }
        proof {
            assert(s.take(0) =~= Seq::<NoteModel>::empty());
        }
        None
    }

    /// Inserts a note under a caller-chosen fresh id. Succeeds if and only
    /// if no note with that id is stored; on a collision the state is
    /// unchanged and the error is the storage kind, as a primary-key
    /// violation would be.
    pub fn create_with_id(&mut self, id: NoteId, input: CreateNoteInput) -> (r: Result<
        NoteEntity,
        RepositoryError,
    >)
        requires
            old(self).wf(),
        ensures
            final(self).wf(),
            spec_find(old(self)@, id.bits) is None ==> (r matches Ok(n) && n.id == id
                && n.content@ == input.content@ && n.confidential == input.confidential
                && final(self)@ == old(self)@.push(n.model())),
            spec_find(old(self)@, id.bits) is Some ==> r == Err::<NoteEntity, RepositoryError>(
                RepositoryError::Database,
            ) && final(self)@ == old(self)@,
    {
        match self.index_of(id) {
            Some(_) => Err(RepositoryError::Database),
            None => {
                let entity = NoteEntity {
                    id,
                    content: input.content,
                    confidential: input.confidential,
                };
                let returned = entity.duplicate();
                let ghost before = self@;
                self.notes.push(entity);
                proof {
                    assert(self@ =~= before.push(entity.model()));
                    lemma_find_none_all_absent(before, id.bits);
                    lemma_push_fresh_preserves_unique(before, entity.model());
                }
                Ok(returned)
            },
        }
    }

    /// Creates a note under a freshly generated random id. The returned
    /// entity carries the caller's content and flag together with the new
    /// id, which no stored note carried before the call; the repository
    /// gains exactly that note. The error case — the freshly drawn id
    /// collided with a stored one — leaves the state unchanged, and can
    /// only arise when something is stored: on an empty repository every
    /// creation succeeds, whatever the content, empty included.
    pub fn create(&mut self, input: CreateNoteInput) -> (r: Result<NoteEntity, RepositoryError>)
        requires
            old(self).wf(),
        ensures
            final(self).wf(),
            r matches Ok(n) ==> spec_find(old(self)@, n.id.bits) is None
                && n.content@ == input.content@ && n.confidential == input.confidential
                && n.id.is_v4() && final(self)@ == old(self)@.push(n.model()),
            r is Err ==> r == Err::<NoteEntity, RepositoryError>(RepositoryError::Database)
                && final(self)@ == old(self)@ && old(self)@.len() > 0,
    {
        let id = NoteId::fresh();
        self.create_with_id(id, input)
    }

    /// Point lookup. Never errs: absence is the `Ok(None)` outcome. The
    /// returned entity, when present, is exactly the stored note with the
    /// given id.
    pub fn find(&self, id: NoteId) -> (r: Result<Option<NoteEntity>, RepositoryError>)
        ensures
            r is Ok,
            spec_find(self@, id.bits) is None ==> r == Ok::<Option<NoteEntity>, RepositoryError>(
                None,
            ),
            spec_find(self@, id.bits) matches Some(m) ==> (r matches Ok(Some(n)) && n.model() == m
                && n.id == id),
    {
        match self.index_of(id) {
            Some(i) => Ok(Some(self.notes[i].duplicate())),
            None => Ok(None),
        }
    }

    /// Removes the note with the given id if one is stored. Deletion is
    /// "ensure absence": it succeeds whether or not a note matched, so
    /// repeating it is harmless. Notes under every other id are untouched.
    pub fn delete(&mut self, id: NoteId) -> (r: Result<(), RepositoryError>)
        requires
            old(self).wf(),
        ensures
            final(self).wf(),
            r is Ok,
            final(self)@ == spec_delete(old(self)@, id.bits),
            spec_find(final(self)@, id.bits) is None,
            forall|other: u128| other != id.bits ==> spec_find(final(self)@, other) == spec_find(
                old(self)@,
                other,
            ),
    {
        let ghost s = self@;
        let mut kept: Vec<NoteEntity> = Vec::new();
        let mut j: usize = 0;
        proof {
            assert(kept@.map_values(|e: NoteEntity| e.model()) =~= spec_delete(
                s.take(0),
                id.bits,
            ));
        }
        while j < self.notes.len()
            invariant
                j <= self.notes.len(),
                s == self@,
                s.len() == self.notes@.len(),
                kept@.map_values(|e: NoteEntity| e.model()) == spec_delete(s.take(j as int), id.bits),
            decreases self.notes.len() - j,
        {
            let ghost before = kept@.map_values(|e: NoteEntity| e.model());
            proof {
                assert(s.take(j + 1).last() == s[j as int]);
                assert(s.take(j + 1).drop_last() =~= s.take(j as int));
                assert(s[j as int] == self.notes@[j as int].model());
            }
            if self.notes[j].id == id {
                proof {
                    assert(spec_delete(s.take(j + 1), id.bits) == before);
                }
            } else {
                let copy = self.notes[j].duplicate();
                kept.push(copy);
                proof {
                    assert(kept@.map_values(|e: NoteEntity| e.model()) =~= before.push(
                        s[j as int],
                    ));
                }
            }
            j = j + 1;
        }
        proof {
            assert(s.take(s.len() as int) =~= s);
        }
        self.notes = kept;
        proof {
            lemma_delete_removes(s, id.bits);
            lemma_delete_keeps_others(s, id.bits);
            lemma_delete_preserves_unique(s, id.bits);
        }
        Ok(())
    }
}

/// A lookup that finds nothing means that no element carries the id.
pub proof fn lemma_find_none_all_absent(s: Seq<NoteModel>, id: u128)
    requires
        spec_find(s, id) is None,
    ensures
        forall|i: int| 0 <= i < s.len() ==> s[i].id != id,
    decreases s.len(),
{
    if s.len() > 0 {
        lemma_find_none_all_absent(s.drop_last(), id);
        assert(forall|i: int| 0 <= i < s.len() - 1 ==> s[i] == s.drop_last()[i]);
    }
}

/// Pushing a model whose id is stored nowhere keeps all ids distinct.
pub proof fn lemma_push_fresh_preserves_unique(s: Seq<NoteModel>, m: NoteModel)
    requires
        unique_ids(s),
        forall|i: int| 0 <= i < s.len() ==> s[i].id != m.id,
    ensures
        unique_ids(s.push(m)),
{
    let t = s.push(m);
    assert forall|i: int, j: int| 0 <= i < j < t.len() implies t[i].id != t[j].id by {
        if j < s.len() {
            assert(s[i].id != s[j].id);
        } else {
            assert(t[j] == m);
            assert(t[i] == s[i]);
        }
    }
}

/// After a deletion the deleted id is stored nowhere.
pub proof fn lemma_delete_removes(s: Seq<NoteModel>, id: u128)
    ensures
        spec_find(spec_delete(s, id), id) is None,
        forall|i: int| 0 <= i < spec_delete(s, id).len() ==> spec_delete(s, id)[i].id != id,
    decreases s.len(),
{
    if s.len() > 0 {
        lemma_delete_removes(s.drop_last(), id);
        if s.last().id != id {
            let d = spec_delete(s.drop_last(), id).push(s.last());
            assert(d.last() == s.last());
            assert(d.drop_last() =~= spec_delete(s.drop_last(), id));
        }
    }
}

/// A deletion leaves lookups under every other id unchanged.
pub proof fn lemma_delete_keeps_others(s: Seq<NoteModel>, id: u128)
    ensures
        forall|other: u128| other != id ==> spec_find(spec_delete(s, id), other) == spec_find(
            s,
            other,
        ),
    decreases s.len(),
{
    if s.len() > 0 {
        lemma_delete_keeps_others(s.drop_last(), id);
        assert forall|other: u128| other != id implies spec_find(spec_delete(s, id), other)
            == spec_find(s, other) by {
            if s.last().id == id {
                assert(spec_find(s, other) == spec_find(s.drop_last(), other));
            } else {
                let d = spec_delete(s.drop_last(), id).push(s.last());
                assert(d.last() == s.last());
                assert(d.drop_last() =~= spec_delete(s.drop_last(), id));
                if s.last().id == other {
                    assert(spec_find(d, other) == Some(s.last()));
                    assert(spec_find(s, other) == Some(s.last()));
                } else {
                    assert(spec_find(d, other) == spec_find(spec_delete(s.drop_last(), id), other));
                    assert(spec_find(s, other) == spec_find(s.drop_last(), other));
                }
            }
        }
    }
}

/// Every model kept by a deletion was stored before it.
pub proof fn lemma_delete_contained(s: Seq<NoteModel>, id: u128)
    ensures
        forall|k: int| 0 <= k < spec_delete(s, id).len() ==> s.contains(
            #[trigger] spec_delete(s, id)[k],
        ),
    decreases s.len(),
{
    if s.len() > 0 {
        lemma_delete_contained(s.drop_last(), id);
        let rest = spec_delete(s.drop_last(), id);
        assert forall|k: int| 0 <= k < spec_delete(s, id).len() implies s.contains(
            #[trigger] spec_delete(s, id)[k],
        ) by {
            if s.last().id == id {
                assert(s.drop_last().contains(rest[k]));
                let i = choose|i: int| 0 <= i < s.drop_last().len() && s.drop_last()[i] == rest[k];
                assert(s[i] == rest[k]);
            } else {
                let d = rest.push(s.last());
                if k < rest.len() {
                    assert(d[k] == rest[k]);
                    assert(s.drop_last().contains(rest[k]));
                    let i = choose|i: int|
                        0 <= i < s.drop_last().len() && s.drop_last()[i] == rest[k];
                    assert(s[i] == d[k]);
                } else {
                    assert(d[k] == s.last());
                    assert(s[s.len() - 1] == s.last());
                }
            }
        }
    }
}

/// A deletion preserves the uniqueness of the stored ids.
pub proof fn lemma_delete_preserves_unique(s: Seq<NoteModel>, id: u128)
    requires
        unique_ids(s),
    ensures
        unique_ids(spec_delete(s, id)),
    decreases s.len(),
{
    if s.len() > 0 {
        assert(unique_ids(s.drop_last())) by {
            assert(forall|i: int| 0 <= i < s.len() - 1 ==> s.drop_last()[i] == s[i]);
        }
        lemma_delete_preserves_unique(s.drop_last(), id);
        if s.last().id != id {
            let rest = spec_delete(s.drop_last(), id);
            lemma_delete_contained(s.drop_last(), id);
            assert forall|i: int, j: int|
                0 <= i < j < rest.push(s.last()).len() implies rest.push(s.last())[i].id != rest.push(
                s.last(),
            )[j].id by {
                if j < rest.len() {
                    assert(rest[i].id != rest[j].id);
                } else {
                    assert(rest.push(s.last())[j] == s.last());
                    assert(rest.push(s.last())[i] == rest[i]);
                    assert(s.drop_last().contains(rest[i]));
                    let k = choose|k: int|
                        0 <= k < s.drop_last().len() && s.drop_last()[k] == rest[i];
                    assert(s[k] == rest[i]);
                    assert(s[k].id != s[s.len() - 1].id);
                }
            }
        }
    }
}

/// Round trip: a lookup right after an insertion under a fresh id returns
/// exactly the inserted model.
pub proof fn lemma_create_find_round_trip(s: Seq<NoteModel>, m: NoteModel)
    ensures
        spec_find(s.push(m), m.id) == Some(m),
{
    assert(s.push(m).last() == m);
}

/// Uniqueness: two successive successful creations — each under an id that
/// was absent when it ran — yield distinct ids, whatever their contents.
pub proof fn lemma_create_ids_distinct(s: Seq<NoteModel>, m1: NoteModel, m2: NoteModel)
    requires
        spec_find(s, m1.id) is None,
        spec_find(s.push(m1), m2.id) is None,
    ensures
        m1.id != m2.id,
{
    lemma_create_find_round_trip(s, m1);
}

/// Idempotent deletion: deleting an id twice is the same as deleting it
/// once, and the id is absent after either pass.
pub proof fn lemma_delete_idempotent(s: Seq<NoteModel>, id: u128)
    ensures
        spec_delete(spec_delete(s, id), id) == spec_delete(s, id),
        spec_find(spec_delete(s, id), id) is None,
{
    lemma_delete_removes(s, id);
    lemma_delete_noop(spec_delete(s, id), id);
}

/// Deleting an id that is stored nowhere changes nothing.
pub proof fn lemma_delete_noop(s: Seq<NoteModel>, id: u128)
    requires
        forall|i: int| 0 <= i < s.len() ==> s[i].id != id,
    ensures
        spec_delete(s, id) == s,
    decreases s.len(),
{
    if s.len() > 0 {
        assert(s[s.len() - 1].id != id);
        assert(forall|i: int| 0 <= i < s.len() - 1 ==> s.drop_last()[i] == s[i]);
        lemma_delete_noop(s.drop_last(), id);
        assert(s.drop_last().push(s.last()) =~= s);
    }
}

} // verus!
