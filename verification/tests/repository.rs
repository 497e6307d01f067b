use ohw_server::note::repository::{
    CreateNoteInput, NoteRepository, NoteRepositoryImpl, RepositoryError,
};
use ohw_server::note_id::NoteId;

#[test]
fn it_can_create_read_and_delete() {
    let mut repository = NoteRepositoryImpl::new();
    // First, we attempt to create a new note
    let created = repository.create(CreateNoteInput {
        content: "Hello world".to_owned(),
        confidential: true,
    });
    assert!(created.is_ok());
    let created = created.unwrap();
    assert_eq!(created.content, "Hello world".to_owned());
    assert_eq!(created.confidential, true);
    // Then we try to locate that note in the repository
    let found = repository.find(created.id);
    assert!(found.is_ok());
    let found = found.unwrap();
    assert!(found.is_some());
    let found = found.unwrap();
    assert_eq!(created.id, found.id);
    // Then we delete the newly created note
    let deletion = repository.delete(created.id);
    assert!(deletion.is_ok());
    // The note should no longer be found
    let missing = repository.find(created.id);
    assert!(missing.is_ok());
    let missing = missing.unwrap();
    assert!(missing.is_none());
}

#[test]
fn round_trip_returns_equal_note_with_nonempty_id() {
    let mut repository = NoteRepositoryImpl::new();
    let created = repository
        .create(CreateNoteInput { content: "some text".to_owned(), confidential: false })
        .unwrap();
    assert!(!created.id.hyphenated().is_empty());
    let found = repository.find(created.id).unwrap().unwrap();
    assert_eq!(found.content, "some text".to_owned());
    assert_eq!(found.confidential, false);
    assert_eq!(found.id, created.id);
}

#[test]
fn delete_is_idempotent() {
    let mut repository = NoteRepositoryImpl::new();
    let created = repository
        .create(CreateNoteInput { content: "to be removed".to_owned(), confidential: false })
        .unwrap();
    assert!(repository.delete(created.id).is_ok());
    assert!(repository.find(created.id).unwrap().is_none());
    assert!(repository.delete(created.id).is_ok());
    assert!(repository.find(created.id).unwrap().is_none());
}

#[test]
fn identical_inputs_get_distinct_ids() {
    let mut repository = NoteRepositoryImpl::new();
    let first = repository
        .create(CreateNoteInput { content: "twin".to_owned(), confidential: true })
        .unwrap();
    let second = repository
        .create(CreateNoteInput { content: "twin".to_owned(), confidential: true })
        .unwrap();
    assert_ne!(first.id, second.id);
}

#[test]
fn find_of_unused_id_is_absence_not_error() {
    let repository = NoteRepositoryImpl::new();
    let unused = NoteId::fresh();
    let found = repository.find(unused);
    assert!(found.is_ok());
    assert!(found.unwrap().is_none());
}

#[test]
fn end_to_end_scenario() {
    let mut repository = NoteRepositoryImpl::new();
    let created = repository
        .create(CreateNoteInput { content: "Hello world".to_owned(), confidential: true })
        .unwrap();
    assert_eq!(created.content, "Hello world".to_owned());
    assert_eq!(created.confidential, true);
    // the generated id carries the identifier format
    let text = created.id.hyphenated();
    assert_eq!(text.len(), 36);
    assert_eq!(NoteId::parse(&text), Some(created.id));
    let found = repository.find(created.id).unwrap();
    assert!(found.is_some());
    let found = found.unwrap();
    assert_eq!(found.id, created.id);
    assert_eq!(found.content, "Hello world".to_owned());
    assert_eq!(found.confidential, true);
    assert!(repository.delete(created.id).is_ok());
    assert!(repository.find(created.id).unwrap().is_none());
}

#[test]
fn empty_content_is_accepted() {
    let mut repository = NoteRepositoryImpl::new();
    let created = repository.create(CreateNoteInput { content: "".to_owned(), confidential: false });
    assert!(created.is_ok());
    let created = created.unwrap();
    assert_eq!(created.content, "".to_owned());
    assert_eq!(created.confidential, false);
}

#[test]
fn colliding_id_is_a_database_error_and_changes_nothing() {
    let mut repository = NoteRepositoryImpl::new();
    let id = NoteId { bits: 42 };
    let first = repository
        .create_with_id(id, CreateNoteInput { content: "kept".to_owned(), confidential: false });
    assert!(first.is_ok());
    let second = repository
        .create_with_id(id, CreateNoteInput { content: "clash".to_owned(), confidential: true });
    assert_eq!(second.unwrap_err(), RepositoryError::Database);
    let found = repository.find(id).unwrap().unwrap();
    assert_eq!(found.content, "kept".to_owned());
}

#[test]
fn the_capability_trait_is_honoured_by_the_in_memory_binding() {
    let mut repository = NoteRepositoryImpl::new();
    let created = NoteRepository::create(
        &mut repository,
        CreateNoteInput { content: "via trait".to_owned(), confidential: false },
    )
    .unwrap();
    let found = NoteRepository::find(&repository, created.id).unwrap().unwrap();
    assert_eq!(found.content, "via trait".to_owned());
    assert!(NoteRepository::delete(&mut repository, created.id).is_ok());
    assert!(NoteRepository::find(&repository, created.id).unwrap().is_none());
}

#[test]
fn delete_leaves_other_notes_alone() {
    let mut repository = NoteRepositoryImpl::new();
    let kept = repository
        .create(CreateNoteInput { content: "kept".to_owned(), confidential: false })
        .unwrap();
    let removed = repository
        .create(CreateNoteInput { content: "removed".to_owned(), confidential: true })
        .unwrap();
    assert!(repository.delete(removed.id).is_ok());
    let still_there = repository.find(kept.id).unwrap().unwrap();
    assert_eq!(still_there.content, "kept".to_owned());
    assert!(repository.find(removed.id).unwrap().is_none());
}
