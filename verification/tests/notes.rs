use notebook::error::Error;
use notebook::folder::Folder;
use notebook::note::Note;
use notebook::store::Store;

fn supply(list: &[&str]) -> Vec<String> {
    list.iter().map(|id| id.to_string()).collect()
}

fn shelf() -> Store {
    let mut store = Store::new();
    Folder::make("/a", false, &mut store).unwrap();
    Folder::make("/b", false, &mut store).unwrap();
    store
}

#[test]
fn note_make_needs_a_folder() {
    let mut store = Store::new();
    assert_eq!(Note::make("/n", false, &mut store), Err(Error::BookLessNote));
    assert_eq!(Note::make("n", true, &mut store), Err(Error::BookLessNote));
    assert_eq!(Note::make("", false, &mut store), Err(Error::BookLessNote));
    assert_eq!(Note::make("/", false, &mut store), Err(Error::BookLessNote));
    assert_eq!(
        Note::make("/missing/n", false, &mut store),
        Err(Error::BookLessNote)
    );
    assert_eq!(store.folder_count(), 0);
    assert_eq!(store.note_count(), 0);
}

#[test]
fn note_make_files_an_empty_note() {
    let mut store = shelf();
    let note = Note::make("/a/n", false, &mut store).unwrap();
    assert_eq!(note.title, "n");
    assert_eq!(note.body(), "");
    assert_eq!(note.id().chars().count(), 36);
    let folder = Folder::make("/a", false, &mut store).unwrap();
    assert_eq!(note.parent_id(), folder.id());
    assert_eq!(Note::cat("/a/n", &store), Ok(String::new()));
    let (folders, notes) = Folder::list("/a", &store).unwrap();
    assert!(folders.is_empty());
    assert_eq!(notes, vec![note]);
}

#[test]
fn note_make_is_idempotent() {
    let mut store = shelf();
    let first = Note::make("/a/n", false, &mut store).unwrap();
    Note::update("/a/n", "kept".to_string(), &mut store).unwrap();
    let second = Note::make("/a/n", false, &mut store).unwrap();
    assert_eq!(second.id(), first.id());
    assert_eq!(second.body(), "kept");
    assert_eq!(store.note_count(), 1);
}

#[test]
fn note_make_with_parents_files_the_folders() {
    let mut store = Store::new();
    let note = Note::make("/x/y/n", true, &mut store).unwrap();
    assert_eq!(note.title, "n");
    assert_eq!(store.folder_count(), 2);
    assert_eq!(store.note_count(), 1);
    let (folders, notes) = Folder::list("/x/y", &store).unwrap();
    assert!(folders.is_empty());
    assert_eq!(notes.len(), 1);
    assert_eq!(notes[0].title, "n");
}

#[test]
fn folder_and_note_may_share_a_name() {
    let mut store = shelf();
    Folder::make("/a/same", false, &mut store).unwrap();
    Note::make("/a/same", false, &mut store).unwrap();
    let (folders, notes) = Folder::list("/a", &store).unwrap();
    assert_eq!(folders.len(), 1);
    assert_eq!(notes.len(), 1);
    assert_eq!(folders[0].title, "same");
    assert_eq!(notes[0].title, "same");
}

#[test]
fn cat_reports_what_is_missing() {
    let mut store = shelf();
    assert_eq!(Note::cat("/a/n", &store), Err(Error::NotFound));
    assert_eq!(Note::cat("/missing/n", &store), Err(Error::NotFound));
    assert_eq!(Note::cat("/n", &store), Err(Error::BookLessNote));
    assert_eq!(Note::cat("", &store), Err(Error::BookLessNote));
    Note::make("/a/n", false, &mut store).unwrap();
    assert_eq!(Note::cat("/a/n", &store), Ok(String::new()));
    assert_eq!(Note::cat("/a/N", &store), Err(Error::NotFound));
}

#[test]
fn update_replaces_the_body() {
    let mut store = shelf();
    let made = Note::make("/a/n", false, &mut store).unwrap();
    assert_eq!(
        Note::update("/a/n", "hello".to_string(), &mut store),
        Ok(1)
    );
    assert_eq!(Note::cat("/a/n", &store), Ok("hello".to_string()));
    let found = Note::query("/a/n", &store).unwrap();
    assert_eq!(found.id(), made.id());
    assert_eq!(found.title, "n");
    assert_eq!(
        Note::update("/a/other", "x".to_string(), &mut store),
        Err(Error::NotFound)
    );
    assert_eq!(store.note_count(), 1);
}

#[test]
fn delete_removes_one_note() {
    let mut store = shelf();
    Note::make("/a/n", false, &mut store).unwrap();
    Note::make("/a/m", false, &mut store).unwrap();
    assert_eq!(Note::delete("/a/n", &mut store), Ok(1));
    assert_eq!(Note::cat("/a/n", &store), Err(Error::NotFound));
    assert_eq!(Note::cat("/a/m", &store), Ok(String::new()));
    assert_eq!(Note::delete("/a/n", &mut store), Err(Error::NotFound));
    assert_eq!(store.note_count(), 1);
}

#[test]
fn move_refiles_the_note() {
    let mut store = shelf();
    let made = Note::make("/a/n", false, &mut store).unwrap();
    Note::update("/a/n", "text".to_string(), &mut store).unwrap();
    assert_eq!(Note::move_note("/a/n", "/b", false, false, &mut store), Ok(1));
    assert_eq!(Note::cat("/a/n", &store), Err(Error::NotFound));
    let moved = Note::query("/b/n", &store).unwrap();
    assert_eq!(moved.id(), made.id());
    assert_eq!(moved.title, "n");
    assert_eq!(moved.body(), "text");
    let b = Folder::make("/b", false, &mut store).unwrap();
    assert_eq!(moved.parent_id(), b.id());
    assert_eq!(store.note_count(), 1);
}

#[test]
fn move_without_overwrite_is_refused() {
    let mut store = shelf();
    Note::make("/a/n", false, &mut store).unwrap();
    Note::make("/b/n", false, &mut store).unwrap();
    Note::update("/a/n", "source".to_string(), &mut store).unwrap();
    Note::update("/b/n", "dest".to_string(), &mut store).unwrap();
    let source = Note::query("/a/n", &store).unwrap();
    let dest = Note::query("/b/n", &store).unwrap();
    assert_eq!(
        Note::move_note("/a/n", "/b", false, false, &mut store),
        Err(Error::OverwriteNotAllowed)
    );
    assert_eq!(Note::query("/a/n", &store), Ok(source));
    assert_eq!(Note::query("/b/n", &store), Ok(dest));
}

#[test]
fn move_with_overwrite_replaces_the_body() {
    let mut store = shelf();
    Note::make("/a/n", false, &mut store).unwrap();
    let dest = Note::make("/b/n", false, &mut store).unwrap();
    Note::update("/a/n", "source".to_string(), &mut store).unwrap();
    Note::update("/b/n", "dest".to_string(), &mut store).unwrap();
    assert_eq!(Note::move_note("/a/n", "/b", true, false, &mut store), Ok(2));
    assert_eq!(Note::cat("/b/n", &store), Ok("source".to_string()));
    assert_eq!(Note::cat("/a/n", &store), Err(Error::NotFound));
    assert_eq!(Note::query("/b/n", &store).unwrap().id(), dest.id());
    assert_eq!(store.note_count(), 1);
}

#[test]
fn move_needs_the_destination() {
    let mut store = shelf();
    Note::make("/a/n", false, &mut store).unwrap();
    assert_eq!(
        Note::move_note("/a/n", "/c/d", false, false, &mut store),
        Err(Error::NotFound)
    );
    assert_eq!(
        Note::move_note("/a/n", "/", false, false, &mut store),
        Err(Error::BookLessNote)
    );
    assert_eq!(
        Note::move_note("/a/missing", "/b", false, false, &mut store),
        Err(Error::NotFound)
    );
    assert_eq!(store.folder_count(), 2);
    assert_eq!(Note::move_note("/a/n", "/c/d", false, true, &mut store), Ok(1));
    assert_eq!(store.folder_count(), 4);
    assert_eq!(Note::cat("/c/d/n", &store), Ok(String::new()));
    assert_eq!(Note::cat("/a/n", &store), Err(Error::NotFound));
}

#[test]
fn copy_keeps_the_source() {
    let mut store = shelf();
    Note::make("/a/n", false, &mut store).unwrap();
    Note::update("/a/n", "text".to_string(), &mut store).unwrap();
    let source = Note::query("/a/n", &store).unwrap();
    assert_eq!(Note::copy_note("/a/n", "/b", false, false, &mut store), Ok(1));
    assert_eq!(Note::query("/a/n", &store).as_ref(), Ok(&source));
    let copy = Note::query("/b/n", &store).unwrap();
    assert_ne!(copy.id(), source.id());
    assert_eq!(copy.title, "n");
    assert_eq!(copy.body(), "text");
    assert_eq!(store.note_count(), 2);

    assert_eq!(
        Note::copy_note("/a/n", "/b", false, false, &mut store),
        Err(Error::OverwriteNotAllowed)
    );
    assert_eq!(Note::query("/a/n", &store).as_ref(), Ok(&source));

    Note::update("/a/n", "newer".to_string(), &mut store).unwrap();
    assert_eq!(Note::copy_note("/a/n", "/b", true, false, &mut store), Ok(1));
    assert_eq!(Note::cat("/b/n", &store), Ok("newer".to_string()));
    assert_eq!(Note::cat("/a/n", &store), Ok("newer".to_string()));
    assert_eq!(Note::query("/b/n", &store).unwrap().id(), copy.id());
    assert_eq!(store.note_count(), 2);
}

#[test]
fn copy_onto_itself_changes_nothing() {
    let mut store = shelf();
    Note::make("/a/n", false, &mut store).unwrap();
    Note::update("/a/n", "text".to_string(), &mut store).unwrap();
    let source = Note::query("/a/n", &store).unwrap();
    assert_eq!(Note::copy_note("/a/n", "/a", true, false, &mut store), Ok(1));
    assert_eq!(Note::query("/a/n", &store), Ok(source));
    assert_eq!(store.note_count(), 1);
}

#[test]
fn copy_needs_the_destination() {
    let mut store = shelf();
    Note::make("/a/n", false, &mut store).unwrap();
    assert_eq!(
        Note::copy_note("/a/n", "/c", false, false, &mut store),
        Err(Error::NotFound)
    );
    assert_eq!(
        Note::copy_note("/a/n", "", false, false, &mut store),
        Err(Error::BookLessNote)
    );
    assert_eq!(Note::copy_note("/a/n", "/c", false, true, &mut store), Ok(1));
    assert_eq!(Note::cat("/c/n", &store), Ok(String::new()));
    assert_eq!(store.folder_count(), 3);
}

#[test]
fn identifiers_in_use_are_not_given_twice() {
    let mut store = Store::new();
    let a = Folder::make_with_ids("/a", false, &supply(&["one"]), &mut store).unwrap();
    assert_eq!(a.id(), "one");
    assert_eq!(a.parent_id(), "");
    assert_eq!(
        Folder::make_with_ids("/b", false, &supply(&["one"]), &mut store),
        Err(Error::NotFound)
    );
    assert_eq!(store.folder_count(), 1);
    let again = Folder::make_with_ids("/a", false, &supply(&["two"]), &mut store).unwrap();
    assert_eq!(again, a);
    let n = Note::make_with_ids("/a/n", false, &supply(&["one"]), &mut store).unwrap();
    assert_eq!(n.id(), "one");
    assert_eq!(n.parent_id(), "one");
    assert_eq!(
        Note::make_with_ids("/a/m", false, &supply(&["one"]), &mut store),
        Err(Error::NotFound)
    );
    assert_eq!(store.note_count(), 1);
}

#[test]
fn an_empty_supply_files_nothing() {
    let mut store = Store::new();
    assert_eq!(
        Folder::make_with_ids("/a", false, &supply(&[]), &mut store),
        Err(Error::NotFound)
    );
    assert_eq!(
        Folder::make_with_ids("/a", false, &supply(&[""]), &mut store),
        Err(Error::NotFound)
    );
    assert_eq!(store.folder_count(), 0);
}

#[test]
fn a_failed_make_takes_back_the_parents() {
    let mut store = Store::new();
    Folder::make_with_ids("/a", false, &supply(&["taken"]), &mut store).unwrap();
    assert_eq!(
        Folder::make_with_ids("/x/y/z", true, &supply(&["i1", "i2", "taken"]), &mut store),
        Err(Error::NotFound)
    );
    assert_eq!(store.folder_count(), 1);
    assert_eq!(Folder::list("/x", &store), Err(Error::NotFound));
    assert_eq!(
        Note::make_with_ids("/x/y/n", true, &supply(&["i1", "i2"]), &mut store),
        Err(Error::NotFound)
    );
    assert_eq!(store.folder_count(), 1);
    let made = Folder::make_with_ids("/x/y/z", true, &supply(&["i1", "i2", "i3"]), &mut store).unwrap();
    assert_eq!(made.id(), "i3");
    assert_eq!(made.parent_id(), "i2");
    assert_eq!(store.folder_count(), 4);
}

#[test]
fn a_failed_move_or_copy_takes_back_the_folders() {
    let mut store = Store::new();
    Folder::make_with_ids("/a", false, &supply(&["fa"]), &mut store).unwrap();
    Note::make_with_ids("/a/n", false, &supply(&["na"]), &mut store).unwrap();
    assert_eq!(
        Note::move_note_with_ids("/a/n", "/p/q", false, true, &supply(&["fp", "fa"]), &mut store),
        Err(Error::NotFound)
    );
    assert_eq!(store.folder_count(), 1);
    assert_eq!(
        Note::copy_note_with_ids("/a/n", "/p", false, true, &supply(&["fp", "na"]), &mut store),
        Err(Error::NotFound)
    );
    assert_eq!(store.folder_count(), 1);
    assert_eq!(store.note_count(), 1);
    assert_eq!(
        Note::copy_note_with_ids("/a/n", "/p", false, true, &supply(&["fp", "np"]), &mut store),
        Ok(1)
    );
    assert_eq!(Note::query("/p/n", &store).unwrap().id(), "np");
    assert_eq!(
        Note::move_note_with_ids("/a/n", "/r/s", false, true, &supply(&["fr", "fs"]), &mut store),
        Ok(1)
    );
    assert_eq!(Note::query("/r/s/n", &store).unwrap().parent_id(), "fs");
}

#[test]
fn random_identifiers_differ() {
    let mut store = Store::new();
    let a = Folder::make("/a", false, &mut store).unwrap();
    let b = Folder::make("/b", false, &mut store).unwrap();
    assert_eq!(a.id().chars().count(), 36);
    assert_eq!(b.id().chars().count(), 36);
    assert_ne!(a.id(), b.id());
    assert_eq!(b.parent_id(), "");
}

#[test]
fn recursive_delete_counts_every_row_below() {
    let mut store = Store::new();
    Folder::make("/t/a/b", true, &mut store).unwrap();
    Folder::make("/t/c", false, &mut store).unwrap();
    Folder::make("/other", false, &mut store).unwrap();
    Note::make("/t/n1", false, &mut store).unwrap();
    Note::make("/t/a/n2", false, &mut store).unwrap();
    Note::make("/t/a/b/n3", false, &mut store).unwrap();
    Note::make("/other/n4", false, &mut store).unwrap();
    assert_eq!(Folder::delete("/t/a", false, &mut store), Err(Error::NonEmptyBook));
    assert_eq!(store.folder_count(), 5);
    assert_eq!(store.note_count(), 4);
    assert_eq!(Folder::delete("/t", true, &mut store), Ok(7));
    assert_eq!(store.folder_count(), 1);
    assert_eq!(store.note_count(), 1);
    assert_eq!(Note::cat("/other/n4", &store), Ok(String::new()));
    assert_eq!(Folder::list("/t", &store), Err(Error::NotFound));
}

#[test]
fn delete_of_what_is_not_there() {
    let mut store = shelf();
    assert_eq!(Folder::delete("/missing", true, &mut store), Err(Error::NotFound));
    assert_eq!(Folder::delete("/", true, &mut store), Err(Error::NamelessFolder));
    assert_eq!(Folder::delete("", false, &mut store), Err(Error::NamelessFolder));
    assert_eq!(store.folder_count(), 2);
}

#[test]
fn folder_make_reports_what_is_missing() {
    let mut store = Store::new();
    assert_eq!(Folder::make("", false, &mut store), Err(Error::NamelessFolder));
    assert_eq!(Folder::make("/", true, &mut store), Err(Error::NamelessFolder));
    assert_eq!(Folder::make("/a/b", false, &mut store), Err(Error::NotFound));
    assert_eq!(store.folder_count(), 0);
}

#[test]
fn delete_undoes_make() {
    let mut store = shelf();
    Note::make("/a/n", false, &mut store).unwrap();
    let before = Folder::list("/a", &store).unwrap();
    let folders = store.folders().clone();
    let notes = store.notes().clone();
    Folder::make("/a/new", false, &mut store).unwrap();
    assert_ne!(Folder::list("/a", &store).unwrap(), before);
    assert_eq!(Folder::delete("/a/new", false, &mut store), Ok(1));
    assert_eq!(Folder::list("/a", &store).unwrap(), before);
    assert_eq!(store.folders(), &folders);
    assert_eq!(store.notes(), &notes);
}
