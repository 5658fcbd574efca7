use notebook::folder::Folder;
use notebook::note::Note;
use notebook::store::Store;

fn folder(id: &str, title: &str, parent_id: &str) -> Folder {
    Folder::from_parts(id.to_string(), title.to_string(), parent_id.to_string())
}

fn note(id: &str, parent_id: &str, title: &str, body: &str) -> Note {
    Note::from_parts(
        id.to_string(),
        parent_id.to_string(),
        title.to_string(),
        body.to_string(),
    )
}

#[test]
fn a_new_store_is_empty() {
    let store = Store::new();
    assert_eq!(store.folder_count(), 0);
    assert_eq!(store.note_count(), 0);
    assert!(store.folders().is_empty());
    assert!(store.notes().is_empty());
    assert_eq!(Folder::list("/", &store), Ok((vec![], vec![])));
}

#[test]
fn load_takes_sound_tables() {
    let folders = vec![
        folder("1", "a", ""),
        folder("2", "b", "1"),
        folder("3", "a", "1"),
    ];
    let notes = vec![note("1", "2", "n", "text"), note("2", "1", "n", "")];
    let store = Store::load(folders.clone(), notes.clone()).unwrap();
    assert_eq!(store.folders(), &folders);
    assert_eq!(store.notes(), &notes);
    assert_eq!(Note::cat("/a/b/n", &store), Ok("text".to_string()));
    assert_eq!(Folder::list("/a/a", &store), Ok((vec![], vec![])));
}

#[test]
fn load_refuses_unsound_tables() {
    assert!(Store::load(vec![folder("", "a", "")], vec![]).is_none());
    assert!(Store::load(vec![folder("1", "", "")], vec![]).is_none());
    assert!(Store::load(vec![folder("1", "a", ""), folder("1", "b", "")], vec![]).is_none());
    assert!(Store::load(vec![folder("1", "a", ""), folder("2", "a", "")], vec![]).is_none());
    assert!(Store::load(vec![folder("2", "b", "1"), folder("1", "a", "")], vec![]).is_none());
    assert!(Store::load(vec![folder("1", "a", "1")], vec![]).is_none());
    assert!(Store::load(vec![folder("1", "a", "9")], vec![]).is_none());
    let one = vec![folder("1", "a", "")];
    assert!(Store::load(one.clone(), vec![note("", "1", "n", "")]).is_none());
    assert!(Store::load(one.clone(), vec![note("1", "1", "", "")]).is_none());
    assert!(Store::load(one.clone(), vec![note("1", "", "n", "")]).is_none());
    assert!(Store::load(one.clone(), vec![note("1", "9", "n", "")]).is_none());
    assert!(Store::load(
        one.clone(),
        vec![note("1", "1", "n", ""), note("1", "1", "m", "")]
    )
    .is_none());
    assert!(Store::load(
        one.clone(),
        vec![note("1", "1", "n", ""), note("2", "1", "n", "")]
    )
    .is_none());
    assert!(Store::load(one, vec![note("1", "1", "n", ""), note("2", "1", "m", "")]).is_some());
}

#[test]
fn a_loaded_store_takes_new_rows() {
    let mut store = Store::load(vec![folder("1", "a", "")], vec![note("1", "1", "n", "x")]).unwrap();
    let made = Folder::make("/a/b", false, &mut store).unwrap();
    assert_eq!(made.parent_id(), "1");
    assert_eq!(Note::move_note("/a/n", "/a/b", false, false, &mut store), Ok(1));
    assert_eq!(Note::cat("/a/b/n", &store), Ok("x".to_string()));
    assert_eq!(Folder::delete("/a", true, &mut store), Ok(3));
    assert_eq!(store.folder_count(), 0);
    assert_eq!(store.note_count(), 0);
}

#[test]
fn made_rows_are_listed() {
    let mut store = Store::new();
    let a = Folder::make("/a", false, &mut store).unwrap();
    let (folders, _) = Folder::list("/", &store).unwrap();
    assert!(folders.contains(&a));
    let deep = Folder::make("/a/b/c", true, &mut store).unwrap();
    let (folders, _) = Folder::list("/a/b", &store).unwrap();
    assert_eq!(folders, vec![deep]);
    let n = Note::make("/a/b/n", false, &mut store).unwrap();
    let (_, notes) = Folder::list("/a/b", &store).unwrap();
    assert_eq!(notes, vec![n]);
}

#[test]
fn find_follows_segments() {
    let mut store = Store::new();
    let b = Folder::make("/a/b", true, &mut store).unwrap();
    let path = |segs: &[&str]| segs.iter().map(|s| s.to_string()).collect::<Vec<String>>();
    assert_eq!(Folder::find(&path(&[]), &store), Ok(None));
    assert_eq!(Folder::find(&path(&["a", "b"]), &store), Ok(Some(b.clone())));
    assert_eq!(
        Folder::find(&path(&["a", "c"]), &store),
        Err(notebook::error::Error::NotFound)
    );
    assert_eq!(
        Folder::find(&path(&["b"]), &store),
        Err(notebook::error::Error::NotFound)
    );
    assert_eq!(Folder::get_id(&None), "");
    assert_eq!(&Folder::get_id(&Some(b.clone())), b.id());
}

#[test]
fn children_are_listed_by_identifier() {
    let mut store = Store::new();
    let a = Folder::make("/a", false, &mut store).unwrap();
    let b = Folder::make("/a/b", false, &mut store).unwrap();
    let n = Note::make("/a/n", false, &mut store).unwrap();
    let m = Note::make("/a/b/m", false, &mut store).unwrap();
    assert_eq!(
        Folder::list_optional_folder(&None, &store),
        (vec![a.clone()], vec![])
    );
    assert_eq!(
        Folder::list_optional_folder(&Some(a.clone()), &store),
        (vec![b.clone()], vec![n.clone()])
    );
    assert_eq!(Note::list_parent_id(a.id(), &store), vec![n.clone()]);
    assert_eq!(Note::list_parent_id(b.id(), &store), vec![m.clone()]);
    assert_eq!(Note::list_parent_id(&"nobody".to_string(), &store), vec![]);
    assert_eq!(store.find_folder(a.id(), &"b".to_string()), Some(b.clone()));
    assert_eq!(store.find_folder(a.id(), &"n".to_string()), None);
    assert_eq!(store.find_note(a.id(), &"n".to_string()), Some(n.clone()));
    assert_eq!(store.folder_position(b.id()), Some(1));
    assert_eq!(store.note_position(m.id()), Some(1));
    assert_eq!(store.note_position(&"nobody".to_string()), None);
}

#[test]
fn rows_are_deleted_by_their_own_methods() {
    let mut store = Store::new();
    let a = Folder::make("/a", false, &mut store).unwrap();
    let b = Folder::make("/a/b", false, &mut store).unwrap();
    let n = Note::make("/a/n", false, &mut store).unwrap();
    Note::make("/a/b/m", false, &mut store).unwrap();
    assert_eq!(
        a.delete_folder(false, &mut store),
        Err(notebook::error::Error::NonEmptyBook)
    );
    assert_eq!(n.delete_note(&mut store), 1);
    assert_eq!(n.delete_note(&mut store), 0);
    assert_eq!(b.delete_folder(true, &mut store), Ok(2));
    assert_eq!(b.delete_folder(true, &mut store), Ok(0));
    assert_eq!(a.delete_folder(false, &mut store), Ok(1));
    assert_eq!(store.folder_count(), 0);
    assert_eq!(store.note_count(), 0);
    assert_eq!(store.remove_note(a.id(), &"n".to_string()), 0);
}

#[test]
fn a_note_copies_itself() {
    let mut store = Store::new();
    Folder::make("/a", false, &mut store).unwrap();
    Folder::make("/b", false, &mut store).unwrap();
    Note::make("/a/n", false, &mut store).unwrap();
    Note::update("/a/n", "body".to_string(), &mut store).unwrap();
    let note = Note::query("/a/n", &store).unwrap();
    let ids = vec!["copy".to_string()];
    assert_eq!(note.copy_self("/b", false, false, &ids, &mut store), Ok(1));
    let copy = Note::query("/b/n", &store).unwrap();
    assert_eq!(copy.id(), "copy");
    assert_eq!(copy.body(), "body");
}

#[test]
fn the_tree_is_drawn_from_any_folder() {
    let mut store = Store::new();
    let a = Folder::make("/a", false, &mut store).unwrap();
    Folder::make("/a/b", false, &mut store).unwrap();
    Note::make("/a/b/n", false, &mut store).unwrap();
    assert_eq!(
        notebook::listing::render_tree(&String::new(), "", true, &store),
        "└─a/\n  └─b/\n    └─n\n"
    );
    assert_eq!(
        notebook::listing::render_tree(a.id(), "..", false, &store),
        "..└─b/\n"
    );
    assert_eq!(
        notebook::listing::render_tree(&"nobody".to_string(), "", true, &store),
        ""
    );
}

#[test]
fn fresh_identifiers_are_full_length() {
    let ids = notebook::ids::fresh_ids(3);
    assert_eq!(ids.len(), 3);
    for id in &ids {
        assert_eq!(id.chars().count(), notebook::ids::ID_LENGTH);
    }
    assert_ne!(ids[0], ids[1]);
    assert!(notebook::ids::fresh_ids(0).is_empty());
}
