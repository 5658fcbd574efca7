use notebook::error::Error;
use notebook::folder::Folder;
use notebook::note::Note;
use notebook::store::Store;

fn assert_folder_count(folder: &str, count: usize, msg: &str, store: &Store) {
    let lists = Folder::list(folder, store);
    assert!(
        lists.is_ok(),
        "{}: {}, hoped for ok of {:#?}",
        msg,
        folder,
        lists
    );
    assert_eq!(
        lists.unwrap().0.len(),
        count,
        "{}: {}, count mismatch",
        msg,
        folder
    );
}

fn assert_folder_not_exists(folder: &str, msg: &str, store: &Store) {
    assert_eq!(
        Folder::list(folder, store).map_err(|e| e.message()),
        Err("NotFound".into()),
        "{}: {}",
        msg,
        folder
    );
}

#[test]
fn integration_test() {
    let mut store = Store::load(vec![], vec![]).expect("connection or migration failed!");

    {
        let msg = "Initial state check";
        let folder = "";
        assert_folder_count(folder, 0, msg, &store);
    }

    {
        let msg = "list not existing folder";
        let folder = "not_existing";
        assert_folder_not_exists(folder, msg, &store);
    }

    {
        let msg = "Add folder";
        let folder = "test_folder";
        assert_folder_not_exists(folder, msg, &store);
        let execute = Folder::make(folder, false, &mut store);
        assert!(
            execute.is_ok(),
            "{}: {}, hoped for ok of {:#?}",
            msg,
            folder,
            execute
        );
        let new_folder = execute.unwrap();
        assert_eq!(new_folder.title, folder, "{}: {}", msg, folder);
        assert_folder_count("", 1, msg, &store);
        assert_folder_count("/", 1, msg, &store);
    }

    {
        let msg = "Add nested folder without existing parent and create_parents";
        let folder = "test_folder/test_folder/test_folder";
        let parent_folder = "test_folder/test_folder";
        assert_folder_not_exists(folder, msg, &store);
        assert_folder_not_exists(parent_folder, msg, &store);
        let execute = Folder::make(folder, false, &mut store);
        assert_eq!(
            Folder::make(folder, false, &mut store).map_err(|e| e.message()),
            Err("NotFound".into()),
            "{}: {}, hoped for ok of {:#?}",
            msg,
            folder,
            execute
        );
        assert_folder_not_exists(folder, msg, &store);
        assert_folder_not_exists(parent_folder, msg, &store);
    }
    {
        let msg = "Add nested folder without existing parent but with create_parents";
        let folder = "test_folder/test_folder/grand_child_test_folder";
        let folder_name = "grand_child_test_folder";
        let parent_folder = "test_folder/test_folder";
        assert_folder_not_exists(folder, msg, &store);
        assert_folder_not_exists(parent_folder, msg, &store);

        let execute = Folder::make(folder, true, &mut store);
        assert!(
            execute.is_ok(),
            "{}: {}, hoped for ok of {:#?}",
            msg,
            folder,
            execute
        );
        let new_folder = execute.unwrap();
        assert_eq!(new_folder.title, folder_name, "{}: {}", msg, folder);
        assert_folder_count(parent_folder, 1, msg, &store);
    }

    {
        let msg = "Delete nested folder with children but without recursive";
        let parent_folder = "test_folder/test_folder";
        assert_folder_count(parent_folder, 1, msg, &store);
        assert_eq!(
            Folder::delete(parent_folder, false, &mut store).map_err(|e| e.message()),
            Err("NonEmptyBook".into()),
            "{}: {}",
            msg,
            parent_folder,
        );
        assert_folder_count(parent_folder, 1, msg, &store);
    }
    {
        let msg = "Delete nested folder with children but with recursive";
        let parent_folder = "test_folder/test_folder";
        assert_folder_count(parent_folder, 1, msg, &store);
        let execute = Folder::delete(parent_folder, true, &mut store);
        assert!(
            execute.is_ok(),
            "{}: {}, excepted ok of {:#?}",
            msg,
            parent_folder,
            execute
        );
        assert_eq!(execute.unwrap(), 2, "{}: {}", msg, parent_folder);
        assert_folder_not_exists(parent_folder, msg, &store);
    }

    {
        let msg = "Delete empty folder with children without recursive";
        let parent_folder = "test_folder";
        assert_folder_count(parent_folder, 0, msg, &store);
        let execute = Folder::delete(parent_folder, false, &mut store);
        assert!(
            execute.is_ok(),
            "{}: {}, excepted ok of {:#?}",
            msg,
            parent_folder,
            execute
        );
        assert_eq!(execute.unwrap(), 1, "{}: {}", msg, parent_folder);
        assert_folder_not_exists(parent_folder, msg, &store);
    }
}

#[test]
fn make_then_list_scenario() {
    let mut store = Store::new();
    let made = Folder::make("/test_folder", false, &mut store).unwrap();
    assert_eq!(made.title, "test_folder");
    let (folders, notes) = Folder::list("/", &store).unwrap();
    assert_eq!(folders.len(), 1);
    assert_eq!(folders[0].title, "test_folder");
    assert!(notes.is_empty());

    let before = Folder::list("/test_folder", &store).unwrap();
    assert_eq!(
        Folder::make("/test_folder/a/b", false, &mut store),
        Err(Error::NotFound)
    );
    assert_eq!(Folder::list("/test_folder", &store).unwrap(), before);
    assert_eq!(store.folder_count(), 1);
    assert_eq!(store.note_count(), 0);

    let made = Folder::make("/test_folder/a/b", true, &mut store).unwrap();
    assert_eq!(made.title, "b");
    let (folders, _) = Folder::list("/test_folder", &store).unwrap();
    assert_eq!(folders.len(), 1);
    assert_eq!(folders[0].title, "a");
    let (folders, _) = Folder::list("/test_folder/a", &store).unwrap();
    assert_eq!(folders.len(), 1);
    assert_eq!(folders[0].title, "b");
    assert_eq!(folders[0], made);
}

#[test]
fn delete_folder_with_note_scenario() {
    let mut store = Store::new();
    Folder::make("/x/y", true, &mut store).unwrap();
    Note::make("/x/y/n", false, &mut store).unwrap();
    assert_eq!(
        Folder::delete("/x/y", false, &mut store),
        Err(Error::NonEmptyBook)
    );
    assert_eq!(store.folder_count(), 2);
    assert_eq!(store.note_count(), 1);
    assert_eq!(Folder::delete("/x/y", true, &mut store), Ok(2));
    let (folders, notes) = Folder::list("/x", &store).unwrap();
    assert!(folders.is_empty());
    assert!(notes.is_empty());
    assert_eq!(store.note_count(), 0);
}
