use notebook::commands::{Command, Reply};
use notebook::error::Error;
use notebook::folder::Folder;
use notebook::note::Note;
use notebook::store::Store;

fn make(path: &str, parents: bool) -> Command {
    Command::Make {
        parents,
        path: path.to_string(),
    }
}

fn list(path: &str, recursive: bool) -> Command {
    Command::List {
        indent: String::new(),
        recursive,
        path: path.to_string(),
    }
}

fn library() -> Store {
    let mut store = Store::new();
    make("/a/", false).execute(&mut store).unwrap();
    make("/a/n1", false).execute(&mut store).unwrap();
    make("/a/b/", false).execute(&mut store).unwrap();
    make("/a/b/n2", false).execute(&mut store).unwrap();
    make("/c/", false).execute(&mut store).unwrap();
    store
}

#[test]
fn make_tells_folders_from_notes() {
    let mut store = Store::new();
    assert_eq!(
        make("/a/", false).execute(&mut store),
        Ok(Reply::Output("/a/ successfully created".to_string()))
    );
    assert_eq!(store.folder_count(), 1);
    assert_eq!(
        make("/a/n", false).execute(&mut store),
        Ok(Reply::Output("/a/n successfully created".to_string()))
    );
    assert_eq!(store.folder_count(), 1);
    assert_eq!(store.note_count(), 1);
    assert_eq!(make("/x/y/", false).execute(&mut store), Err(Error::NotFound));
    assert_eq!(
        make("/x/y", false).execute(&mut store),
        Err(Error::BookLessNote)
    );
    assert_eq!(
        make("/x/y/", true).execute(&mut store),
        Ok(Reply::Output("/x/y/ successfully created".to_string()))
    );
    assert_eq!(store.folder_count(), 3);
}

#[test]
fn list_draws_one_level() {
    let mut store = library();
    assert_eq!(
        list("/", false).execute(&mut store),
        Ok(Reply::Output("├─a/\n└─c/\n".to_string()))
    );
    assert_eq!(
        list("/a", false).execute(&mut store),
        Ok(Reply::Output("├─n1\n└─b/\n".to_string()))
    );
    assert_eq!(
        list("/a/b", false).execute(&mut store),
        Ok(Reply::Output("└─n2\n".to_string()))
    );
    assert_eq!(
        list("/c", false).execute(&mut store),
        Ok(Reply::Output(String::new()))
    );
    assert_eq!(list("/nowhere", false).execute(&mut store), Err(Error::NotFound));
}

#[test]
fn list_draws_the_tree() {
    let mut store = library();
    assert_eq!(
        list("/", true).execute(&mut store),
        Ok(Reply::Output(
            "├─a/\n│ ├─n1\n│ └─b/\n│   └─n2\n└─c/\n".to_string()
        ))
    );
    make("/a/b/d/", false).execute(&mut store).unwrap();
    make("/a/e/", false).execute(&mut store).unwrap();
    make("/a/e/n3", false).execute(&mut store).unwrap();
    let indented = Command::List {
        indent: "> ".to_string(),
        recursive: true,
        path: "a".to_string(),
    };
    assert_eq!(
        indented.execute(&mut store),
        Ok(Reply::Output(
            "> ├─n1\n> ├─b/\n> │ ├─n2\n> │ └─d/\n> └─e/\n>   └─n3\n".to_string()
        ))
    );
}

#[test]
fn remove_reports_the_rows() {
    let mut store = library();
    let remove = |path: &str, recursive: bool| Command::Remove {
        recursive,
        path: path.to_string(),
    };
    assert_eq!(
        remove("/a/", false).execute(&mut store),
        Err(Error::NonEmptyBook)
    );
    assert_eq!(
        remove("/a/n1", false).execute(&mut store),
        Ok(Reply::Output(
            "/a/n1 successfully delete\n1 rows delete".to_string()
        ))
    );
    assert_eq!(
        remove("/a/", true).execute(&mut store),
        Ok(Reply::Output(
            "/a/ successfully delete\n3 rows delete".to_string()
        ))
    );
    assert_eq!(remove("/a/", true).execute(&mut store), Err(Error::NotFound));
    assert_eq!(remove("/a/n1", true).execute(&mut store), Err(Error::NotFound));
    assert_eq!(
        remove("/", true).execute(&mut store),
        Err(Error::NamelessFolder)
    );
    assert_eq!(store.folder_count(), 1);
    assert_eq!(store.note_count(), 0);
}

#[test]
fn cat_hands_out_the_body() {
    let mut store = library();
    Note::update("/a/n1", "text".to_string(), &mut store).unwrap();
    let cat = Command::Cat {
        note: "/a/n1".to_string(),
        out_file: Some("out.txt".to_string()),
    };
    assert_eq!(
        cat.execute(&mut store),
        Ok(Reply::Write {
            body: "text".to_string(),
            out_file: Some("out.txt".to_string())
        })
    );
    let cat = Command::Cat {
        note: "/a/none".to_string(),
        out_file: None,
    };
    assert_eq!(cat.execute(&mut store), Err(Error::NotFound));
}

#[test]
fn update_asks_for_the_text_first() {
    let mut store = library();
    let update = Command::Update {
        note: "/a/n1".to_string(),
        in_file: None,
    };
    assert_eq!(
        update.execute(&mut store),
        Ok(Reply::Read {
            note: "/a/n1".to_string(),
            in_file: None
        })
    );
    assert_eq!(Note::cat("/a/n1", &store), Ok(String::new()));
    assert_eq!(
        Command::update_with("/a/n1", "fresh".to_string(), &mut store),
        Ok("/a/n1 successfully created\n 1 rows effected".to_string())
    );
    assert_eq!(Note::cat("/a/n1", &store), Ok("fresh".to_string()));
    assert_eq!(
        Command::update_with("/a/none", "fresh".to_string(), &mut store),
        Err(Error::NotFound)
    );
}

#[test]
fn edit_hands_out_body_and_name() {
    let mut store = library();
    Note::update("/a/b/n2", "draft".to_string(), &mut store).unwrap();
    let edit = Command::Edit {
        note: "/a/b/n2".to_string(),
    };
    assert_eq!(
        edit.execute(&mut store),
        Ok(Reply::Edit {
            note: "/a/b/n2".to_string(),
            body: "draft".to_string(),
            file_name: "n2".to_string()
        })
    );
    let edit = Command::Edit {
        note: "/a/b/zz".to_string(),
    };
    assert_eq!(edit.execute(&mut store), Err(Error::NotFound));
}

#[test]
fn move_and_copy_report_the_rows() {
    let mut store = library();
    let copy = Command::Copy {
        parents: false,
        overwrite: false,
        src: "/a/n1".to_string(),
        dest_book: "/c".to_string(),
    };
    assert_eq!(
        copy.execute(&mut store),
        Ok(Reply::Output("copy successful\n 1 rows effected".to_string()))
    );
    assert_eq!(copy.execute(&mut store), Err(Error::OverwriteNotAllowed));
    let shift = Command::Move {
        parents: false,
        overwrite: true,
        src: "/a/n1".to_string(),
        dest_book: "/c".to_string(),
    };
    assert_eq!(
        shift.execute(&mut store),
        Ok(Reply::Output("move successful\n 2 rows effected".to_string()))
    );
    let shift = Command::Move {
        parents: true,
        overwrite: false,
        src: "/c/n1".to_string(),
        dest_book: "/p/q".to_string(),
    };
    assert_eq!(
        shift.execute(&mut store),
        Ok(Reply::Output("move successful\n 1 rows effected".to_string()))
    );
    assert_eq!(Note::cat("/p/q/n1", &store), Ok(String::new()));
}

#[test]
fn commands_with_given_identifiers() {
    let mut store = Store::new();
    let ids = vec!["i1".to_string(), "i2".to_string()];
    assert_eq!(
        make("/x/y/", true).execute_with_ids(&ids, &mut store),
        Ok(Reply::Output("/x/y/ successfully created".to_string()))
    );
    let y = Folder::make("/x/y", false, &mut store).unwrap();
    assert_eq!(y.id(), "i2");
    assert_eq!(y.parent_id(), "i1");
    assert_eq!(
        make("/z/", false).execute_with_ids(&ids, &mut store),
        Err(Error::NotFound)
    );
    assert_eq!(store.folder_count(), 2);
}
