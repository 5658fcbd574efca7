use notebook::commands::{Command, SingleCommand};
use notebook::folder::Folder;
use notebook::note::Note;
use notebook::store::Store;
use notebook::views::{
    ActiveElement, Context, FolderView, Interpreter, Item, ItemColor, Key, PopUpView, Return,
    TuiCommand,
};

fn library() -> Store {
    let mut store = Store::new();
    Folder::make("/a", false, &mut store).unwrap();
    Folder::make("/b", false, &mut store).unwrap();
    Note::make("/a/n", false, &mut store).unwrap();
    Folder::make("/a/sub", false, &mut store).unwrap();
    store
}

fn typed(line: &mut Interpreter, text: &str) {
    for c in text.chars() {
        let context = Context {
            path: String::new(),
            note: None,
        };
        assert!(matches!(
            line.handle_events(Key::Char(c), context),
            Return::Pass
        ));
    }
}

fn words(answer: Return) -> Vec<String> {
    match answer {
        Return::Parse(words) => words,
        other => panic!("no words: {:?}", other),
    }
}

#[test]
fn item_names_and_colors() {
    assert_eq!(Item::Note("n".to_string()).get_name(), "n");
    assert_eq!(Item::Folder("f".to_string()).get_name(), "f/");
    assert_eq!(Item::Folder(String::new()).get_name(), "/");
    assert_eq!(Item::Note("n".to_string()).get_color(), ItemColor::Blue);
    assert_eq!(Item::Folder("f".to_string()).get_color(), ItemColor::Green);
}

#[test]
fn popup_keeps_messages_in_order() {
    let mut popup = PopUpView::default();
    assert!(popup.msgs.is_empty());
    popup.push(Ok("done".to_string()));
    popup.push(Err("NotFound".to_string()));
    assert_eq!(
        popup.msgs,
        vec![Ok("done".to_string()), Err("NotFound".to_string())]
    );
}

#[test]
fn the_folder_pane_is_active_first() {
    assert_eq!(ActiveElement::default(), ActiveElement::FolderView);
}

#[test]
fn folder_view_lists_folders_before_notes() {
    let store = library();
    let mut view = FolderView::default();
    assert_eq!(view.path(), "");
    assert_eq!(view.selected(), None);
    assert_eq!(
        view.list(&store),
        Ok(vec![
            Item::Folder("a".to_string()),
            Item::Folder("b".to_string())
        ])
    );
    view.settle(2);
    assert_eq!(view.selected(), Some(0));
    assert_eq!(
        view.get_selected_item(&store),
        Some(Item::Folder("a".to_string()))
    );
    assert!(matches!(
        view.handle_events(Key::Enter, &store),
        Return::Pass
    ));
    assert_eq!(view.path(), "a");
    assert_eq!(view.selected(), None);
    assert_eq!(
        view.list(&store),
        Ok(vec![
            Item::Folder("sub".to_string()),
            Item::Note("n".to_string())
        ])
    );
}

#[test]
fn folder_view_moves_the_selection() {
    let store = library();
    let mut view = FolderView::default();
    assert!(matches!(view.handle_events(Key::Down, &store), Return::Pass));
    assert_eq!(view.selected(), None);
    view.settle(2);
    assert!(matches!(view.handle_events(Key::Up, &store), Return::Pass));
    assert_eq!(view.selected(), Some(0));
    assert!(matches!(
        view.handle_events(Key::Char('j'), &store),
        Return::Pass
    ));
    assert_eq!(view.selected(), Some(1));
    assert!(matches!(view.handle_events(Key::Down, &store), Return::Pass));
    assert_eq!(view.selected(), Some(2));
    assert_eq!(view.get_selected_item(&store), None);
    view.settle(2);
    assert_eq!(view.selected(), Some(1));
    assert!(matches!(
        view.handle_events(Key::Char('k'), &store),
        Return::Pass
    ));
    assert_eq!(view.selected(), Some(0));
    view.settle(0);
    assert_eq!(view.selected(), None);
}

#[test]
fn folder_view_opens_notes_for_editing() {
    let store = library();
    let mut view = FolderView::default();
    view.settle(2);
    view.handle_events(Key::Right, &store);
    view.settle(2);
    view.handle_events(Key::Down, &store);
    let context = view.get_context(&store);
    assert_eq!(context.path, "a");
    assert_eq!(context.note, Some(Item::Note("n".to_string())));
    match view.handle_events(Key::Char('l'), &store) {
        Return::Command(TuiCommand::Command(Command::Edit { note })) => {
            assert_eq!(note, "a/n")
        }
        other => panic!("no edit: {:?}", other),
    }
    assert_eq!(view.path(), "a");
    assert_eq!(view.selected(), Some(1));
    view.handle_events(Key::Up, &store);
    view.handle_events(Key::Enter, &store);
    assert_eq!(view.path(), "a/sub");
    assert!(matches!(
        view.handle_events(Key::Backspace, &store),
        Return::Pass
    ));
    assert_eq!(view.path(), "a");
    view.handle_events(Key::Char('h'), &store);
    assert_eq!(view.path(), "");
    view.handle_events(Key::Left, &store);
    assert_eq!(view.path(), "");
}

#[test]
fn folder_view_hands_over_and_quits() {
    let store = library();
    let mut view = FolderView::default();
    assert!(matches!(
        view.handle_events(Key::Char('q'), &store),
        Return::Command(TuiCommand::Quit)
    ));
    assert!(matches!(
        view.handle_events(Key::Char(':'), &store),
        Return::State(ActiveElement::Interpreter)
    ));
    assert!(matches!(
        view.handle_events(Key::Tab, &store),
        Return::State(ActiveElement::Interpreter)
    ));
    assert!(matches!(view.handle_events(Key::Esc, &store), Return::Pass));
    assert!(matches!(
        view.handle_events(Key::Other, &store),
        Return::Pass
    ));
    assert!(matches!(
        view.handle_events(Key::Char('x'), &store),
        Return::Pass
    ));
}

#[test]
fn folder_view_of_a_missing_folder() {
    let mut store = library();
    let mut view = FolderView::default();
    view.settle(2);
    view.handle_events(Key::Down, &store);
    view.handle_events(Key::Enter, &store);
    assert_eq!(view.path(), "b");
    Folder::delete("/b", false, &mut store).unwrap();
    assert_eq!(view.list(&store), Err(notebook::error::Error::NotFound));
    assert_eq!(view.get_selected_item(&store), None);
}

#[test]
fn interpreter_edits_the_line() {
    let mut line = Interpreter::default();
    assert_eq!(line.input(), "");
    typed(&mut line, "lsé");
    assert_eq!(line.input(), "lsé");
    let context = Context {
        path: String::new(),
        note: None,
    };
    assert!(matches!(
        line.handle_events(Key::Backspace, context),
        Return::Pass
    ));
    assert_eq!(line.input(), "ls");
    for _ in 0..3 {
        let context = Context {
            path: String::new(),
            note: None,
        };
        line.handle_events(Key::Backspace, context);
    }
    assert_eq!(line.input(), "");
    typed(&mut line, "x");
    for key in [Key::Esc, Key::Tab] {
        let context = Context {
            path: String::new(),
            note: None,
        };
        assert!(matches!(
            line.handle_events(key, context),
            Return::State(ActiveElement::FolderView)
        ));
    }
    let context = Context {
        path: String::new(),
        note: None,
    };
    assert!(matches!(line.handle_events(Key::Up, context), Return::Pass));
    assert_eq!(line.input(), "x");
}

#[test]
fn interpreter_fills_in_the_paths() {
    let mut line = Interpreter::default();
    typed(&mut line, "mv {{child}} {{P}}/old {{unknown}}");
    let context = Context {
        path: "a/b".to_string(),
        note: Some(Item::Note("n".to_string())),
    };
    assert_eq!(
        words(line.handle_events(Key::Enter, context)),
        vec!["mv", "a/b/n", "a/b/old", "{{unknown}}"]
    );
    assert_eq!(line.input(), "");

    typed(&mut line, "ls {{C}} {{parent}}");
    let context = Context {
        path: "a".to_string(),
        note: Some(Item::Folder("f".to_string())),
    };
    assert_eq!(
        words(line.handle_events(Key::Enter, context)),
        vec!["ls", "a/f/", "a"]
    );

    typed(&mut line, "ls {{child}}");
    let context = Context {
        path: "a".to_string(),
        note: None,
    };
    assert_eq!(
        words(line.handle_events(Key::Enter, context)),
        vec!["ls", "a//"]
    );
}

#[test]
fn interpreter_splits_like_a_shell() {
    let mut line = Interpreter::default();
    typed(&mut line, "mk 'two words' \"a b\"/c  d\\ e");
    let context = Context {
        path: String::new(),
        note: None,
    };
    assert_eq!(
        words(line.handle_events(Key::Enter, context)),
        vec!["mk", "two words", "a b/c", "d e"]
    );
    let context = Context {
        path: String::new(),
        note: None,
    };
    assert_eq!(
        words(line.handle_events(Key::Enter, context)),
        Vec::<String>::new()
    );
}

#[test]
fn interpreter_reports_open_quotes() {
    let mut line = Interpreter::default();
    typed(&mut line, "mk \"open");
    let context = Context {
        path: String::new(),
        note: None,
    };
    match line.handle_events(Key::Enter, context) {
        Return::Error(text) => assert_eq!(text, "Mismatched quotes"),
        other => panic!("no error: {:?}", other),
    }
    assert_eq!(line.input(), "");
}

#[test]
fn parsed_words_become_answers() {
    assert!(matches!(
        Return::from_parsed(Ok(TuiCommand::Quit)),
        Return::Command(TuiCommand::Quit)
    ));
    match Return::from_parsed(Err("no such command".to_string())) {
        Return::Error(text) => assert_eq!(text, "no such command"),
        other => panic!("no error: {:?}", other),
    }
    match Interpreter::words_reply(Ok(vec!["q".to_string()])) {
        Return::Parse(words) => assert_eq!(words, vec!["q"]),
        other => panic!("no words: {:?}", other),
    }
    assert!(matches!(
        SingleCommand::Single(Command::Edit {
            note: "a/n".to_string()
        }),
        SingleCommand::Single(Command::Edit { .. })
    ));
    assert!(matches!(SingleCommand::Tui, SingleCommand::Tui));
}
