//! What the panes of the terminal front end hold, and how they answer keys.

use vstd::prelude::*;
use crate::commands::{text_of, Command};
use crate::error::Error;
use crate::folder::{folder_rows, list_folder, Folder};
use crate::model::{FolderRow, NoteRow};
use crate::note::{note_rows, Note};
use crate::path::{join, joined, parent, parent_of, segments};
use crate::store::Store;
use crate::words::{
    fill_in, filled_in, push_char, quotes_message, quotes_text, shell_words, split_words,
};

verus! {

/// The pane that the keys go to.
#[derive(Debug, Clone, Copy, PartialEq, Eq, Structural)]
pub enum ActiveElement {
    FolderView,
    Interpreter,
}

impl Default for ActiveElement {
    fn default() -> (element: Self)
        ensures
            element == ActiveElement::FolderView,
    {
        ActiveElement::FolderView
    }
}

/// What can be typed into the command line of the front end.
#[derive(Debug)]
pub enum TuiCommand {
    Command(Command),
    Quit,
}

/// An entry of a listing: a note or a folder, by its title.
#[derive(Debug, PartialEq, Eq)]
pub enum Item {
    Note(String),
    Folder(String),
}

/// An entry of a listing as the contracts see it.
pub ghost enum ItemModel {
    Note(Seq<char>),
    Folder(Seq<char>),
}

/// The colours that entries are shown in.
#[derive(Debug, Clone, Copy, PartialEq, Eq, Structural)]
pub enum ItemColor {
    Blue,
    Green,
}

impl View for Item {
    type V = ItemModel;

    open spec fn view(&self) -> ItemModel {
        match *self {
            Item::Note(title) => ItemModel::Note(title@),
            Item::Folder(title) => ItemModel::Folder(title@),
        }
    }
}

impl ItemModel {
    /// The name an entry is shown under: a note's title, a folder's title
    /// followed by a separator.
    pub open spec fn name(self) -> Seq<char> {
        match self {
            ItemModel::Note(title) => title,
            ItemModel::Folder(title) => title + "/"@,
        }
    }
}

/// The model of an entry that may be absent.
pub open spec fn item_view(item: Option<Item>) -> Option<ItemModel> {
    match item {
        Some(item) => Some(item@),
        None => None,
    }
}

/// The models of a list of entries.
pub open spec fn item_models(items: Seq<Item>) -> Seq<ItemModel> {
    items.map_values(|item: Item| item@)
}

impl Item {
    /// The colour an entry is shown in: notes blue, folders green.
    pub fn get_color(&self) -> (color: ItemColor)
        ensures
            color == (if *self is Note {
                ItemColor::Blue
            } else {
                ItemColor::Green
            }),
    {
        match self {
            Item::Note(_) => ItemColor::Blue,
            Item::Folder(_) => ItemColor::Green,
        }
    }

    /// The name an entry is shown under.
    pub fn get_name(self) -> (name: String)
        ensures
            name@ == self@.name(),
    {
        match self {
            Item::Note(path) => path,
            Item::Folder(path) => {
                let mut path = path;
                path.append("/");
                path
            },
        }
    }
}

/// A key as far as the panes tell keys apart.
#[derive(Debug, Clone, Copy, PartialEq, Eq, Structural)]
pub enum Key {
    Char(char),
    Backspace,
    Enter,
    Left,
    Right,
    Up,
    Down,
    Tab,
    Esc,
    Other,
}

/// What a pane answers to a key.
#[derive(Debug)]
pub enum Return {
    /// Carry out this command.
    Command(TuiCommand),
    /// Hand the keys to this pane from now on.
    State(ActiveElement),
    /// Show this failure.
    Error(String),
    /// Nothing to do.
    Pass,
    /// Read these words as a command, and go on with [`Return::from_parsed`].
    Parse(Vec<String>),
}

impl Return {
    /// The answer once the words of a command line were read: the command
    /// they make, or the reason why they make none.
    pub fn from_parsed(parsed: Result<TuiCommand, String>) -> (answer: Return)
        ensures
            match parsed {
                Ok(command) => answer == Return::Command(command),
                Err(reason) => answer == Return::Error(reason),
            },
    {
        match parsed {
            Ok(command) => Return::Command(command),
            Err(reason) => Return::Error(reason),
        }
    }
}

/// The messages shown in the pop-up pane, the latest last.
pub struct PopUpView {
    pub msgs: Vec<Result<String, String>>,
}

impl Default for PopUpView {
    fn default() -> (view: Self)
        ensures
            view.msgs@ == Seq::<Result<String, String>>::empty(),
    {
        PopUpView { msgs: Vec::new() }
    }
}

impl PopUpView {
    /// Adds a message behind those that are there.
    pub fn push(&mut self, value: Result<String, String>)
        ensures
            final(self).msgs@ == old(self).msgs@.push(value),
    {
        self.msgs.push(value)
    }
}

/// Where the folder pane stands, for the command line to refer to.
pub struct Context {
    pub path: String,
    pub note: Option<Item>,
}

/// The entries of a listing: the folders, then the notes.
pub open spec fn entries(listed: (Seq<FolderRow>, Seq<NoteRow>)) -> Seq<ItemModel> {
    listed.0.map_values(|row: FolderRow| ItemModel::Folder(row.title)) + listed.1.map_values(
        |row: NoteRow| ItemModel::Note(row.title),
    )
}

/// The entry at the place `selected` of a listing, if there is one.
pub open spec fn chosen(
    listed: Result<(Seq<FolderRow>, Seq<NoteRow>), Error>,
    selected: Option<usize>,
) -> Option<ItemModel> {
    match (listed, selected) {
        (Ok(rows), Some(at)) => if at < entries(rows).len() {
            Some(entries(rows)[at as int])
        } else {
            None
        },
        _ => None,
    }
}

/// The folder pane as the contracts see it: the path of the folder shown,
/// and the place of the entry that is selected.
pub ghost struct Pane {
    pub path: Seq<char>,
    pub selected: Option<usize>,
}

impl Pane {
    /// The selection one entry up; the first entry stays selected.
    pub open spec fn up(self) -> Pane {
        match self.selected {
            Some(at) => if at != 0 {
                Pane { path: self.path, selected: Some((at - 1) as usize) }
            } else {
                self
            },
            None => self,
        }
    }

    /// The selection one entry down, as far as numbers go.
    pub open spec fn down(self) -> Pane {
        match self.selected {
            Some(at) => if at < usize::MAX {
                Pane { path: self.path, selected: Some((at + 1) as usize) }
            } else {
                self
            },
            None => self,
        }
    }

    /// The pane one folder up.
    pub open spec fn back(self) -> Pane {
        Pane { path: parent_of(self.path), selected: self.selected }
    }

    /// The pane after the entry `item` was entered: a folder is opened, with
    /// nothing selected; a note leaves the pane as it is.
    pub open spec fn enter(self, item: Option<ItemModel>) -> Pane {
        match item {
            Some(ItemModel::Folder(title)) => Pane { path: joined(self.path, title), selected: None },
            _ => self,
        }
    }

    /// The path of the note that entering `item` opens, if it is a note.
    pub open spec fn opened(self, item: Option<ItemModel>) -> Option<Seq<char>> {
        match item {
            Some(ItemModel::Note(title)) => Some(joined(self.path, title)),
            _ => None,
        }
    }

    /// The selection fitted to a listing of `count` entries: none in an empty
    /// listing, the last entry where it lay behind it, the first where there
    /// was none.
    pub open spec fn settle(self, count: usize) -> Pane {
        if count == 0 {
            Pane { path: self.path, selected: None }
        } else {
            match self.selected {
                Some(at) => if at >= count {
                    Pane { path: self.path, selected: Some((count - 1) as usize) }
                } else {
                    self
                },
                None => Pane { path: self.path, selected: Some(0) },
            }
        }
    }

    /// The pane after a key, where `item` is the entry selected.
    pub open spec fn after(self, key: Key, item: Option<ItemModel>) -> Pane {
        match key {
            Key::Char('q') => self,
            Key::Backspace | Key::Char('h') | Key::Left => self.back(),
            Key::Char('k') | Key::Up => self.up(),
            Key::Char('j') | Key::Down => self.down(),
            Key::Enter | Key::Char('l') | Key::Right => self.enter(item),
            _ => self,
        }
    }
}

/// The folder pane: the folder it shows and the entry selected in it.
pub struct FolderView {
    path: String,
    selected: Option<usize>,
}

impl View for FolderView {
    type V = Pane;

    closed spec fn view(&self) -> Pane {
        Pane { path: self.path@, selected: self.selected }
    }
}

impl Default for FolderView {
    fn default() -> (view: Self)
        ensures
            view@ == (Pane { path: Seq::empty(), selected: None }),
    {
        FolderView { path: String::new(), selected: None }
    }
}

impl FolderView {
    /// The path of the folder shown.
    pub fn path(&self) -> (path: &String)
        ensures
            path@ == self@.path,
    {
        &self.path
    }

    /// The place of the entry selected.
    pub fn selected(&self) -> (selected: Option<usize>)
        ensures
            selected == self@.selected,
    {
        self.selected
    }

    /// The entries of the folder shown: its folders, then its notes.
    pub fn list(&self, store: &Store) -> (items: Result<Vec<Item>, Error>)
        requires
            store.wf(),
        ensures
            match items {
                Ok(items) => list_folder(store@, segments(self@.path)) matches Ok(rows) && item_models(
                    items@,
                ) == entries(rows),
                Err(e) => list_folder(store@, segments(self@.path)) == Err::<
                    (Seq<FolderRow>, Seq<NoteRow>),
                    Error,
                >(e),
            },
    {
        match Folder::list(self.path.as_str(), store) {
            Ok(listed) => {
                let (folders, notes) = listed;
                let ghost rows = (folder_rows(folders@), note_rows(notes@));
                let mut items: Vec<Item> = Vec::new();
                let mut i: usize = 0;
                while i < folders.len()
                    invariant
                        i <= folders.len(),
                        rows.0 == folder_rows(folders@),
                        item_models(items@) == rows.0.take(i as int).map_values(
                            |row: FolderRow| ItemModel::Folder(row.title),
                        ),
                    decreases folders.len() - i,
                {
                    let ghost before = item_models(items@);
                    items.push(Item::Folder(folders[i].title().clone()));
                    proof {
                        assert(rows.0[i as int] == folders[i as int]@);
                        assert(item_models(items@) =~= before.push(
                            ItemModel::Folder(folders[i as int]@.title),
                        ));
                        assert(rows.0.take(i as int + 1).map_values(
                            |row: FolderRow| ItemModel::Folder(row.title),
                        ) =~= before.push(ItemModel::Folder(folders[i as int]@.title)));
                    }
                    i = i + 1;
                }
                let ghost first = item_models(items@);
                let mut k: usize = 0;
                proof {
                    assert(rows.0.take(i as int) == rows.0);
                    assert(first + rows.1.take(0).map_values(|row: NoteRow| ItemModel::Note(row.title))
                        =~= first);
                }
                while k < notes.len()
                    invariant
                        k <= notes.len(),
                        rows.1 == note_rows(notes@),
                        item_models(items@) == first + rows.1.take(k as int).map_values(
                            |row: NoteRow| ItemModel::Note(row.title),
                        ),
                    decreases notes.len() - k,
                {
                    let ghost before = item_models(items@);
                    items.push(Item::Note(notes[k].title().clone()));
                    proof {
                        assert(rows.1[k as int] == notes[k as int]@);
                        assert(item_models(items@) =~= before.push(
                            ItemModel::Note(notes[k as int]@.title),
                        ));
                        assert(first + rows.1.take(k as int + 1).map_values(
                            |row: NoteRow| ItemModel::Note(row.title),
                        ) =~= before.push(ItemModel::Note(notes[k as int]@.title)));
                    }
                    k = k + 1;
                }
                proof {
                    assert(rows.1.take(k as int) == rows.1);
                }
                Ok(items)
            },
            Err(e) => Err(e),
        }
    }

    /// The entry that is selected, if the selection points at one.
    pub fn get_selected_item(&self, store: &Store) -> (item: Option<Item>)
        requires
            store.wf(),
        ensures
            item_view(item) == chosen(list_folder(store@, segments(self@.path)), self@.selected),
    {
        match self.list(store) {
            Ok(items) => match self.selected {
                Some(at) => if at < items.len() {
                    let mut items = items;
                    let ghost models = item_models(items@);
                    let item = items.swap_remove(at);
                    proof {
                        assert(models[at as int] == item@);
                    }
                    Some(item)
                } else {
                    None
                },
                None => None,
            },
            Err(_) => None,
        }
    }

    /// Where the pane stands: its path and the entry selected.
    pub fn get_context(&self, store: &Store) -> (context: Context)
        requires
            store.wf(),
        ensures
            context.path@ == self@.path,
            item_view(context.note) == chosen(
                list_folder(store@, segments(self@.path)),
                self@.selected,
            ),
    {
        Context { path: self.path.clone(), note: self.get_selected_item(store) }
    }

    /// Moves the selection one entry up.
    fn up(&mut self)
        ensures
            final(self)@ == old(self)@.up(),
    {
        if let Some(selected) = self.selected {
            if selected != 0 {
                self.selected = Some(selected - 1);
            }
        }
    }

    /// Moves the selection one entry down.
    fn down(&mut self)
        ensures
            final(self)@ == old(self)@.down(),
    {
        if let Some(selected) = self.selected {
            if selected < usize::MAX {
                self.selected = Some(selected + 1);
            }
        }
    }

    /// Enters an entry: opens a folder, or returns the path of a note.
    fn enter(&mut self, selected_item: Option<Item>) -> (note: Option<String>)
        ensures
            final(self)@ == old(self)@.enter(item_view(selected_item)),
            text_of(note) == old(self)@.opened(item_view(selected_item)),
    {
        match selected_item {
            Some(Item::Note(title)) => {
                return Some(join(self.path.as_str(), title.as_str()));
            },
            Some(Item::Folder(title)) => {
                self.path = join(self.path.as_str(), title.as_str());
                self.selected = None;
            },
            None => {},
        }
        None
    }

    /// Goes one folder up.
    fn back(&mut self)
        ensures
            final(self)@ == old(self)@.back(),
    {
        self.path = parent(self.path.as_str());
    }

    /// Fits the selection to a listing of `count` entries, as is done
    /// whenever the pane is drawn.
    pub fn settle(&mut self, count: usize)
        ensures
            final(self)@ == old(self)@.settle(count),
    {
        if count == 0 {
            self.selected = None;
        } else {
            match self.selected {
                Some(selected) => {
                    if selected >= count {
                        self.selected = Some(count - 1);
                    }
                },
                None => {
                    self.selected = Some(0);
                },
            }
        }
    }

    /// Answers a key: `q` quits, the keys to the left go one folder up, the
    /// keys up and down move the selection, the keys to the right enter the
    /// selected entry, and `:` or the tabulator hand over to the command line.
    /// Entering a note asks for it to be edited.
    pub fn handle_events(&mut self, key: Key, store: &Store) -> (answer: Return)
        requires
            store.wf(),
        ensures
            final(self)@ == old(self)@.after(
                key,
                chosen(list_folder(store@, segments(old(self)@.path)), old(self)@.selected),
            ),
            match key {
                Key::Char('q') => answer matches Return::Command(TuiCommand::Quit),
                Key::Enter | Key::Char('l') | Key::Right => match old(self)@.opened(
                    chosen(list_folder(store@, segments(old(self)@.path)), old(self)@.selected),
                ) {
                    Some(path) => answer matches Return::Command(
                        TuiCommand::Command(Command::Edit { note }),
                    ) && note@ == path,
                    None => answer is Pass,
                },
                Key::Char(':') | Key::Tab => answer matches Return::State(ActiveElement::Interpreter),
                _ => answer is Pass,
            },
    {
        match key {
            Key::Char('q') => {
                return Return::Command(TuiCommand::Quit);
            },
            Key::Backspace | Key::Char('h') | Key::Left => self.back(),
            Key::Char('k') | Key::Up => self.up(),
            Key::Char('j') | Key::Down => self.down(),
            Key::Enter | Key::Char('l') | Key::Right => {
                let item = self.get_selected_item(store);
                if let Some(note) = self.enter(item) {
                    return Return::Command(TuiCommand::Command(Command::Edit { note }));
                }
            },
            Key::Char(':') | Key::Tab => {
                return Return::State(ActiveElement::Interpreter);
            },
            _ => {},
        }
        Return::Pass
    }
}

/// The names of the placeholders that a command line can hold.
pub open spec fn placeholder_names() -> Seq<Seq<char>> {
    seq!["parent"@, "P"@, "child"@, "C"@]
}

/// The path that stands for the child in a command line: the path of the
/// pane, a separator, and the name of the entry selected, or nothing more
/// than the separator twice where none is.
pub open spec fn child_path(path: Seq<char>, note: Option<ItemModel>) -> Seq<char> {
    match note {
        Some(item) => path + "/"@ + item.name(),
        None => path + "/"@ + ItemModel::Folder(Seq::empty()).name(),
    }
}

/// The values that take the place of the placeholders: the path of the
/// pane for the parent, the path of the selected entry for the child.
pub open spec fn placeholder_values(path: Seq<char>, note: Option<ItemModel>) -> Seq<Seq<char>> {
    seq![path, path, child_path(path, note), child_path(path, note)]
}

/// The answer to a command line that was filled in and split into words.
pub open spec fn words_answer(words: Option<Seq<Seq<char>>>, answer: Return) -> bool {
    match words {
        Some(words) => answer matches Return::Parse(list) && list.deep_view() == words,
        None => answer matches Return::Error(text) && text@ == quotes_text(),
    }
}

/// The command line of the front end: what was typed so far.
pub struct Interpreter {
    input: String,
}

impl View for Interpreter {
    type V = Seq<char>;

    closed spec fn view(&self) -> Seq<char> {
        self.input@
    }
}

impl Default for Interpreter {
    fn default() -> (line: Self)
        ensures
            line@ == Seq::<char>::empty(),
    {
        Interpreter { input: String::new() }
    }
}

impl Interpreter {
    /// What was typed so far.
    pub fn input(&self) -> (input: &String)
        ensures
            input@ == self@,
    {
        &self.input
    }

    /// The answer to a line that was split into words: the words are to be
    /// read as a command, and a quote left open is reported.
    pub fn words_reply(split: Result<Vec<String>, shellwords::MismatchedQuotes>) -> (answer: Return)
        ensures
            match split {
                Ok(words) => answer == Return::Parse(words),
                Err(_) => answer matches Return::Error(text) && text@ == quotes_text(),
            },
    {
        match split {
            Ok(words) => Return::Parse(words),
            Err(error) => Return::Error(quotes_message(&error)),
        }
    }

    /// Answers a key. A character is added to the line and the backspace
    /// takes the last one away; escape and the tabulator hand over to the
    /// folder pane. Enter takes the line as a template, fills in the paths
    /// that `context` gives for the parent and the child, splits the result
    /// into words and empties the line.
    pub fn handle_events(&mut self, key: Key, context: Context) -> (answer: Return)
        ensures
            match key {
                Key::Enter => final(self)@ == Seq::<char>::empty() && words_answer(
                    shell_words(
                        filled_in(
                            old(self)@,
                            placeholder_names(),
                            placeholder_values(context.path@, item_view(context.note)),
                        ),
                    ),
                    answer,
                ),
                Key::Esc | Key::Tab => final(self)@ == old(self)@ && answer matches Return::State(
                    ActiveElement::FolderView,
                ),
                Key::Char(c) => final(self)@ == old(self)@.push(c) && answer is Pass,
                Key::Backspace => final(self)@ == (if old(self)@.len() > 0 {
                    old(self)@.drop_last()
                } else {
                    old(self)@
                }) && answer is Pass,
                _ => final(self)@ == old(self)@ && answer is Pass,
            },
    {
        match key {
            Key::Enter => {
                let template = self.input.clone();
                self.input = String::new();
                let Context { path: parent, note } = context;
                let ghost chosen = item_view(note);
                let name = match note {
                    Some(item) => item.get_name(),
                    None => Item::Folder(String::new()).get_name(),
                };
                let mut child = parent.clone();
                child.append("/");
                child.append(name.as_str());
                let mut names: Vec<String> = Vec::new();
                names.push(String::from_str("parent"));
                names.push(String::from_str("P"));
                names.push(String::from_str("child"));
                names.push(String::from_str("C"));
                let mut values: Vec<String> = Vec::new();
                values.push(parent.clone());
                values.push(parent);
                values.push(child.clone());
                values.push(child);
                proof {
                    assert(names.deep_view() =~= placeholder_names());
                    assert(values.deep_view() =~= placeholder_values(context.path@, chosen));
                }
                let output = fill_in(template.as_str(), &names, &values);
                return Self::words_reply(split_words(output.as_str()));
            },
            Key::Esc | Key::Tab => {
                return Return::State(ActiveElement::FolderView);
            },
            Key::Char(c) => push_char(&mut self.input, c),
            Key::Backspace => {
                let count = self.input.as_str().unicode_len();
                if count > 0 {
                    self.input = self.input.as_str().substring_char(0, count - 1).to_owned();
                }
            },
            _ => {},
        }
        Return::Pass
    }
}

} // verus!
