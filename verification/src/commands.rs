//! The commands of the notebook, and what each of them does to the store.

use vstd::prelude::*;
use crate::error::Error;
use crate::folder::{delete_folder, make_folder, make_folder_draws, Folder};
use crate::ids::{all_full_length, fresh_ids, one_more};
use crate::listing::{render_tree, tree_text};
use crate::model::{id_of, Tables};
use crate::note::{
    cat_note, copy_note, copy_note_draws, delete_note, make_note, make_note_draws, move_note,
    move_note_draws, update_note, Note,
};
use crate::path::{file_name, name_of, segments, split_path, SEPARATOR};
use crate::store::Store;
use crate::text::{decimal, ends_in, ends_with_char, glue, to_decimal};
use crate::tree::{resolve, Outcome};

verus! {

/// A command as the user gives it.
#[derive(Debug)]
pub enum Command {
    /// Lists a book.
    List { indent: String, recursive: bool, path: String },
    /// Makes a book (the path ends with a separator) or a note.
    Make { parents: bool, path: String },
    /// Removes a book (the path ends with a separator) or a note.
    Remove { recursive: bool, path: String },
    /// Puts out a note, into a file or onto the standard output.
    Cat { note: String, out_file: Option<String> },
    /// Gives a note the text of a file or of the standard input.
    Update { note: String, in_file: Option<String> },
    /// Lets the user edit a note in an editor.
    Edit { note: String },
    /// Moves a note into another book.
    Move { parents: bool, overwrite: bool, src: String, dest_book: String },
    /// Copies a note into another book.
    Copy { parents: bool, overwrite: bool, src: String, dest_book: String },
}

/// What the program is started for: one command, or the terminal front end.
#[derive(Debug)]
pub enum SingleCommand {
    Single(Command),
    Tui,
}

/// What is to be done once a command has had its way with the store.
#[derive(Debug, PartialEq, Eq)]
pub enum Reply {
    /// Show this text.
    Output(String),
    /// Write `body` into the file `out_file`, or onto the standard output.
    Write { body: String, out_file: Option<String> },
    /// Read a text from the file `in_file`, or from the standard input, and
    /// hand it to [`Command::update_with`] for `note`.
    Read { note: String, in_file: Option<String> },
    /// Let the user edit `body` in a file whose name ends in `file_name`, and
    /// hand the result to [`Command::update_with`] for `note`.
    Edit { note: String, body: String, file_name: String },
}

/// A reply as the contracts see it.
pub ghost enum ReplyModel {
    Output(Seq<char>),
    Write { body: Seq<char>, out_file: Option<Seq<char>> },
    Read { note: Seq<char>, in_file: Option<Seq<char>> },
    Edit { note: Seq<char>, body: Seq<char>, file_name: Seq<char> },
}

/// The model of a text that may be absent.
pub open spec fn text_of(text: Option<String>) -> Option<Seq<char>> {
    match text {
        Some(text) => Some(text@),
        None => None,
    }
}

impl View for Reply {
    type V = ReplyModel;

    open spec fn view(&self) -> ReplyModel {
        match *self {
            Reply::Output(text) => ReplyModel::Output(text@),
            Reply::Write { body, out_file } => ReplyModel::Write {
                body: body@,
                out_file: text_of(out_file),
            },
            Reply::Read { note, in_file } => ReplyModel::Read { note: note@, in_file: text_of(in_file) },
            Reply::Edit { note, body, file_name } => ReplyModel::Edit {
                note: note@,
                body: body@,
                file_name: file_name@,
            },
        }
    }
}

/// The model of what a command reports.
pub open spec fn replied_view(replied: Result<Reply, Error>) -> Result<ReplyModel, Error> {
    match replied {
        Ok(reply) => Ok(reply@),
        Err(e) => Err(e),
    }
}

/// The model of a message that an operation reports.
pub open spec fn message_view(message: Result<String, Error>) -> Result<Seq<char>, Error> {
    match message {
        Ok(text) => Ok(text@),
        Err(e) => Err(e),
    }
}

/// The message after something was made at `path`.
pub open spec fn made_message(path: Seq<char>) -> Seq<char> {
    path + " successfully created"@
}

/// The message after `rows` rows were removed at `path`.
pub open spec fn removed_message(path: Seq<char>, rows: nat) -> Seq<char> {
    path + " successfully delete\n"@ + decimal(rows) + " rows delete"@
}

/// The message after the note at `path` got a new text, in `rows` rows.
pub open spec fn updated_message(path: Seq<char>, rows: nat) -> Seq<char> {
    path + " successfully created\n "@ + decimal(rows) + " rows effected"@
}

/// The message after a copy that wrote `rows` rows.
pub open spec fn copied_message(rows: nat) -> Seq<char> {
    "copy successful\n "@ + decimal(rows) + " rows effected"@
}

/// The message after a move that wrote `rows` rows.
pub open spec fn moved_message(rows: nat) -> Seq<char> {
    "move successful\n "@ + decimal(rows) + " rows effected"@
}

/// What a command does: the tables it leaves behind and its reply. A path
/// that ends with a separator names a folder, any other a note. New rows
/// take their identifiers from `ids`.
pub open spec fn run(t: Tables, command: Command, ids: Seq<Seq<char>>) -> Outcome<ReplyModel> {
    match command {
        Command::List { indent, recursive, path } => match resolve(t, segments(path@)) {
            Ok(place) => Outcome {
                tables: t,
                result: Ok(ReplyModel::Output(tree_text(t, id_of(place), indent@, recursive))),
            },
            Err(e) => Outcome { tables: t, result: Err(e) },
        },
        Command::Make { parents, path } => if ends_in(path@, SEPARATOR) {
            let made = make_folder(t, segments(path@), parents, ids);
            Outcome {
                tables: made.tables,
                result: match made.result {
                    Ok(_) => Ok(ReplyModel::Output(made_message(path@))),
                    Err(e) => Err(e),
                },
            }
        } else {
            let made = make_note(t, segments(path@), parents, ids);
            Outcome {
                tables: made.tables,
                result: match made.result {
                    Ok(_) => Ok(ReplyModel::Output(made_message(path@))),
                    Err(e) => Err(e),
                },
            }
        },
        Command::Remove { recursive, path } => {
            let removed = if ends_in(path@, SEPARATOR) {
                delete_folder(t, segments(path@), recursive)
            } else {
                delete_note(t, segments(path@))
            };
            Outcome {
                tables: removed.tables,
                result: match removed.result {
                    Ok(rows) => Ok(ReplyModel::Output(removed_message(path@, rows))),
                    Err(e) => Err(e),
                },
            }
        },
        Command::Cat { note, out_file } => Outcome {
            tables: t,
            result: match cat_note(t, segments(note@)) {
                Ok(body) => Ok(ReplyModel::Write { body, out_file: text_of(out_file) }),
                Err(e) => Err(e),
            },
        },
        Command::Update { note, in_file } => Outcome {
            tables: t,
            result: Ok(ReplyModel::Read { note: note@, in_file: text_of(in_file) }),
        },
        Command::Edit { note } => Outcome {
            tables: t,
            result: match cat_note(t, segments(note@)) {
                Ok(body) => Ok(ReplyModel::Edit { note: note@, body, file_name: name_of(note@) }),
                Err(e) => Err(e),
            },
        },
        Command::Move { parents, overwrite, src, dest_book } => {
            let moved = move_note(t, segments(src@), segments(dest_book@), overwrite, parents, ids);
            Outcome {
                tables: moved.tables,
                result: match moved.result {
                    Ok(rows) => Ok(ReplyModel::Output(moved_message(rows))),
                    Err(e) => Err(e),
                },
            }
        },
        Command::Copy { parents, overwrite, src, dest_book } => {
            let copied = copy_note(t, segments(src@), segments(dest_book@), overwrite, parents, ids);
            Outcome {
                tables: copied.tables,
                result: match copied.result {
                    Ok(rows) => Ok(ReplyModel::Output(copied_message(rows))),
                    Err(e) => Err(e),
                },
            }
        },
    }
}

/// The most identifiers that a command can draw.
pub open spec fn draws(command: Command) -> nat {
    match command {
        Command::Make { parents, path } => if ends_in(path@, SEPARATOR) {
            make_folder_draws(segments(path@), parents)
        } else {
            make_note_draws(segments(path@), parents)
        },
        Command::Move { parents, overwrite, src, dest_book } => move_note_draws(
            segments(dest_book@),
            parents,
        ),
        Command::Copy { parents, overwrite, src, dest_book } => copy_note_draws(
            segments(dest_book@),
            parents,
        ),
        _ => 0,
    }
}

/// Giving the note at `note` the text `body`, and the message about it.
pub open spec fn run_update(t: Tables, note: Seq<char>, body: Seq<char>) -> Outcome<Seq<char>> {
    let updated = update_note(t, segments(note), body);
    Outcome {
        tables: updated.tables,
        result: match updated.result {
            Ok(rows) => Ok(updated_message(note, rows)),
            Err(e) => Err(e),
        },
    }
}

/// `front`, the numeral of `rows`, and `back`.
fn counted(front: String, rows: usize, back: &str) -> (text: String)
    ensures
        text@ == front@ + decimal(rows as nat) + back@,
{
    let mut text = front;
    text.append(to_decimal(rows).as_str());
    text.append(back);
    text
}

impl Command {
    /// Carries the command out on the store, with the identifiers of `ids`
    /// for the rows it files, and says what is left to do.
    pub fn execute_with_ids(&self, ids: &Vec<String>, store: &mut Store) -> (replied: Result<Reply, Error>)
        requires
            old(store).wf(),
            old(store)@.folders.len() + old(store)@.notes.len() <= usize::MAX,
        ensures
            final(store).wf(),
            final(store)@ == run(old(store)@, *self, ids.deep_view()).tables,
            replied_view(replied) == run(old(store)@, *self, ids.deep_view()).result,
            replied is Err ==> final(store)@ == old(store)@,
    {
        match self {
            Command::List { indent, recursive, path } => {
                let segs = split_path(path.as_str());
                match Folder::find(&segs, store) {
                    Ok(place) => {
                        let at = Folder::get_id(&place);
                        Ok(Reply::Output(render_tree(&at, indent.as_str(), *recursive, store)))
                    },
                    Err(e) => Err(e),
                }
            },
            Command::Make { parents, path } => {
                if ends_with_char(path.as_str(), SEPARATOR) {
                    match Folder::make_with_ids(path.as_str(), *parents, ids, store) {
                        Ok(_) => Ok(Reply::Output(glue(path.as_str(), " successfully created"))),
                        Err(e) => Err(e),
                    }
                } else {
                    match Note::make_with_ids(path.as_str(), *parents, ids, store) {
                        Ok(_) => Ok(Reply::Output(glue(path.as_str(), " successfully created"))),
                        Err(e) => Err(e),
                    }
                }
            },
            Command::Remove { recursive, path } => {
                let removed = if ends_with_char(path.as_str(), SEPARATOR) {
                    Folder::delete(path.as_str(), *recursive, store)
                } else {
                    Note::delete(path.as_str(), store)
                };
                match removed {
                    Ok(rows) => Ok(
                        Reply::Output(
                            counted(glue(path.as_str(), " successfully delete\n"), rows, " rows delete"),
                        ),
                    ),
                    Err(e) => Err(e),
                }
            },
            Command::Cat { note, out_file } => {
                match Note::cat(note.as_str(), store) {
                    Ok(body) => Ok(Reply::Write { body, out_file: out_file.clone() }),
                    Err(e) => Err(e),
                }
            },
            Command::Update { note, in_file } => Ok(
                Reply::Read { note: note.clone(), in_file: in_file.clone() },
            ),
            Command::Edit { note } => {
                match Note::cat(note.as_str(), store) {
                    Ok(body) => Ok(
                        Reply::Edit { note: note.clone(), body, file_name: file_name(note.as_str()) },
                    ),
                    Err(e) => Err(e),
                }
            },
            Command::Move { parents, overwrite, src, dest_book } => {
                match Note::move_note_with_ids(
                    src.as_str(),
                    dest_book.as_str(),
                    *overwrite,
                    *parents,
                    ids,
                    store,
                ) {
                    Ok(rows) => Ok(
                        Reply::Output(
                            counted(String::from_str("move successful\n "), rows, " rows effected"),
                        ),
                    ),
                    Err(e) => Err(e),
                }
            },
            Command::Copy { parents, overwrite, src, dest_book } => {
                match Note::copy_note_with_ids(
                    src.as_str(),
                    dest_book.as_str(),
                    *overwrite,
                    *parents,
                    ids,
                    store,
                ) {
                    Ok(rows) => Ok(
                        Reply::Output(
                            counted(String::from_str("copy successful\n "), rows, " rows effected"),
                        ),
                    ),
                    Err(e) => Err(e),
                }
            },
        }
    }

    /// Draws as many new random identifiers as the command can need.
    fn draw_ids(&self) -> (ids: Vec<String>)
        ensures
            ids.len() == draws(*self),
            all_full_length(ids.deep_view()),
    {
        match self {
            Command::Make { parents, path } => {
                let n = split_path(path.as_str()).len();
                if ends_with_char(path.as_str(), SEPARATOR) {
                    fresh_ids(
                        if *parents {
                            n
                        } else if n > 0 {
                            1
                        } else {
                            0
                        },
                    )
                } else {
                    fresh_ids(
                        if n < 2 {
                            0
                        } else if *parents {
                            n
                        } else {
                            1
                        },
                    )
                }
            },
            Command::Move { parents, overwrite, src, dest_book } => {
                fresh_ids(
                    if *parents {
                        split_path(dest_book.as_str()).len()
                    } else {
                        0
                    },
                )
            },
            Command::Copy { parents, overwrite, src, dest_book } => {
                let mut ids = fresh_ids(
                    if *parents {
                        split_path(dest_book.as_str()).len()
                    } else {
                        0
                    },
                );
                one_more(&mut ids);
                ids
            },
            _ => fresh_ids(0),
        }
    }

    /// Carries the command out on the store and says what is left to do.
    /// The rows it files get new random identifiers.
    ///
    /// Which identifiers these are is left to chance, so the contract says
    /// that the outcome is that of [`Command::execute_with_ids`] for some
    /// supply of full-length identifiers. A command that files nothing has
    /// the outcome that it has with an empty supply.
    pub fn execute(&self, store: &mut Store) -> (replied: Result<Reply, Error>)
        requires
            old(store).wf(),
            old(store)@.folders.len() + old(store)@.notes.len() <= usize::MAX,
        ensures
            final(store).wf(),
            replied is Err ==> final(store)@ == old(store)@,
            exists|ids: Seq<Seq<char>>|
    {
                    &&& all_full_length(ids)
                    &&& ids.len() == draws(*self)
                    &&& final(store)@ == (#[trigger] run(old(store)@, *self, ids)).tables
                    &&& replied_view(replied) == run(old(store)@, *self, ids).result
                },
            draws(*self) == 0 ==> final(store)@ == run(old(store)@, *self, Seq::empty()).tables
                && replied_view(replied) == run(old(store)@, *self, Seq::empty()).result,
    {
        let ids = self.draw_ids();
        proof {
            if draws(*self) == 0 {
                assert(ids.deep_view() =~= Seq::<Seq<char>>::empty());
            }
        }
        self.execute_with_ids(&ids, store)
    }

    /// Gives the note at `note` the text `body`, which was read or edited
    /// for it, and returns the message about it.
    pub fn update_with(note: &str, body: String, store: &mut Store) -> (message: Result<String, Error>)
        requires
            old(store).wf(),
        ensures
            final(store).wf(),
            final(store)@ == run_update(old(store)@, note@, body@).tables,
            message_view(message) == run_update(old(store)@, note@, body@).result,
            message is Err ==> final(store)@ == old(store)@,
    {
        match Note::update(note, body, store) {
            Ok(rows) => Ok(counted(glue(note, " successfully created\n "), rows, " rows effected")),
            Err(e) => Err(e),
        }
    }
}

} // verus!
