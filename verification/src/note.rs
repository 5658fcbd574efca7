//! Notes: the leaves of the tree.

use vstd::prelude::*;
use crate::error::Error;
use crate::folder::Folder;
use crate::ids::{all_full_length, fresh_ids, one_more};
use crate::model::{
    folder_id_taken, id_of, lemma_file_note_wf, lemma_note_index, lemma_note_named, note_has_id,
    note_id_taken, note_is, note_named, root, NoteRow, Tables,
};
use crate::path::{segments, split_path};
use crate::store::Store;
use crate::tree::{
    all_or_nothing, lemma_resolve_has_place, lemma_resolve_is_pure, lemma_walk_found,
    lemma_walk_sound, resolve, supplied, walk, Outcome,
};

verus! {

/// A note: a titled text that lives in a folder.
#[derive(Debug, PartialEq, Eq)]
pub struct Note {
    pub(crate) id: String,
    pub(crate) parent_id: String,
    pub title: String,
    pub(crate) body: String,
}

impl View for Note {
    type V = NoteRow;

    closed spec fn view(&self) -> NoteRow {
        NoteRow { id: self.id@, parent_id: self.parent_id@, title: self.title@, body: self.body@ }
    }
}

impl Clone for Note {
    fn clone(&self) -> (copy: Self)
        ensures
            copy == *self,
    {
        Note {
            id: self.id.clone(),
            parent_id: self.parent_id.clone(),
            title: self.title.clone(),
            body: self.body.clone(),
        }
    }
}

/// The models of a list of notes.
pub open spec fn note_rows(notes: Seq<Note>) -> Seq<NoteRow> {
    notes.map_values(|note: Note| note@)
}

/// The model of a note that may be absent.
pub open spec fn note_view(note: Option<Note>) -> Option<NoteRow> {
    match note {
        Some(note) => Some(note@),
        None => None,
    }
}

/// The model of what finding or making a note reports.
pub open spec fn found_view(found: Result<Note, Error>) -> Result<NoteRow, Error> {
    match found {
        Ok(note) => Ok(note@),
        Err(e) => Err(e),
    }
}

/// The model of a text that an operation reports.
pub open spec fn text_view(text: Result<String, Error>) -> Result<Seq<char>, Error> {
    match text {
        Ok(text) => Ok(text@),
        Err(e) => Err(e),
    }
}

/// The model of a count of rows.
pub open spec fn rows_view(rows: Result<usize, Error>) -> Result<nat, Error> {
    match rows {
        Ok(n) => Ok(n as nat),
        Err(e) => Err(e),
    }
}

/// `row` with another text.
pub open spec fn with_body(row: NoteRow, body: Seq<char>) -> NoteRow {
    NoteRow { id: row.id, parent_id: row.parent_id, title: row.title, body }
}

/// `row` in another folder.
pub open spec fn with_parent(row: NoteRow, parent_id: Seq<char>) -> NoteRow {
    NoteRow { id: row.id, parent_id, title: row.title, body: row.body }
}

/// Files an empty note called `title` in the folder `parent` with the
/// identifier `id`, unless the place or the identifier is taken, and reports
/// the note that then stands at that place.
pub open spec fn create_note(t: Tables, title: Seq<char>, parent: Seq<char>, id: Seq<char>) -> Outcome<
    NoteRow,
> {
    if title.len() == 0 {
        Outcome { tables: t, result: Err(Error::BookLessNote) }
    } else {
        let after = t.file_note(NoteRow { id, parent_id: parent, title, body: Seq::empty() });
        Outcome {
            tables: after,
            result: match note_named(after.notes, parent, title) {
                Some(row) => Ok(row),
                None => Err(Error::NotFound),
            },
        }
    }
}

/// The note called `title` in the folder at `folder`. No note lives at the root.
pub open spec fn note_at(t: Tables, folder: Seq<Seq<char>>, title: Seq<char>) -> Result<NoteRow, Error> {
    if folder.len() == 0 {
        Err(Error::BookLessNote)
    } else {
        match resolve(t, folder) {
            Ok(place) => match note_named(t.notes, id_of(place), title) {
                Some(row) => Ok(row),
                None => Err(Error::NotFound),
            },
            Err(e) => Err(e),
        }
    }
}

/// The note at `segs`: the last segment is its title, the others lead to its folder.
pub open spec fn find_note(t: Tables, segs: Seq<Seq<char>>) -> Result<NoteRow, Error> {
    if segs.len() == 0 {
        Err(Error::BookLessNote)
    } else {
        note_at(t, segs.drop_last(), segs.last())
    }
}

/// Making the note at `segs`: the walk to its folder, filing what is missing
/// if `parents` is set, and then the note itself, empty, with the next
/// identifier of the supply. A path of fewer than two segments names no
/// note, and a folder that cannot be reached holds none. Where the note
/// cannot be made, nothing is filed at all.
pub open spec fn make_note(t: Tables, segs: Seq<Seq<char>>, parents: bool, ids: Seq<Seq<char>>) -> Outcome<
    NoteRow,
> {
    if segs.len() < 2 {
        Outcome { tables: t, result: Err(Error::BookLessNote) }
    } else {
        let way = walk(t, segs.drop_last(), parents, ids);
        all_or_nothing(
            t,
            match way.at {
                Ok(place) => create_note(way.tables, segs.last(), id_of(place), supplied(ids, way.used)),
                Err(_) => Outcome { tables: way.tables, result: Err(Error::BookLessNote) },
            },
        )
    }
}

/// The most identifiers that making the note at `segs` can draw.
pub open spec fn make_note_draws(segs: Seq<Seq<char>>, parents: bool) -> nat {
    if segs.len() < 2 {
        0
    } else if parents {
        segs.len()
    } else {
        1
    }
}

/// The text of the note at `segs`.
pub open spec fn cat_note(t: Tables, segs: Seq<Seq<char>>) -> Result<Seq<char>, Error> {
    match find_note(t, segs) {
        Ok(row) => Ok(row.body),
        Err(e) => Err(e),
    }
}

/// Giving the note at `segs` the text `body`.
pub open spec fn update_note(t: Tables, segs: Seq<Seq<char>>, body: Seq<char>) -> Outcome<nat> {
    match find_note(t, segs) {
        Ok(row) => Outcome { tables: t.rewrite_note(with_body(row, body)), result: Ok(1) },
        Err(e) => Outcome { tables: t, result: Err(e) },
    }
}

/// Deleting the note at `segs`.
pub open spec fn delete_note(t: Tables, segs: Seq<Seq<char>>) -> Outcome<nat> {
    match find_note(t, segs) {
        Ok(row) => Outcome { tables: t.drop_note(row.parent_id, row.title), result: Ok(1) },
        Err(e) => Outcome { tables: t, result: Err(e) },
    }
}

/// Moving the note `row` into the folder at `dest`, under its own title.
/// Where a note of that title is there already, it keeps its place and takes
/// over the text, and `row` is removed; that needs `overwrite`. Otherwise
/// `row` is refiled under the folder, which is reached by a walk that files
/// what is missing if `parents` is set. Where the move fails, nothing changes.
pub open spec fn move_row(
    t: Tables,
    row: NoteRow,
    dest: Seq<Seq<char>>,
    overwrite: bool,
    parents: bool,
    ids: Seq<Seq<char>>,
) -> Outcome<nat> {
    match note_at(t, dest, row.title) {
        Ok(there) => if overwrite {
            Outcome {
                tables: t.rewrite_note(with_body(there, row.body)).drop_note(row.parent_id, row.title),
                result: Ok(2),
            }
        } else {
            Outcome { tables: t, result: Err(Error::OverwriteNotAllowed) }
        },
        Err(_) => if dest.len() == 0 {
            Outcome { tables: t, result: Err(Error::BookLessNote) }
        } else {
            let way = walk(t, dest, parents, ids);
            match way.at {
                Ok(place) => Outcome {
                    tables: way.tables.rewrite_note(with_parent(row, id_of(place))),
                    result: Ok(1),
                },
                Err(e) => Outcome { tables: t, result: Err(e) },
            }
        },
    }
}

/// The note `row` as it is filed after a move into the folder at `dest`: in
/// that folder, where the move has refiled it, and else as it was.
pub open spec fn moved_row(
    t: Tables,
    row: NoteRow,
    dest: Seq<Seq<char>>,
    parents: bool,
    ids: Seq<Seq<char>>,
) -> NoteRow {
    if note_at(t, dest, row.title) is Err && dest.len() > 0 {
        match walk(t, dest, parents, ids).at {
            Ok(place) => with_parent(row, id_of(place)),
            Err(_) => row,
        }
    } else {
        row
    }
}

/// Moving the note at `src` into the folder at `dest`.
pub open spec fn move_note(
    t: Tables,
    src: Seq<Seq<char>>,
    dest: Seq<Seq<char>>,
    overwrite: bool,
    parents: bool,
    ids: Seq<Seq<char>>,
) -> Outcome<nat> {
    match find_note(t, src) {
        Ok(row) => move_row(t, row, dest, overwrite, parents, ids),
        Err(e) => Outcome { tables: t, result: Err(e) },
    }
}

/// The most identifiers that a move into the folder at `dest` can draw.
pub open spec fn move_note_draws(dest: Seq<Seq<char>>, parents: bool) -> nat {
    if parents {
        dest.len()
    } else {
        0
    }
}

/// Copying the note `row` into the folder at `dest`, under its own title.
/// A note of that title that is there already is replaced only with
/// `overwrite`. The folder is reached by a walk that files what is missing if
/// `parents` is set; the note there, new unless one was there, gets the text
/// of `row`. The note `row` itself stays as it is. Where the copy fails,
/// nothing changes.
pub open spec fn copy_row(
    t: Tables,
    row: NoteRow,
    dest: Seq<Seq<char>>,
    overwrite: bool,
    parents: bool,
    ids: Seq<Seq<char>>,
) -> Outcome<nat> {
    if note_at(t, dest, row.title) is Ok && !overwrite {
        Outcome { tables: t, result: Err(Error::OverwriteNotAllowed) }
    } else if dest.len() == 0 {
        Outcome { tables: t, result: Err(Error::BookLessNote) }
    } else {
        let way = walk(t, dest, parents, ids);
        match way.at {
            Ok(place) => {
                let made = create_note(way.tables, row.title, id_of(place), supplied(ids, way.used));
                match made.result {
                    Ok(there) => Outcome {
                        tables: made.tables.rewrite_note(with_body(there, row.body)),
                        result: Ok(1),
                    },
                    Err(e) => Outcome { tables: t, result: Err(e) },
                }
            },
            Err(e) => Outcome { tables: t, result: Err(e) },
        }
    }
}

/// Copying the note at `src` into the folder at `dest`.
pub open spec fn copy_note(
    t: Tables,
    src: Seq<Seq<char>>,
    dest: Seq<Seq<char>>,
    overwrite: bool,
    parents: bool,
    ids: Seq<Seq<char>>,
) -> Outcome<nat> {
    match find_note(t, src) {
        Ok(row) => copy_row(t, row, dest, overwrite, parents, ids),
        Err(e) => Outcome { tables: t, result: Err(e) },
    }
}

/// The most identifiers that a copy into the folder at `dest` can draw.
pub open spec fn copy_note_draws(dest: Seq<Seq<char>>, parents: bool) -> nat {
    if parents {
        dest.len() + 1
    } else {
        1
    }
}

/// A note that was found is a row of the tables, in a folder that exists,
/// and the only note of its name there.
pub proof fn lemma_note_at(t: Tables, folder: Seq<Seq<char>>, title: Seq<char>)
    requires
        t.wf(),
        note_at(t, folder, title) is Ok,
    ensures
        ({
            let row = note_at(t, folder, title)->Ok_0;
            &&& t.notes.contains(row)
            &&& row.title == title
            &&& row.title.len() > 0
            &&& resolve(t, folder) is Ok
            &&& row.parent_id == id_of(resolve(t, folder)->Ok_0)
            &&& folder_id_taken(t.folders, row.parent_id)
            &&& note_named(t.notes, row.parent_id, row.title) == Some(row)
            &&& note_id_taken(t.notes, row.id)
            &&& forall|k: int| note_is(t.notes, k, row.parent_id, row.title) ==> t.notes[k] == row
        }),
{
    let row = note_at(t, folder, title)->Ok_0;
    let place = resolve(t, folder)->Ok_0;
    let i = choose|i: int| note_is(t.notes, i, id_of(place), title);
    assert(t.notes[i] == row);
    assert(note_has_id(t.notes, i, row.id));
    assert forall|k: int| note_is(t.notes, k, row.parent_id, row.title) implies t.notes[k] == row by {
        lemma_note_named(t.folders, t.notes, k, row.parent_id, row.title);
    }
}

/// A row of sound tables lies in a folder that exists, and is the only note
/// of its name there.
pub proof fn lemma_note_row(t: Tables, row: NoteRow)
    requires
        t.wf(),
        t.notes.contains(row),
    ensures
        row.title.len() > 0,
        folder_id_taken(t.folders, row.parent_id),
        note_named(t.notes, row.parent_id, row.title) == Some(row),
        note_id_taken(t.notes, row.id),
        forall|k: int| note_is(t.notes, k, row.parent_id, row.title) ==> t.notes[k] == row,
{
    let i = t.notes.index_of(row);
    assert(note_has_id(t.notes, i, row.id));
    assert(note_is(t.notes, i, row.parent_id, row.title));
    lemma_note_named(t.folders, t.notes, i, row.parent_id, row.title);
    assert forall|k: int| note_is(t.notes, k, row.parent_id, row.title) implies t.notes[k] == row by {
        lemma_note_named(t.folders, t.notes, k, row.parent_id, row.title);
    }
}

impl Note {
    /// A note row made of its four fields.
    pub fn from_parts(id: String, parent_id: String, title: String, body: String) -> (note: Note)
        ensures
            note@ == (NoteRow { id: id@, parent_id: parent_id@, title: title@, body: body@ }),
    {
        Note { id, parent_id, title, body }
    }

    /// The note's title: the path segment that names it.
    pub fn title(&self) -> (title: &String)
        ensures
            title@ == self@.title,
    {
        &self.title
    }

    /// The note's identifier.
    pub fn id(&self) -> (id: &String)
        ensures
            id@ == self@.id,
    {
        &self.id
    }

    /// The identifier of the folder the note lies in.
    pub fn parent_id(&self) -> (id: &String)
        ensures
            id@ == self@.parent_id,
    {
        &self.parent_id
    }

    /// The note's text.
    pub fn body(&self) -> (body: &String)
        ensures
            body@ == self@.body,
    {
        &self.body
    }

    /// Files an empty note called `title` in the folder `parent_id` with the
    /// identifier `id` and returns the note that stands at that place
    /// afterwards: the new one, or the one that was there already. Nothing is
    /// filed when the place or the identifier is taken.
    pub(crate) fn new(title: &String, parent_id: &String, id: String, store: &mut Store) -> (made: Result<
        Note,
        Error,
    >)
        requires
            old(store).wf(),
            folder_id_taken(old(store)@.folders, parent_id@),
        ensures
            final(store).wf(),
            final(store)@ == create_note(old(store)@, title@, parent_id@, id@).tables,
            found_view(made) == create_note(old(store)@, title@, parent_id@, id@).result,
    {
        if title.as_str().is_empty() {
            return Err(Error::BookLessNote);
        }
        let note = Note { id, parent_id: parent_id.clone(), title: title.clone(), body: String::new() };
        store.insert_note(note);
        match store.find_note(parent_id, title) {
            Some(found) => Ok(found),
            None => Err(Error::NotFound),
        }
    }

    /// Looks up the note called `title` in the folder that `folder` leads to.
    fn query_at(folder: &Vec<String>, title: &String, store: &Store) -> (found: Result<Note, Error>)
        requires
            store.wf(),
        ensures
            found_view(found) == note_at(store@, folder.deep_view(), title@),
    {
        if folder.len() == 0 {
            return Err(Error::BookLessNote);
        }
        match Folder::find(folder, store) {
            Ok(place) => {
                let parent_id = Folder::get_id(&place);
                match store.find_note(&parent_id, title) {
                    Some(note) => Ok(note),
                    None => Err(Error::NotFound),
                }
            },
            Err(e) => Err(e),
        }
    }

    /// Looks up the note at `path`.
    pub fn query(path: &str, store: &Store) -> (found: Result<Note, Error>)
        requires
            store.wf(),
        ensures
            found_view(found) == find_note(store@, segments(path@)),
    {
        let ghost whole = segments(path@);
        let mut segs = split_path(path);
        match segs.pop() {
            Some(title) => {
                proof {
                    assert(segs.deep_view() =~= whole.drop_last());
                    assert(title@ == whole.last());
                }
                Self::query_at(&segs, &title, store)
            },
            None => Err(Error::BookLessNote),
        }
    }

    /// Makes the note that the segments name, with the identifiers of `ids`.
    fn make_at(segs: Vec<String>, parents: bool, ids: &Vec<String>, store: &mut Store) -> (made: Result<
        Note,
        Error,
    >)
        requires
            old(store).wf(),
        ensures
            final(store).wf(),
            final(store)@ == make_note(old(store)@, segs.deep_view(), parents, ids.deep_view()).tables,
            found_view(made) == make_note(
                old(store)@,
                segs.deep_view(),
                parents,
                ids.deep_view(),
            ).result,
    {
        let ghost start = store@;
        let ghost whole = segs.deep_view();
        let folders = store.folder_count();
        let notes = store.note_count();
        let mut segs = segs;
        if segs.len() < 2 {
            return Err(Error::BookLessNote);
        }
        match segs.pop() {
            Some(title) => {
                proof {
                    assert(segs.deep_view() =~= whole.drop_last());
                    assert(title@ == whole.last());
                    lemma_walk_sound(start, whole.drop_last(), parents, ids.deep_view());
                    lemma_walk_lands(start, whole.drop_last(), parents, ids.deep_view());
                }
                let (reached, used) = Folder::query(&segs, parents, ids, store);
                match reached {
                    Ok(place) => {
                        let parent_id = Folder::get_id(&place);
                        let id = if used < ids.len() {
                            ids[used].clone()
                        } else {
                            String::new()
                        };
                        proof {
                            lemma_created_note(store@, title@, parent_id@, id@);
                        }
                        match Self::new(&title, &parent_id, id, store) {
                            Ok(note) => Ok(note),
                            Err(e) => {
                                store.rollback(folders, notes, Ghost(start));
                                Err(e)
                            },
                        }
                    },
                    Err(_) => {
                        store.rollback(folders, notes, Ghost(start));
                        Err(Error::BookLessNote)
                    },
                }
            },
            None => Err(Error::BookLessNote),
        }
    }

    /// Makes an empty note at `path`, drawing the identifiers of new rows
    /// from `ids` in order: first those of the folders that are missing, if
    /// `parents` asks for them, then the note's own. Returns the note that
    /// stands at `path` afterwards; a note that was there already is
    /// returned as it is.
    pub fn make_with_ids(path: &str, parents: bool, ids: &Vec<String>, store: &mut Store) -> (made: Result<
        Note,
        Error,
    >)
        requires
            old(store).wf(),
        ensures
            final(store).wf(),
            final(store)@ == make_note(old(store)@, segments(path@), parents, ids.deep_view()).tables,
            found_view(made) == make_note(
                old(store)@,
                segments(path@),
                parents,
                ids.deep_view(),
            ).result,
            made is Err ==> final(store)@ == old(store)@,
    {
        Self::make_at(split_path(path), parents, ids, store)
    }

    /// Makes an empty note at `path` under a new random identifier, and with
    /// `parents` set every folder missing above it. Returns the note that
    /// stands at `path` afterwards.
    ///
    /// Which identifiers the new rows get is left to chance, so the contract
    /// says that the outcome is that of [`Note::make_with_ids`] for some
    /// supply of full-length identifiers. Where `path` already names a note
    /// no identifier matters: that note is returned and nothing changes.
    pub fn make(path: &str, parents: bool, store: &mut Store) -> (made: Result<Note, Error>)
        requires
            old(store).wf(),
        ensures
            final(store).wf(),
            made is Err ==> final(store)@ == old(store)@,
            exists|ids: Seq<Seq<char>>|
    {
                    &&& all_full_length(ids)
                    &&& ids.len() == make_note_draws(segments(path@), parents)
                    &&& final(store)@ == (#[trigger] make_note(
                        old(store)@,
                        segments(path@),
                        parents,
                        ids,
                    )).tables
                    &&& found_view(made) == make_note(old(store)@, segments(path@), parents, ids).result
                },
            find_note(old(store)@, segments(path@)) matches Ok(row) ==> final(store)@ == old(store)@
                && found_view(made) == Ok::<NoteRow, Error>(row),
    {
        let segs = split_path(path);
        let count = if segs.len() < 2 {
            0
        } else if parents {
            segs.len()
        } else {
            1
        };
        let ids = fresh_ids(count);
        proof {
            lemma_make_existing_note(store@, segs.deep_view(), parents, ids.deep_view());
        }
        Self::make_at(segs, parents, &ids, store)
    }

    /// All notes filed directly in the folder `parent_id`.
    pub fn list_parent_id(parent_id: &String, store: &Store) -> (notes: Vec<Note>)
        ensures
            note_rows(notes@) == store@.child_notes(parent_id@),
    {
        store.children(parent_id).1
    }

    /// Removes this note from the store; returns the number of rows removed.
    pub fn delete_note(&self, store: &mut Store) -> (rows: usize)
        requires
            old(store).wf(),
        ensures
            final(store).wf(),
            final(store)@ == old(store)@.drop_note(self@.parent_id, self@.title),
            rows == (if note_named(old(store)@.notes, self@.parent_id, self@.title) is Some {
                1usize
            } else {
                0usize
            }),
    {
        store.remove_note(&self.parent_id, &self.title)
    }

    /// The text of the note at `path`.
    pub fn cat(path: &str, store: &Store) -> (text: Result<String, Error>)
        requires
            store.wf(),
        ensures
            text_view(text) == cat_note(store@, segments(path@)),
    {
        match Self::query(path, store) {
            Ok(note) => Ok(note.body),
            Err(e) => Err(e),
        }
    }

    /// Writes this note over the row that has its identifier; returns the
    /// number of rows written.
    pub(crate) fn update_self(&self, store: &mut Store) -> (rows: usize)
        requires
            old(store).wf(),
            self@.title.len() > 0,
            folder_id_taken(old(store)@.folders, self@.parent_id),
            forall|k: int|
                note_is(old(store)@.notes, k, self@.parent_id, self@.title) ==> old(store)@.notes[k].id
                    == self@.id,
        ensures
            final(store).wf(),
            final(store)@ == old(store)@.rewrite_note(self@),
            rows == (if note_id_taken(old(store)@.notes, self@.id) { 1usize } else { 0usize }),
    {
        store.rewrite_note(self.clone())
    }

    /// Gives the note at `path` the text `body`; returns the number of rows written.
    pub fn update(path: &str, body: String, store: &mut Store) -> (rows: Result<usize, Error>)
        requires
            old(store).wf(),
        ensures
            final(store).wf(),
            final(store)@ == update_note(old(store)@, segments(path@), body@).tables,
            rows_view(rows) == update_note(old(store)@, segments(path@), body@).result,
            rows is Err ==> final(store)@ == old(store)@,
    {
        match Self::query(path, store) {
            Ok(found) => {
                proof {
                    lemma_find_note(store@, segments(path@));
                }
                let mut note = found;
                note.body = body;
                Ok(note.update_self(store))
            },
            Err(e) => Err(e),
        }
    }

    /// Deletes the note at `path`; returns the number of rows removed.
    pub fn delete(path: &str, store: &mut Store) -> (rows: Result<usize, Error>)
        requires
            old(store).wf(),
        ensures
            final(store).wf(),
            final(store)@ == delete_note(old(store)@, segments(path@)).tables,
            rows_view(rows) == delete_note(old(store)@, segments(path@)).result,
            rows is Err ==> final(store)@ == old(store)@,
    {
        match Self::query(path, store) {
            Ok(note) => {
                proof {
                    lemma_find_note(store@, segments(path@));
                }
                Ok(note.delete_note(store))
            },
            Err(e) => Err(e),
        }
    }

    /// Moves this note, a row of the store, into the folder at `dest`. On
    /// success without a note in the way, the note itself is refiled too.
    pub(crate) fn move_self(
        &mut self,
        dest: &str,
        overwrite: bool,
        parents: bool,
        ids: &Vec<String>,
        store: &mut Store,
    ) -> (rows: Result<usize, Error>)
        requires
            old(store).wf(),
            old(store)@.notes.contains(old(self)@),
        ensures
            final(store).wf(),
            final(store)@ == move_row(
                old(store)@,
                old(self)@,
                segments(dest@),
                overwrite,
                parents,
                ids.deep_view(),
            ).tables,
            rows_view(rows) == move_row(
                old(store)@,
                old(self)@,
                segments(dest@),
                overwrite,
                parents,
                ids.deep_view(),
            ).result,
            final(self)@ == moved_row(
                old(store)@,
                old(self)@,
                segments(dest@),
                parents,
                ids.deep_view(),
            ),
    {
        let ghost start = store@;
        let ghost row = self@;
        let ghost way = segments(dest@);
        let ghost supply = ids.deep_view();
        let folders = store.folder_count();
        let notes = store.note_count();
        let folder = split_path(dest);
        proof {
            lemma_note_row(start, row);
        }
        match Self::query_at(&folder, &self.title, store) {
            Ok(there) => {
                if !overwrite {
                    return Err(Error::OverwriteNotAllowed);
                }
                proof {
                    lemma_note_at(start, way, row.title);
                }
                let mut there = there;
                there.body = self.body.clone();
                let written = there.update_self(store);
                let removed = self.delete_note(store);
                proof {
                    lemma_rewrite_keeps_name(start, note_at(start, way, row.title)->Ok_0, row.body, row);
                }
                Ok(written + removed)
            },
            Err(_) => {
                if folder.len() == 0 {
                    return Err(Error::BookLessNote);
                }
                proof {
                    lemma_walk_sound(start, way, parents, supply);
                    lemma_walk_lands(start, way, parents, supply);
                }
                let (reached, _) = Folder::query(&folder, parents, ids, store);
                match reached {
                    Ok(place) => {
                        proof {
                            lemma_free_place(start, way, parents, supply, row.title);
                        }
                        self.parent_id = Folder::get_id(&place);
                        Ok(self.update_self(store))
                    },
                    Err(e) => {
                        store.rollback(folders, notes, Ghost(start));
                        Err(e)
                    },
                }
            },
        }
    }

    /// Moves the note at `path` into the folder at `dest`, under its own
    /// title, drawing the identifiers of folders that `parents` has filed
    /// from `ids`. A note of that title in the way is replaced only with
    /// `overwrite`. Returns the number of rows written and removed.
    pub fn move_note_with_ids(
        path: &str,
        dest: &str,
        overwrite: bool,
        parents: bool,
        ids: &Vec<String>,
        store: &mut Store,
    ) -> (rows: Result<usize, Error>)
        requires
            old(store).wf(),
        ensures
            final(store).wf(),
            final(store)@ == move_note(
                old(store)@,
                segments(path@),
                segments(dest@),
                overwrite,
                parents,
                ids.deep_view(),
            ).tables,
            rows_view(rows) == move_note(
                old(store)@,
                segments(path@),
                segments(dest@),
                overwrite,
                parents,
                ids.deep_view(),
            ).result,
            rows is Err ==> final(store)@ == old(store)@,
    {
        match Self::query(path, store) {
            Ok(found) => {
                proof {
                    lemma_find_note(store@, segments(path@));
                }
                let mut note = found;
                note.move_self(dest, overwrite, parents, ids, store)
            },
            Err(e) => Err(e),
        }
    }

    /// Moves the note at `path` into the folder at `dest`, under its own
    /// title. A note of that title in the way is replaced only with
    /// `overwrite`; with `parents` set the folders missing on the way to
    /// `dest` are filed, under new random identifiers. Returns the number of
    /// rows written and removed.
    ///
    /// The outcome is that of [`Note::move_note_with_ids`] for some supply of
    /// full-length identifiers. Where nothing has to be filed, because
    /// `parents` is not set or `dest` exists, no identifier matters.
    pub fn move_note(path: &str, dest: &str, overwrite: bool, parents: bool, store: &mut Store) -> (rows:
        Result<usize, Error>)
        requires
            old(store).wf(),
        ensures
            final(store).wf(),
            rows is Err ==> final(store)@ == old(store)@,
            exists|ids: Seq<Seq<char>>|
    {
                    &&& all_full_length(ids)
                    &&& ids.len() == move_note_draws(segments(dest@), parents)
                    &&& final(store)@ == (#[trigger] move_note(
                        old(store)@,
                        segments(path@),
                        segments(dest@),
                        overwrite,
                        parents,
                        ids,
                    )).tables
                    &&& rows_view(rows) == move_note(
                        old(store)@,
                        segments(path@),
                        segments(dest@),
                        overwrite,
                        parents,
                        ids,
                    ).result
                },
            !parents || resolve(old(store)@, segments(dest@)) is Ok ==> final(store)@ == move_note(
                old(store)@,
                segments(path@),
                segments(dest@),
                overwrite,
                parents,
                Seq::empty(),
            ).tables && rows_view(rows) == move_note(
                old(store)@,
                segments(path@),
                segments(dest@),
                overwrite,
                parents,
                Seq::empty(),
            ).result,
    {
        let count = if parents {
            split_path(dest).len()
        } else {
            0
        };
        let ids = fresh_ids(count);
        proof {
            lemma_move_settled(
                store@,
                segments(path@),
                segments(dest@),
                overwrite,
                parents,
                ids.deep_view(),
            );
        }
        Self::move_note_with_ids(path, dest, overwrite, parents, &ids, store)
    }

    /// Copies this note into the folder at `dest`.
    pub fn copy_self(
        self,
        dest: &str,
        overwrite: bool,
        parents: bool,
        ids: &Vec<String>,
        store: &mut Store,
    ) -> (rows: Result<usize, Error>)
        requires
            old(store).wf(),
        ensures
            final(store).wf(),
            final(store)@ == copy_row(
                old(store)@,
                self@,
                segments(dest@),
                overwrite,
                parents,
                ids.deep_view(),
            ).tables,
            rows_view(rows) == copy_row(
                old(store)@,
                self@,
                segments(dest@),
                overwrite,
                parents,
                ids.deep_view(),
            ).result,
    {
        let ghost start = store@;
        let ghost way = segments(dest@);
        let ghost supply = ids.deep_view();
        let folders = store.folder_count();
        let notes = store.note_count();
        let folder = split_path(dest);
        if Self::query_at(&folder, &self.title, store).is_ok() && !overwrite {
            return Err(Error::OverwriteNotAllowed);
        }
        if folder.len() == 0 {
            return Err(Error::BookLessNote);
        }
        proof {
            lemma_walk_sound(start, way, parents, supply);
            lemma_walk_lands(start, way, parents, supply);
        }
        let (reached, used) = Folder::query(&folder, parents, ids, store);
        match reached {
            Ok(place) => {
                let parent_id = Folder::get_id(&place);
                let id = if used < ids.len() {
                    ids[used].clone()
                } else {
                    String::new()
                };
                proof {
                    lemma_created_note(store@, self@.title, parent_id@, id@);
                }
                match Self::new(&self.title, &parent_id, id, store) {
                    Ok(made) => {
                        let mut note = made;
                        note.body = self.body;
                        Ok(note.update_self(store))
                    },
                    Err(e) => {
                        store.rollback(folders, notes, Ghost(start));
                        Err(e)
                    },
                }
            },
            Err(e) => {
                store.rollback(folders, notes, Ghost(start));
                Err(e)
            },
        }
    }

    /// Copies the note at `path` into the folder at `dest`, under its own
    /// title, drawing the identifiers of new rows from `ids`: first those of
    /// folders that `parents` has filed, then the copy's. A note of that
    /// title in the way is replaced only with `overwrite`. Returns the number
    /// of rows written.
    pub fn copy_note_with_ids(
        path: &str,
        dest: &str,
        overwrite: bool,
        parents: bool,
        ids: &Vec<String>,
        store: &mut Store,
    ) -> (rows: Result<usize, Error>)
        requires
            old(store).wf(),
        ensures
            final(store).wf(),
            final(store)@ == copy_note(
                old(store)@,
                segments(path@),
                segments(dest@),
                overwrite,
                parents,
                ids.deep_view(),
            ).tables,
            rows_view(rows) == copy_note(
                old(store)@,
                segments(path@),
                segments(dest@),
                overwrite,
                parents,
                ids.deep_view(),
            ).result,
            rows is Err ==> final(store)@ == old(store)@,
    {
        match Self::query(path, store) {
            Ok(note) => note.copy_self(dest, overwrite, parents, ids, store),
            Err(e) => Err(e),
        }
    }

    /// Copies the note at `path` into the folder at `dest`, under its own
    /// title and a new random identifier. A note of that title in the way is
    /// replaced only with `overwrite`; with `parents` set the folders missing
    /// on the way to `dest` are filed. Returns the number of rows written.
    ///
    /// The outcome is that of [`Note::copy_note_with_ids`] for some supply of
    /// full-length identifiers. Where the copy replaces a note no identifier
    /// matters.
    pub fn copy_note(path: &str, dest: &str, overwrite: bool, parents: bool, store: &mut Store) -> (rows:
        Result<usize, Error>)
        requires
            old(store).wf(),
        ensures
            final(store).wf(),
            rows is Err ==> final(store)@ == old(store)@,
            exists|ids: Seq<Seq<char>>|
    {
                    &&& all_full_length(ids)
                    &&& ids.len() == copy_note_draws(segments(dest@), parents)
                    &&& final(store)@ == (#[trigger] copy_note(
                        old(store)@,
                        segments(path@),
                        segments(dest@),
                        overwrite,
                        parents,
                        ids,
                    )).tables
                    &&& rows_view(rows) == copy_note(
                        old(store)@,
                        segments(path@),
                        segments(dest@),
                        overwrite,
                        parents,
                        ids,
                    ).result
                },
            find_note(old(store)@, segments(path@)) matches Ok(row) && note_at(
                old(store)@,
                segments(dest@),
                row.title,
            ) is Ok ==> final(store)@ == copy_note(
                old(store)@,
                segments(path@),
                segments(dest@),
                overwrite,
                parents,
                Seq::empty(),
            ).tables && rows_view(rows) == copy_note(
                old(store)@,
                segments(path@),
                segments(dest@),
                overwrite,
                parents,
                Seq::empty(),
            ).result,
    {
        let count = if parents {
            split_path(dest).len()
        } else {
            0
        };
        let mut ids = fresh_ids(count);
        one_more(&mut ids);
        proof {
            lemma_copy_settled(
                store@,
                segments(path@),
                segments(dest@),
                overwrite,
                parents,
                ids.deep_view(),
            );
        }
        Self::copy_note_with_ids(path, dest, overwrite, parents, &ids, store)
    }
}

/// A note that was filed, or found in place of the one to be filed, is a
/// row of sound tables.
pub proof fn lemma_created_note(t: Tables, title: Seq<char>, parent: Seq<char>, id: Seq<char>)
    requires
        t.wf(),
        folder_id_taken(t.folders, parent),
    ensures
        create_note(t, title, parent, id).tables.wf(),
        create_note(t, title, parent, id).tables.folders == t.folders,
        t.notes.is_prefix_of(create_note(t, title, parent, id).tables.notes),
        create_note(t, title, parent, id).result is Err ==> create_note(t, title, parent, id).tables == t,
        create_note(t, title, parent, id).result matches Ok(row) ==> {
            &&& create_note(t, title, parent, id).tables.notes.contains(row)
            &&& row.title == title
            &&& row.title.len() > 0
            &&& row.parent_id == parent
            &&& note_id_taken(create_note(t, title, parent, id).tables.notes, row.id)
            &&& forall|k: int|
                note_is(create_note(t, title, parent, id).tables.notes, k, parent, title)
                    ==> create_note(t, title, parent, id).tables.notes[k] == row
        },
{
    if title.len() > 0 {
        let made = NoteRow { id, parent_id: parent, title, body: Seq::empty() };
        lemma_file_note_wf(t, made);
        let after = t.file_note(made);
        if t.accepts_note(made) {
            let last = t.notes.len() as int;
            assert(note_is(after.notes, last, parent, title));
        }
        if let Some(row) = note_named(after.notes, parent, title) {
            let i = choose|i: int| note_is(after.notes, i, parent, title);
            assert(after.notes[i] == row);
            lemma_note_row(after, row);
        }
    }
}

/// A move that files nothing does not depend on the identifiers on offer.
pub proof fn lemma_move_settled(
    t: Tables,
    src: Seq<Seq<char>>,
    dest: Seq<Seq<char>>,
    overwrite: bool,
    parents: bool,
    ids: Seq<Seq<char>>,
)
    requires
        t.wf(),
    ensures
        !parents || resolve(t, dest) is Ok ==> move_note(t, src, dest, overwrite, parents, ids)
            == move_note(t, src, dest, overwrite, parents, Seq::empty()),
{
    if !parents {
        lemma_resolve_is_pure(t, dest, ids);
        lemma_resolve_is_pure(t, dest, Seq::empty());
    } else if resolve(t, dest) is Ok {
        lemma_walk_found(t, dest, parents, ids);
        lemma_walk_found(t, dest, parents, Seq::empty());
    }
}

/// A copy onto a note that exists does not depend on the identifiers on offer.
pub proof fn lemma_copy_settled(
    t: Tables,
    src: Seq<Seq<char>>,
    dest: Seq<Seq<char>>,
    overwrite: bool,
    parents: bool,
    ids: Seq<Seq<char>>,
)
    requires
        t.wf(),
    ensures
        find_note(t, src) matches Ok(row) && note_at(t, dest, row.title) is Ok ==> copy_note(
            t,
            src,
            dest,
            overwrite,
            parents,
            ids,
        ) == copy_note(t, src, dest, overwrite, parents, Seq::empty()),
{
    if let Ok(row) = find_note(t, src) {
        if note_at(t, dest, row.title) is Ok {
            lemma_note_at(t, dest, row.title);
            lemma_walk_found(t, dest, parents, ids);
            lemma_walk_found(t, dest, parents, Seq::empty());
        }
    }
}

/// A note that was found is a row of the tables.
pub proof fn lemma_find_note(t: Tables, segs: Seq<Seq<char>>)
    requires
        t.wf(),
        find_note(t, segs) is Ok,
    ensures
        ({
            let row = find_note(t, segs)->Ok_0;
            &&& t.notes.contains(row)
            &&& row.title.len() > 0
            &&& folder_id_taken(t.folders, row.parent_id)
            &&& note_named(t.notes, row.parent_id, row.title) == Some(row)
            &&& note_id_taken(t.notes, row.id)
            &&& forall|k: int| note_is(t.notes, k, row.parent_id, row.title) ==> t.notes[k] == row
        }),
{
    lemma_note_at(t, segs.drop_last(), segs.last());
    let row = find_note(t, segs)->Ok_0;
    let i = t.notes.index_of(row);
    assert(note_has_id(t.notes, i, row.id));
}

/// Making a note that exists changes nothing and returns that note, whatever
/// identifiers are on offer.
pub proof fn lemma_make_existing_note(t: Tables, segs: Seq<Seq<char>>, parents: bool, ids: Seq<Seq<char>>)
    requires
        t.wf(),
    ensures
        find_note(t, segs) matches Ok(row) ==> make_note(t, segs, parents, ids) == (Outcome {
            tables: t,
            result: Ok::<NoteRow, Error>(row),
        }),
{
    if let Ok(row) = find_note(t, segs) {
        lemma_find_note(t, segs);
        lemma_walk_found(t, segs.drop_last(), parents, ids);
    }
}

/// Giving a note another text leaves every note where it is: whatever name
/// led to a note before leads to the note of that identifier afterwards.
pub proof fn lemma_rewrite_keeps_name(t: Tables, there: NoteRow, body: Seq<char>, row: NoteRow)
    requires
        t.wf(),
        t.notes.contains(there),
        t.notes.contains(row),
    ensures
        note_named(t.rewrite_note(with_body(there, body)).notes, row.parent_id, row.title) is Some,
{
    let i = t.notes.index_of(there);
    lemma_note_index(t.folders, t.notes, i);
    assert(note_has_id(t.notes, i, there.id));
    let k = t.notes.index_of(row);
    let after = t.rewrite_note(with_body(there, body)).notes;
    assert(note_is(after, k, row.parent_id, row.title));
}

/// Where no note called `title` could be found under `dest`, none stands in
/// the folder that a walk along `dest` arrives at.
pub proof fn lemma_free_place(
    t: Tables,
    dest: Seq<Seq<char>>,
    parents: bool,
    ids: Seq<Seq<char>>,
    title: Seq<char>,
)
    requires
        t.wf(),
        dest.len() > 0,
        note_at(t, dest, title) is Err,
    ensures
        walk(t, dest, parents, ids).at matches Ok(place) ==> forall|k: int|
            !note_is(walk(t, dest, parents, ids).tables.notes, k, id_of(place), title),
{
    lemma_walk_sound(t, dest, parents, ids);
    let w = walk(t, dest, parents, ids);
    if let Ok(place) = w.at {
        assert forall|k: int| !note_is(w.tables.notes, k, id_of(place), title) by {
            if note_is(w.tables.notes, k, id_of(place), title) {
                if resolve(t, dest) is Ok {
                    assert(note_named(t.notes, id_of(place), title) is None);
                } else {
                    assert(folder_id_taken(t.folders, t.notes[k].parent_id));
                }
            }
        }
    }
}

/// A walk of at least one step that arrives, arrives at a folder, not at the
/// root, and that folder has an identifier.
pub proof fn lemma_walk_lands(t: Tables, segs: Seq<Seq<char>>, create: bool, ids: Seq<Seq<char>>)
    requires
        t.wf(),
        segs.len() > 0,
    ensures
        walk(t, segs, create, ids).at matches Ok(place) ==> place is Some && folder_id_taken(
            walk(t, segs, create, ids).tables.folders,
            id_of(place),
        ),
{
    lemma_walk_sound(t, segs, create, ids);
    let w = walk(t, segs, create, ids);
    if let Ok(place) = w.at {
        assert(place is Some);
        let row = place->Some_0;
        assert(w.tables.folders.contains(row)) by {
            lemma_resolve_has_place(w.tables, segs);
        }
        let i = w.tables.folders.index_of(row);
        assert(w.tables.folders[i].id.len() > 0);
        assert(id_of(place) != root());
    }
}

} // verus!
