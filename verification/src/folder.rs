//! Folders: the inner nodes of the tree.

use vstd::prelude::*;
use crate::error::Error;
use crate::ids::{all_full_length, fresh_ids};
use crate::model::{
    folder_has_id, folder_in, folder_is, folder_named, id_of, lemma_folder_index,
    lemma_folder_named, note_in, FolderRow, NoteRow, Tables,
};
use crate::note::{note_rows, Note};
use crate::path::{segments, split_path};
use crate::store::Store;
use crate::tree::{
    all_or_nothing, create_folder, folder_outside, lemma_created_folder, lemma_filter_skip,
    lemma_filter_take, lemma_last_folder_is_empty, lemma_marked_is_childless,
    lemma_resolve_has_place, lemma_resolve_is_pure, lemma_walk_found, lemma_walk_sound,
    lemma_walk_stops, note_outside, resolve, row_within, subtree_rows, supplied, walk, within,
    without_subtree, Outcome, Walk,
};

verus! {

/// A folder: a node of the tree that holds notes and further folders.
#[derive(Debug, PartialEq, Eq)]
pub struct Folder {
    pub(crate) id: String,
    pub title: String,
    pub(crate) parent_id: String,
}

impl View for Folder {
    type V = FolderRow;

    closed spec fn view(&self) -> FolderRow {
        FolderRow { id: self.id@, title: self.title@, parent_id: self.parent_id@ }
    }
}

impl Clone for Folder {
    fn clone(&self) -> (copy: Self)
        ensures
            copy == *self,
    {
        Folder { id: self.id.clone(), title: self.title.clone(), parent_id: self.parent_id.clone() }
    }
}

/// The model of a folder that may be absent: `None` stands for the root.
pub open spec fn place_view(place: Option<Folder>) -> Option<FolderRow> {
    match place {
        Some(folder) => Some(folder@),
        None => None,
    }
}

/// The model of what making a folder reports.
pub open spec fn made_view(made: Result<Folder, Error>) -> Result<FolderRow, Error> {
    match made {
        Ok(folder) => Ok(folder@),
        Err(e) => Err(e),
    }
}

/// The model of what a walk reports.
pub open spec fn reached_view(reached: Result<Option<Folder>, Error>) -> Result<
    Option<FolderRow>,
    Error,
> {
    match reached {
        Ok(place) => Ok(place_view(place)),
        Err(e) => Err(e),
    }
}

/// Making the folder at `segs`: the walk along all segments but the last,
/// filing what is missing if `parents` is set, and then the folder itself
/// under the place reached, with the next identifier of the supply. A path
/// without segments names no folder. Where the folder cannot be made,
/// nothing is filed at all.
pub open spec fn make_folder(t: Tables, segs: Seq<Seq<char>>, parents: bool, ids: Seq<Seq<char>>) -> Outcome<
    FolderRow,
> {
    if segs.len() == 0 {
        Outcome { tables: t, result: Err(Error::NamelessFolder) }
    } else {
        let way = walk(t, segs.drop_last(), parents, ids);
        all_or_nothing(
            t,
            match way.at {
                Ok(place) => create_folder(way.tables, segs.last(), id_of(place), supplied(ids, way.used)),
                Err(e) => Outcome { tables: way.tables, result: Err(e) },
            },
        )
    }
}

/// The most identifiers that making the folder at `segs` can draw.
pub open spec fn make_folder_draws(segs: Seq<Seq<char>>, parents: bool) -> nat {
    if parents {
        segs.len()
    } else if segs.len() > 0 {
        1
    } else {
        0
    }
}

/// What is filed directly under the folder at `segs`.
pub open spec fn list_folder(t: Tables, segs: Seq<Seq<char>>) -> Result<
    (Seq<FolderRow>, Seq<NoteRow>),
    Error,
> {
    match resolve(t, segs) {
        Ok(place) => Ok((t.child_folders(id_of(place)), t.child_notes(id_of(place)))),
        Err(e) => Err(e),
    }
}

/// The model of a count of rows.
pub open spec fn count_view(rows: Result<usize, Error>) -> Result<nat, Error> {
    match rows {
        Ok(n) => Ok(n as nat),
        Err(e) => Err(e),
    }
}

/// Deleting the folder at `segs`. A folder under which something is filed is
/// deleted only with `recursive` set, and then with everything below it; the
/// count is that of the rows removed. The root cannot be deleted.
pub open spec fn delete_folder(t: Tables, segs: Seq<Seq<char>>, recursive: bool) -> Outcome<nat> {
    match resolve(t, segs) {
        Ok(Some(row)) => if !recursive && !t.is_childless(row.id) {
            Outcome { tables: t, result: Err(Error::NonEmptyBook) }
        } else {
            Outcome { tables: without_subtree(t, row.id), result: Ok(subtree_rows(t, row.id)) }
        },
        Ok(None) => Outcome { tables: t, result: Err(Error::NamelessFolder) },
        Err(e) => Outcome { tables: t, result: Err(e) },
    }
}

/// The model of a listing.
pub open spec fn listing_view(listed: Result<(Vec<Folder>, Vec<Note>), Error>) -> Result<
    (Seq<FolderRow>, Seq<NoteRow>),
    Error,
> {
    match listed {
        Ok(rows) => Ok((folder_rows(rows.0@), note_rows(rows.1@))),
        Err(e) => Err(e),
    }
}

/// Making a folder that exists changes nothing and returns that folder,
/// whatever identifiers are on offer.
pub proof fn lemma_make_existing(t: Tables, segs: Seq<Seq<char>>, parents: bool, ids: Seq<Seq<char>>)
    requires
        t.wf(),
    ensures
        resolve(t, segs) matches Ok(Some(row)) ==> make_folder(t, segs, parents, ids) == (Outcome {
            tables: t,
            result: Ok::<FolderRow, Error>(row),
        }),
{
    if let Ok(Some(row)) = resolve(t, segs) {
        lemma_resolve_is_pure(t, segs.drop_last(), Seq::empty());
        lemma_walk_found(t, segs.drop_last(), parents, ids);
        lemma_resolve_has_place(t, segs);
        let i = t.folders.index_of(row);
        assert(t.folders[i] == row);
    }
}

/// Nothing is filed under a folder exactly when both of its listings are empty.
pub proof fn lemma_children_listed(t: Tables, parent: Seq<char>)
    ensures
        t.is_childless(parent) <==> t.child_folders(parent).len() == 0 && t.child_notes(parent).len()
            == 0,
{
    broadcast use vstd::seq_lib::group_filter_ensures;

    let folders = t.child_folders(parent);
    let notes = t.child_notes(parent);
    if t.is_childless(parent) {
        if folders.len() > 0 {
            assert(folder_in(parent)(folders[0]));
            assert(folders.contains(folders[0]));
            t.folders.lemma_filter_contains_rev(folder_in(parent), folders[0]);
            let k = t.folders.index_of(folders[0]);
            assert(t.folders[k].parent_id == parent);
        }
        if notes.len() > 0 {
            assert(note_in(parent)(notes[0]));
            assert(notes.contains(notes[0]));
            t.notes.lemma_filter_contains_rev(note_in(parent), notes[0]);
            let k = t.notes.index_of(notes[0]);
            assert(t.notes[k].parent_id == parent);
        }
    }
    if folders.len() == 0 && notes.len() == 0 {
        assert forall|i: int| 0 <= i < t.folders.len() implies (#[trigger] t.folders[i]).parent_id
            != parent by {
            if t.folders[i].parent_id == parent {
                assert(folder_in(parent)(t.folders[i]));
                assert(folders.contains(t.folders[i]));
            }
        }
        assert forall|i: int| 0 <= i < t.notes.len() implies (#[trigger] t.notes[i]).parent_id
            != parent by {
            if t.notes[i].parent_id == parent {
                assert(note_in(parent)(t.notes[i]));
                assert(notes.contains(t.notes[i]));
            }
        }
    }
}

/// The models of a list of folders.
pub open spec fn folder_rows(folders: Seq<Folder>) -> Seq<FolderRow> {
    folders.map_values(|folder: Folder| folder@)
}

impl Folder {
    /// A folder row made of its three fields.
    pub fn from_parts(id: String, title: String, parent_id: String) -> (folder: Folder)
        ensures
            folder@ == (FolderRow { id: id@, title: title@, parent_id: parent_id@ }),
    {
        Folder { id, title, parent_id }
    }

    /// The folder's title: the path segment that names it.
    pub fn title(&self) -> (title: &String)
        ensures
            title@ == self@.title,
    {
        &self.title
    }

    /// The identifier under which the children of `place` are filed.
    pub fn get_id(place: &Option<Folder>) -> (id: String)
        ensures
            id@ == id_of(place_view(*place)),
    {
        match place {
            Some(folder) => folder.id.clone(),
            None => String::new(),
        }
    }

    /// Files a folder called `title` under `parent` with the identifier `id`
    /// and returns the folder that stands at that place afterwards: the new
    /// one, or the one that was there already. Nothing is filed when the
    /// place or the identifier is taken.
    pub(crate) fn new(title: &String, parent: &Option<Folder>, id: String, store: &mut Store) -> (made: Result<
        Folder,
        Error,
    >)
        requires
            old(store).wf(),
            old(store)@.has_place(id_of(place_view(*parent))),
        ensures
            final(store).wf(),
            final(store)@ == create_folder(
                old(store)@,
                title@,
                id_of(place_view(*parent)),
                id@,
            ).tables,
            made_view(made) == create_folder(
                old(store)@,
                title@,
                id_of(place_view(*parent)),
                id@,
            ).result,
    {
        if title.as_str().is_empty() {
            return Err(Error::NamelessFolder);
        }
        let parent_id = Self::get_id(parent);
        let folder = Folder { id, title: title.clone(), parent_id: parent_id.clone() };
        store.insert_folder(folder);
        match store.find_folder(&parent_id, title) {
            Some(found) => Ok(found),
            None => Err(Error::NotFound),
        }
    }

    /// Follows `segs` from the root as far as folders exist: returns how
    /// many segments were followed and the folder reached.
    fn locate(segs: &Vec<String>, store: &Store) -> (found: (usize, Option<Folder>))
        requires
            store.wf(),
        ensures
            found.0 <= segs.len(),
            resolve(store@, segs.deep_view().take(found.0 as int)) == Ok::<Option<FolderRow>, Error>(
                place_view(found.1),
            ),
            found.0 < segs.len() ==> folder_named(
                store@.folders,
                id_of(place_view(found.1)),
                segs.deep_view()[found.0 as int],
            ) is None,
            resolve(store@, segs.deep_view()) == (if found.0 == segs.len() {
                Ok::<Option<FolderRow>, Error>(place_view(found.1))
            } else {
                Err::<Option<FolderRow>, Error>(Error::NotFound)
            }),
            store@.has_place(id_of(place_view(found.1))),
    {
        let mut place: Option<Folder> = None;
        let mut i: usize = 0;
        while i < segs.len()
            invariant
                store.wf(),
                i <= segs.len(),
                resolve(store@, segs.deep_view().take(i as int)) == Ok::<Option<FolderRow>, Error>(
                    place_view(place),
                ),
            decreases segs.len() - i,
        {
            let parent_id = Self::get_id(&place);
            match store.find_folder(&parent_id, &segs[i]) {
                Some(folder) => {
                    proof {
                        let path = segs.deep_view();
                        lemma_resolve_is_pure(store@, path.take(i as int), Seq::empty());
                        assert(path.take(i as int + 1).drop_last() == path.take(i as int));
                        assert(path.take(i as int + 1).last() == segs[i as int]@);
                    }
                    place = Some(folder);
                },
                None => {
                    proof {
                        let path = segs.deep_view();
                        lemma_resolve_is_pure(store@, path.take(i as int), Seq::empty());
                        lemma_resolve_has_place(store@, path.take(i as int));
                        assert(path.take(i as int + 1).drop_last() == path.take(i as int));
                        assert(path.take(i as int + 1).last() == path[i as int]);
                        lemma_walk_stops(store@, path, i as int + 1, false, Seq::empty());
                    }
                    return (i, place);
                },
            }
            i = i + 1;
        }
        proof {
            let path = segs.deep_view();
            assert(path.take(i as int) == path);
            lemma_resolve_has_place(store@, path);
        }
        (i, place)
    }

    /// Follows `segs` from the root to the folder they name (`None` for the
    /// root), without filing anything.
    pub fn find(segs: &Vec<String>, store: &Store) -> (reached: Result<Option<Folder>, Error>)
        requires
            store.wf(),
        ensures
            reached_view(reached) == resolve(store@, segs.deep_view()),
            reached matches Ok(place) ==> store@.has_place(id_of(place_view(place))),
    {
        let (followed, place) = Self::locate(segs, store);
        if followed == segs.len() {
            Ok(place)
        } else {
            Err(Error::NotFound)
        }
    }

    /// Follows `segs` from the root to the folder they name (`None` for the
    /// root). With `create` set, every folder missing on the way is filed,
    /// each with the next identifier of `ids`. Returns the folder reached,
    /// or why the walk stopped, and how many identifiers were drawn.
    pub(crate) fn query(segs: &Vec<String>, create: bool, ids: &Vec<String>, store: &mut Store) -> (reached: (
        Result<Option<Folder>, Error>,
        usize,
    ))
        requires
            old(store).wf(),
        ensures
            final(store).wf(),
            final(store)@ == walk(old(store)@, segs.deep_view(), create, ids.deep_view()).tables,
            reached_view(reached.0) == walk(old(store)@, segs.deep_view(), create, ids.deep_view()).at,
            reached.1 == walk(old(store)@, segs.deep_view(), create, ids.deep_view()).used,
            reached.0 matches Ok(place) ==> final(store)@.has_place(id_of(place_view(place))),
    {
        let ghost start = store@;
        let ghost path = segs.deep_view();
        let ghost supply = ids.deep_view();
        let (followed, place) = Self::locate(segs, store);
        if followed == segs.len() {
            proof {
                assert(path.take(followed as int) == path);
                lemma_walk_found(start, path, create, supply);
            }
            return (Ok(place), 0);
        }
        if !create {
            proof {
                lemma_resolve_is_pure(start, path, supply);
            }
            return (Err(Error::NotFound), 0);
        }
        proof {
            lemma_walk_found(start, path.take(followed as int), create, supply);
        }
        let mut place = place;
        let mut at: usize = followed;
        let mut used: usize = 0;
        while at < segs.len()
            invariant
                create,
                start == old(store)@,
                store.wf(),
                path == segs.deep_view(),
                supply == ids.deep_view(),
                followed <= at <= segs.len(),
                used == at - followed,
                walk(start, path.take(at as int), true, supply) == (Walk {
                    tables: store@,
                    at: Ok(place_view(place)),
                    used: used as nat,
                }),
                store@.has_place(id_of(place_view(place))),
                at < segs.len() ==> folder_named(
                    store@.folders,
                    id_of(place_view(place)),
                    path[at as int],
                ) is None,
            decreases segs.len() - at,
        {
            let ghost before = store@;
            let id = if used < ids.len() {
                ids[used].clone()
            } else {
                String::new()
            };
            proof {
                assert(id@ == supplied(supply, used as nat));
                assert(path.take(at as int + 1).drop_last() == path.take(at as int));
                assert(path.take(at as int + 1).last() == path[at as int]);
            }
            match Self::new(&segs[at], &place, id, store) {
                Ok(folder) => {
                    proof {
                        let made = FolderRow {
                            id: id@,
                            title: path[at as int],
                            parent_id: id_of(place_view(place)),
                        };
                        if before.accepts_folder(made) {
                            let last = before.folders.len() as int;
                            assert(folder_is(store@.folders, last, made.parent_id, made.title));
                            lemma_folder_named(store@.folders, last, made.parent_id, made.title);
                            assert(folder_has_id(store@.folders, last, folder@.id));
                            if at + 1 < segs.len() {
                                lemma_last_folder_is_empty(store@.folders, path[at as int + 1]);
                            }
                        }
                    }
                    place = Some(folder);
                },
                Err(e) => {
                    proof {
                        lemma_walk_stops(start, path, at as int + 1, true, supply);
                    }
                    return (Err(e), used + 1);
                },
            }
            used = used + 1;
            at = at + 1;
        }
        proof {
            assert(path.take(at as int) == path);
        }
        (Ok(place), used)
    }

    /// Makes the folder that the segments name, with the identifiers of `ids`.
    fn make_at(segs: Vec<String>, parents: bool, ids: &Vec<String>, store: &mut Store) -> (made: Result<
        Folder,
        Error,
    >)
        requires
            old(store).wf(),
        ensures
            final(store).wf(),
            final(store)@ == make_folder(old(store)@, segs.deep_view(), parents, ids.deep_view()).tables,
            made_view(made) == make_folder(
                old(store)@,
                segs.deep_view(),
                parents,
                ids.deep_view(),
            ).result,
    {
        let ghost start = store@;
        let ghost path = segs.deep_view();
        let folders = store.folder_count();
        let notes = store.note_count();
        let mut segs = segs;
        match segs.pop() {
            Some(title) => {
                proof {
                    assert(segs.deep_view() =~= path.drop_last());
                    assert(title@ == path.last());
                    lemma_walk_sound(start, path.drop_last(), parents, ids.deep_view());
                }
                let (reached, used) = Self::query(&segs, parents, ids, store);
                match reached {
                    Ok(parent) => {
                        let id = if used < ids.len() {
                            ids[used].clone()
                        } else {
                            String::new()
                        };
                        proof {
                            lemma_created_folder(store@, title@, id_of(place_view(parent)), id@);
                        }
                        match Self::new(&title, &parent, id, store) {
                            Ok(folder) => Ok(folder),
                            Err(e) => {
                                store.rollback(folders, notes, Ghost(start));
                                Err(e)
                            },
                        }
                    },
                    Err(e) => {
                        store.rollback(folders, notes, Ghost(start));
                        Err(e)
                    },
                }
            },
            None => Err(Error::NamelessFolder),
        }
    }

    /// Makes the folder at `path`, drawing the identifiers of new rows from
    /// `ids` in order: first those of the parents that are missing, if
    /// `parents` asks for them, then the folder's own. Returns the folder
    /// that stands at `path` afterwards; a folder that was there already is
    /// returned as it is. Where an identifier is in use, or none is left,
    /// the folder cannot be made, and nothing is filed.
    pub fn make_with_ids(path: &str, parents: bool, ids: &Vec<String>, store: &mut Store) -> (made: Result<
        Folder,
        Error,
    >)
        requires
            old(store).wf(),
        ensures
            final(store).wf(),
            final(store)@ == make_folder(old(store)@, segments(path@), parents, ids.deep_view()).tables,
            made_view(made) == make_folder(
                old(store)@,
                segments(path@),
                parents,
                ids.deep_view(),
            ).result,
            made is Err ==> final(store)@ == old(store)@,
    {
        Self::make_at(split_path(path), parents, ids, store)
    }

    /// Makes the folder at `path` under a new random identifier, and with
    /// `parents` set every folder missing above it. Returns the folder that
    /// stands at `path` afterwards.
    ///
    /// Which identifiers the new rows get is left to chance, so the contract
    /// says that the outcome is that of [`Folder::make_with_ids`] for some
    /// supply of full-length identifiers. Where `path` already names a
    /// folder no identifier matters: that folder is returned and nothing
    /// changes.
    pub fn make(path: &str, parents: bool, store: &mut Store) -> (made: Result<Folder, Error>)
        requires
            old(store).wf(),
        ensures
            final(store).wf(),
            made is Err ==> final(store)@ == old(store)@,
            exists|ids: Seq<Seq<char>>|
    {
                    &&& all_full_length(ids)
                    &&& ids.len() == make_folder_draws(segments(path@), parents)
                    &&& final(store)@ == (#[trigger] make_folder(
                        old(store)@,
                        segments(path@),
                        parents,
                        ids,
                    )).tables
                    &&& made_view(made) == make_folder(old(store)@, segments(path@), parents, ids).result
                },
            resolve(old(store)@, segments(path@)) matches Ok(Some(row)) ==> final(store)@ == old(
                store,
            )@ && made_view(made) == Ok::<FolderRow, Error>(row),
    {
        let segs = split_path(path);
        let count = if parents {
            segs.len()
        } else if segs.len() > 0 {
            1
        } else {
            0
        };
        let ids = fresh_ids(count);
        proof {
            lemma_make_existing(store@, segs.deep_view(), parents, ids.deep_view());
        }
        Self::make_at(segs, parents, &ids, store)
    }

    /// What is filed directly under `folder`, or under the root.
    pub fn list_optional_folder(folder: &Option<Folder>, store: &Store) -> (listed: (
        Vec<Folder>,
        Vec<Note>,
    ))
        ensures
            folder_rows(listed.0@) == store@.child_folders(id_of(place_view(*folder))),
            note_rows(listed.1@) == store@.child_notes(id_of(place_view(*folder))),
    {
        let parent_id = Self::get_id(folder);
        store.children(&parent_id)
    }

    /// Lists the folders and the notes filed directly under the folder at
    /// `path`; the empty path and `/` name the root.
    pub fn list(path: &str, store: &Store) -> (listed: Result<(Vec<Folder>, Vec<Note>), Error>)
        requires
            store.wf(),
        ensures
            listing_view(listed) == list_folder(store@, segments(path@)),
    {
        let segs = split_path(path);
        let (followed, place) = Self::locate(&segs, store);
        if followed == segs.len() {
            Ok(Self::list_optional_folder(&place, store))
        } else {
            Err(Error::NotFound)
        }
    }

    /// Marks every folder row that is the folder `top` or lies below it.
    /// One pass suffices, since a folder is always filed after its parent.
    fn mark_subtree(store: &Store, top: &String) -> (marks: Vec<bool>)
        requires
            store.wf(),
        ensures
            marks.len() == store@.folders.len(),
            forall|k: int|
                0 <= k < marks.len() ==> marks[k] == row_within(store@.folders, k, top@),
    {
        let count = store.folder_count();
        let mut marks: Vec<bool> = Vec::new();
        let mut i: usize = 0;
        while i < count
            invariant
                store.wf(),
                count == store@.folders.len(),
                i <= count,
                marks.len() == i,
                forall|k: int| 0 <= k < i ==> marks[k] == row_within(store@.folders, k, top@),
            decreases count - i,
        {
            let row = store.folder_at(i);
            let mark = if *row.id() == *top {
                true
            } else {
                match store.folder_position(row.parent_id()) {
                    Some(parent) => {
                        proof {
                            lemma_folder_index(store@.folders, parent as int);
                        }
                        parent < i && marks[parent]
                    },
                    None => false,
                }
            };
            marks.push(mark);
            i = i + 1;
        }
        marks
    }

    /// Removes every note that lies in a marked folder.
    fn sweep_notes(store: &mut Store, marks: &Vec<bool>, top: &String)
        requires
            old(store).wf(),
            marks.len() == old(store)@.folders.len(),
            forall|k: int|
                0 <= k < marks.len() ==> marks[k] == row_within(old(store)@.folders, k, top@),
        ensures
            final(store).wf(),
            final(store)@.folders == old(store)@.folders,
            final(store)@.notes == old(store)@.notes.filter(note_outside(old(store)@.folders, top@)),
    {
        let ghost start = store@;
        let ghost keep = note_outside(start.folders, top@);
        let count = store.note_count();
        let mut seen: usize = 0;
        let mut at: usize = 0;
        proof {
            reveal(Seq::filter);
            assert(start.notes.take(0).filter(keep) + start.notes.skip(0) =~= start.notes);
        }
        while seen < count
            invariant
                store.wf(),
                start.wf(),
                count == start.notes.len(),
                keep == note_outside(start.folders, top@),
                marks.len() == start.folders.len(),
                forall|k: int| 0 <= k < marks.len() ==> marks[k] == row_within(start.folders, k, top@),
                at <= seen <= count,
                store@.folders == start.folders,
                at == start.notes.take(seen as int).filter(keep).len(),
                store@.notes == start.notes.take(seen as int).filter(keep) + start.notes.skip(
                    seen as int,
                ),
            decreases count - seen,
        {
            let ghost kept = start.notes.take(seen as int).filter(keep);
            let ghost before = store@.notes;
            proof {
                lemma_filter_take(start.notes, seen as int, keep);
                assert(before[at as int] == start.notes[seen as int]);
            }
            let note = store.note_at(at);
            let doomed = match store.folder_position(note.parent_id()) {
                Some(parent) => {
                    proof {
                        lemma_folder_index(start.folders, parent as int);
                    }
                    marks[parent]
                },
                None => false,
            };
            proof {
                assert(doomed == within(start.folders, note@.parent_id, top@));
                assert(keep(note@) == !doomed);
            }
            if doomed {
                store.remove_note_at(at);
                proof {
                    assert(store@.notes =~= kept + start.notes.skip(seen as int + 1));
                }
            } else {
                proof {
                    assert(before =~= kept.push(start.notes[seen as int]) + start.notes.skip(
                        seen as int + 1,
                    ));
                }
                at = at + 1;
            }
            seen = seen + 1;
        }
        proof {
            assert(start.notes.take(seen as int) == start.notes);
            assert(store@.notes =~= start.notes.filter(keep));
        }
    }

    /// Removes every marked folder, those filed last first, so that a folder
    /// goes after everything below it.
    fn sweep_folders(store: &mut Store, marks: &Vec<bool>, top: &String, Ghost(start): Ghost<Tables>)
        requires
            old(store).wf(),
            start.wf(),
            old(store)@.folders == start.folders,
            old(store)@.notes == start.notes.filter(note_outside(start.folders, top@)),
            marks.len() == start.folders.len(),
            forall|k: int| 0 <= k < marks.len() ==> marks[k] == row_within(start.folders, k, top@),
        ensures
            final(store).wf(),
            final(store)@ == without_subtree(start, top@),
    {
        let ghost keep = folder_outside(start.folders, top@);
        let ghost notes = store@.notes;
        let mut i: usize = store.folder_count();
        proof {
            reveal(Seq::filter);
            assert(start.folders.take(i as int) + start.folders.skip(i as int).filter(keep)
                =~= start.folders);
        }
        while i > 0
            invariant
                store.wf(),
                start.wf(),
                keep == folder_outside(start.folders, top@),
                notes == start.notes.filter(note_outside(start.folders, top@)),
                marks.len() == start.folders.len(),
                forall|k: int| 0 <= k < marks.len() ==> marks[k] == row_within(start.folders, k, top@),
                i <= start.folders.len(),
                store@.notes == notes,
                store@.folders == start.folders.take(i as int) + start.folders.skip(i as int).filter(
                    keep,
                ),
            decreases i,
        {
            i = i - 1;
            let ghost rest = start.folders.skip(i as int + 1).filter(keep);
            let ghost before = store@;
            proof {
                lemma_filter_skip(start.folders, i as int, keep);
                lemma_folder_index(start.folders, i as int);
                assert(keep(start.folders[i as int]) == !marks[i as int]);
                assert(before.folders[i as int] == start.folders[i as int]);
            }
            if marks[i] {
                proof {
                    lemma_marked_is_childless(start, before, i as int, top@);
                }
                store.remove_folder_at(i);
                proof {
                    assert(store@.folders =~= start.folders.take(i as int) + rest);
                }
            } else {
                proof {
                    assert(before.folders =~= start.folders.take(i as int) + (
                    seq![start.folders[i as int]] + rest));
                }
            }
        }
        proof {
            assert(start.folders.skip(0) == start.folders);
            assert(store@.folders =~= start.folders.filter(keep));
        }
    }

    /// Deletes this folder. With `recursive` set everything below it goes
    /// first; without, the folder must have nothing filed under it. Returns
    /// the number of rows removed.
    pub fn delete_folder(&self, recursive: bool, store: &mut Store) -> (rows: Result<usize, Error>)
        requires
            old(store).wf(),
            old(store)@.folders.len() + old(store)@.notes.len() <= usize::MAX,
        ensures
            final(store).wf(),
            !recursive && !old(store)@.is_childless(self@.id) ==> final(store)@ == old(store)@
                && rows == Err::<usize, Error>(Error::NonEmptyBook),
            recursive || old(store)@.is_childless(self@.id) ==> final(store)@ == without_subtree(
                old(store)@,
                self@.id,
            ) && rows == Ok::<usize, Error>(subtree_rows(old(store)@, self@.id) as usize),
    {
        let ghost start = store@;
        if !recursive {
            let (folders, notes) = Self::list_optional_folder(&Some(self.clone()), store);
            if !(folders.is_empty() && notes.is_empty()) {
                proof {
                    lemma_children_listed(start, self@.id);
                }
                return Err(Error::NonEmptyBook);
            }
            proof {
                lemma_children_listed(start, self@.id);
            }
        }
        let folders_before = store.folder_count();
        let notes_before = store.note_count();
        let marks = Self::mark_subtree(store, &self.id);
        Self::sweep_notes(store, &marks, &self.id);
        Self::sweep_folders(store, &marks, &self.id, Ghost(start));
        proof {
            start.folders.lemma_filter_len(folder_outside(start.folders, self@.id));
            start.notes.lemma_filter_len(note_outside(start.folders, self@.id));
        }
        Ok((folders_before - store.folder_count()) + (notes_before - store.note_count()))
    }

    /// Deletes the folder at `path`, and with `recursive` set everything
    /// below it. Returns the number of rows removed. Whatever fails, nothing
    /// is removed.
    pub fn delete(path: &str, recursive: bool, store: &mut Store) -> (rows: Result<usize, Error>)
        requires
            old(store).wf(),
            old(store)@.folders.len() + old(store)@.notes.len() <= usize::MAX,
        ensures
            final(store).wf(),
            final(store)@ == delete_folder(old(store)@, segments(path@), recursive).tables,
            count_view(rows) == delete_folder(old(store)@, segments(path@), recursive).result,
            rows is Err ==> final(store)@ == old(store)@,
    {
        let segs = split_path(path);
        let (followed, place) = Self::locate(&segs, store);
        if followed < segs.len() {
            return Err(Error::NotFound);
        }
        match place {
            Some(folder) => folder.delete_folder(recursive, store),
            None => Err(Error::NamelessFolder),
        }
    }

    /// The folder's identifier.
    pub fn id(&self) -> (id: &String)
        ensures
            id@ == self@.id,
    {
        &self.id
    }

    /// The identifier of the folder this one lies in; empty for a folder at the root.
    pub fn parent_id(&self) -> (id: &String)
        ensures
            id@ == self@.parent_id,
    {
        &self.parent_id
    }
}

} // verus!
