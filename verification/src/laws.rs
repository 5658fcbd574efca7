//! What holds of the operations taken together.

use vstd::prelude::*;
use crate::commands::{run, Command};
use crate::error::Error;
use crate::folder::{delete_folder, list_folder, make_folder};
use crate::model::{
    folder_has_id, folder_id_taken, folder_in, folder_index, folder_is, folders_wf, id_of,
    lemma_file_folder_wf, lemma_folder_index, lemma_folder_named, lemma_folders_apart,
    lemma_note_index, lemma_note_named, lemma_notes_apart, lemma_remove_note_wf,
    lemma_rewrite_note_wf, note_has_id, note_in, note_is, FolderRow, NoteRow, Tables,
};
use crate::note::{
    copy_note, create_note, delete_note, find_note, lemma_created_note, lemma_find_note,
    lemma_free_place, lemma_note_at, lemma_walk_lands, make_note, move_note, note_at, update_note,
    with_body, with_parent,
};
use crate::path::segments;
use crate::tree::{
    descendant_rows, folder_below, folder_outside, lemma_child_within, lemma_created_folder,
    lemma_filter_all, lemma_filter_but_one, lemma_filter_one_more, lemma_filter_split,
    lemma_last_folder_is_empty, lemma_resolve_grows, lemma_resolve_has_place, lemma_resolve_is_pure,
    lemma_walk_found, lemma_walk_sound, lemma_within_after, lemma_within_has_child,
    lemma_without_subtree_wf, note_below, note_outside, resolve, row_within, subtree_rows, supplied,
    walk, within, without_subtree, Outcome,
};

verus! {

/// A folder that was made is listed under the folder above it: after
/// making the folder at a path, the listing of all segments but the last
/// holds the folder that was returned, under the last segment as its title.
pub proof fn law_made_folder_is_listed(
    t: Tables,
    segs: Seq<Seq<char>>,
    parents: bool,
    ids: Seq<Seq<char>>,
)
    requires
        t.wf(),
    ensures
        make_folder(t, segs, parents, ids).result matches Ok(made) ==> {
            &&& made.title == segs.last()
            &&& list_folder(make_folder(t, segs, parents, ids).tables, segs.drop_last()) matches Ok(
                listed,
            ) && listed.0.contains(made)
        },
{
    broadcast use vstd::seq_lib::group_filter_ensures;

    let outcome = make_folder(t, segs, parents, ids);
    if let Ok(made) = outcome.result {
        let way = walk(t, segs.drop_last(), parents, ids);
        lemma_walk_sound(t, segs.drop_last(), parents, ids);
        let place = way.at->Ok_0;
        let row = FolderRow { id: supplied(ids, way.used), title: segs.last(), parent_id: id_of(place) };
        lemma_file_folder_wf(way.tables, row);
        lemma_resolve_grows(way.tables, outcome.tables, segs.drop_last());
        let i = choose|i: int| folder_is(outcome.tables.folders, i, id_of(place), segs.last());
        assert(outcome.tables.folders[i] == made);
        assert(folder_in(id_of(place))(outcome.tables.folders[i]));
    }
}

/// A note that was made is listed in its folder: after making the note at
/// a path, the listing of all segments but the last holds the note that was
/// returned, under the last segment as its title.
pub proof fn law_made_note_is_listed(t: Tables, segs: Seq<Seq<char>>, parents: bool, ids: Seq<Seq<char>>)
    requires
        t.wf(),
    ensures
        make_note(t, segs, parents, ids).result matches Ok(made) ==> {
            &&& made.title == segs.last()
            &&& list_folder(make_note(t, segs, parents, ids).tables, segs.drop_last()) matches Ok(
                listed,
            ) && listed.1.contains(made)
        },
{
    broadcast use vstd::seq_lib::group_filter_ensures;

    let outcome = make_note(t, segs, parents, ids);
    if let Ok(made) = outcome.result {
        let way = walk(t, segs.drop_last(), parents, ids);
        lemma_walk_sound(t, segs.drop_last(), parents, ids);
        lemma_walk_lands(t, segs.drop_last(), parents, ids);
        let place = way.at->Ok_0;
        lemma_created_note(way.tables, segs.last(), id_of(place), supplied(ids, way.used));
        lemma_resolve_grows(way.tables, outcome.tables, segs.drop_last());
        let i = outcome.tables.notes.index_of(made);
        assert(note_in(id_of(place))(outcome.tables.notes[i]));
    }
}

/// Deleting a folder that was just made undoes the making: where the path
/// named no folder before but the folder above it existed, deleting the new
/// folder removes one row and leaves the store, and so the listing of the
/// folder above, as they were.
pub proof fn law_delete_undoes_make(
    t: Tables,
    segs: Seq<Seq<char>>,
    parents: bool,
    ids: Seq<Seq<char>>,
    recursive: bool,
)
    requires
        t.wf(),
        resolve(t, segs.drop_last()) is Ok,
        resolve(t, segs) is Err,
    ensures
        make_folder(t, segs, parents, ids).result is Ok ==> {
            &&& delete_folder(make_folder(t, segs, parents, ids).tables, segs, recursive) == (Outcome {
                tables: t,
                result: Ok::<nat, Error>(1),
            })
            &&& list_folder(
                delete_folder(make_folder(t, segs, parents, ids).tables, segs, recursive).tables,
                segs.drop_last(),
            ) == list_folder(t, segs.drop_last())
        },
{
    let outcome = make_folder(t, segs, parents, ids);
    if let Ok(made) = outcome.result {
        lemma_resolve_is_pure(t, segs.drop_last(), Seq::empty());
        lemma_walk_found(t, segs.drop_last(), parents, ids);
        let place = resolve(t, segs.drop_last())->Ok_0;
        let row = FolderRow { id: supplied(ids, 0), title: segs.last(), parent_id: id_of(place) };
        lemma_resolve_has_place(t, segs.drop_last());
        lemma_file_folder_wf(t, row);
        let after = outcome.tables;
        let last = t.folders.len() as int;
        assert(t.accepts_folder(row));
        assert(after.folders == t.folders.push(row));
        assert(folder_is(after.folders, last, row.parent_id, row.title));
        lemma_folder_named(after.folders, last, row.parent_id, row.title);
        assert(made == row);
        lemma_resolve_grows(t, after, segs.drop_last());
        lemma_resolve_is_pure(after, segs.drop_last(), Seq::empty());
        assert(resolve(after, segs) == Ok::<Option<FolderRow>, Error>(Some(row)));
        lemma_new_folder_alone(t, row);
    }
}

/// Deleting a note that was just made undoes the making: where the path
/// named no note before but its folder existed, deleting the new note
/// removes one row and leaves the store as it was.
pub proof fn law_delete_undoes_make_note(
    t: Tables,
    segs: Seq<Seq<char>>,
    parents: bool,
    ids: Seq<Seq<char>>,
)
    requires
        t.wf(),
        resolve(t, segs.drop_last()) is Ok,
        find_note(t, segs) is Err,
    ensures
        make_note(t, segs, parents, ids).result is Ok ==> delete_note(
            make_note(t, segs, parents, ids).tables,
            segs,
        ) == (Outcome { tables: t, result: Ok::<nat, Error>(1) }),
{
    let outcome = make_note(t, segs, parents, ids);
    if let Ok(made) = outcome.result {
        lemma_walk_found(t, segs.drop_last(), parents, ids);
        lemma_walk_lands(t, segs.drop_last(), parents, ids);
        let place = resolve(t, segs.drop_last())->Ok_0;
        let row = NoteRow {
            id: supplied(ids, 0),
            parent_id: id_of(place),
            title: segs.last(),
            body: Seq::empty(),
        };
        lemma_created_note(t, segs.last(), id_of(place), supplied(ids, 0));
        let after = outcome.tables;
        let last = t.notes.len() as int;
        assert(t.accepts_note(row));
        assert(after.notes == t.notes.push(row));
        assert(note_is(after.notes, last, row.parent_id, row.title));
        lemma_note_named(after.folders, after.notes, last, row.parent_id, row.title);
        lemma_resolve_grows(t, after, segs.drop_last());
        let c = choose|c: int| note_is(after.notes, c, row.parent_id, row.title);
        assert(note_is(after.notes, c, row.parent_id, row.title));
        if c != last {
            lemma_notes_apart(after.folders, after.notes, c, last);
        }
        assert(after.notes.remove(last) =~= t.notes);
    }
}

/// A folder filed last under a new identifier is all there is at and below
/// it: removing it with what is below gives back the tables from before,
/// and nothing is filed under it.
pub proof fn lemma_new_folder_alone(t: Tables, row: FolderRow)
    requires
        t.wf(),
        t.accepts_folder(row),
        (Tables { folders: t.folders.push(row), notes: t.notes }).wf(),
    ensures
        without_subtree(Tables { folders: t.folders.push(row), notes: t.notes }, row.id) == t,
        subtree_rows(Tables { folders: t.folders.push(row), notes: t.notes }, row.id) == 1,
        (Tables { folders: t.folders.push(row), notes: t.notes }).is_childless(row.id),
{
    lemma_new_folder_leaves_folders(t.folders, row);
    lemma_new_folder_leaves_notes(t, row);
    lemma_new_folder_is_childless(t, row);
}

/// Only the folder filed last is within itself.
proof fn lemma_new_folder_leaves_folders(folders: Seq<FolderRow>, row: FolderRow)
    requires
        folders_wf(folders.push(row)),
    ensures
        folders.push(row).filter(folder_outside(folders.push(row), row.id)) == folders,
{
    let after = folders.push(row);
    let last = folders.len() as int;
    let keep = folder_outside(after, row.id);
    lemma_folder_index(after, last);
    assert(!keep(after[last]));
    assert forall|i: int| 0 <= i < after.len() && i != last implies keep(#[trigger] after[i]) by {
        lemma_folder_index(after, i);
        if row_within(after, i, row.id) {
            lemma_within_after(after, i, last);
        }
    }
    lemma_filter_but_one(after, keep, last);
    assert(after.remove(last) =~= folders);
}

/// No note lies within a folder that was filed last under a new identifier.
proof fn lemma_new_folder_leaves_notes(t: Tables, row: FolderRow)
    requires
        t.wf(),
        !folder_id_taken(t.folders, row.id),
        folders_wf(t.folders.push(row)),
    ensures
        t.notes.filter(note_outside(t.folders.push(row), row.id)) == t.notes,
{
    let after = t.folders.push(row);
    let last = t.folders.len() as int;
    let keep = note_outside(after, row.id);
    assert forall|i: int| 0 <= i < t.notes.len() implies keep(#[trigger] t.notes[i]) by {
        let j = choose|j: int| folder_has_id(t.folders, j, t.notes[i].parent_id);
        assert(folder_has_id(t.folders, j, t.notes[i].parent_id));
        assert(after[j] == t.folders[j]);
        lemma_folder_index(after, j);
        if row_within(after, j, row.id) {
            lemma_within_after(after, j, last);
        }
    }
    lemma_filter_all(t.notes, keep);
}

/// Nothing is filed under a folder that was filed last under a new identifier.
proof fn lemma_new_folder_is_childless(t: Tables, row: FolderRow)
    requires
        t.wf(),
        !folder_id_taken(t.folders, row.id),
        folders_wf(t.folders.push(row)),
    ensures
        (Tables { folders: t.folders.push(row), notes: t.notes }).is_childless(row.id),
{
    let after = t.folders.push(row);
    assert forall|i: int| 0 <= i < after.len() implies (#[trigger] after[i]).parent_id != row.id by {
        if after[i].parent_id == row.id {
            assert(folder_is(after, i, row.id, after[i].title));
            lemma_last_folder_is_empty(after, after[i].title);
        }
    }
    assert forall|i: int| 0 <= i < t.notes.len() implies (#[trigger] t.notes[i]).parent_id != row.id by {
        assert(folder_id_taken(t.folders, t.notes[i].parent_id));
    }
}

/// What lies within a folder, in sound tables: the folder itself, and every
/// folder that is filed under one that lies within it.
pub proof fn law_within_unfolds(folders: Seq<FolderRow>, i: int, top: Seq<char>)
    requires
        folders_wf(folders),
        0 <= i < folders.len(),
    ensures
        row_within(folders, i, top) <==> folders[i].id == top || within(
            folders,
            folders[i].parent_id,
            top,
        ),
{
    if folders[i].id != top && within(folders, folders[i].parent_id, top) {
        let parent = folder_index(folders, folders[i].parent_id);
        assert(folder_has_id(folders, parent, folders[i].parent_id));
        lemma_child_within(folders, i, parent, top);
    }
}

/// A recursive delete removes the folder and exactly what lies below it, and
/// counts the rows below it plus one.
pub proof fn law_recursive_delete_counts(t: Tables, segs: Seq<Seq<char>>)
    requires
        t.wf(),
    ensures
        resolve(t, segs) matches Ok(Some(row)) ==> delete_folder(t, segs, true) == (Outcome {
            tables: without_subtree(t, row.id),
            result: Ok::<nat, Error>(descendant_rows(t, row.id) + 1),
        }),
{
    if let Ok(Some(row)) = resolve(t, segs) {
        lemma_resolve_has_place(t, segs);
        let k = t.folders.index_of(row);
        lemma_subtree_count(t, k);
    }
}

/// The rows at and below a folder are the rows below it and the folder itself.
pub proof fn lemma_subtree_count(t: Tables, k: int)
    requires
        t.wf(),
        0 <= k < t.folders.len(),
    ensures
        subtree_rows(t, t.folders[k].id) == descendant_rows(t, t.folders[k].id) + 1,
{
    let top = t.folders[k].id;
    let inside = |row: FolderRow| within(t.folders, row.id, top);
    let below = folder_below(t.folders, top);
    let outside = folder_outside(t.folders, top);
    lemma_folder_index(t.folders, k);
    assert forall|i: int| 0 <= i < t.folders.len() implies inside(#[trigger] t.folders[i]) == !outside(
        t.folders[i],
    ) by {}
    lemma_filter_split(t.folders, inside, outside);
    assert forall|i: int| 0 <= i < t.folders.len() && i != k implies inside(#[trigger] t.folders[i])
        == below(t.folders[i]) by {
        lemma_folders_apart(t.folders, i, k);
    }
    lemma_filter_one_more(t.folders, inside, below, k);
    let note_inside = note_below(t.folders, top);
    let note_out = note_outside(t.folders, top);
    assert forall|i: int| 0 <= i < t.notes.len() implies note_inside(#[trigger] t.notes[i]) == !note_out(
        t.notes[i],
    ) by {}
    lemma_filter_split(t.notes, note_inside, note_out);
}

/// A delete without `recursive` of a folder under which something is filed
/// is refused as `NonEmptyBook` and leaves the store as it was.
pub proof fn law_refused_delete_changes_nothing(t: Tables, segs: Seq<Seq<char>>)
    ensures
        resolve(t, segs) matches Ok(Some(row)) && !t.is_childless(row.id) ==> delete_folder(
            t,
            segs,
            false,
        ) == (Outcome { tables: t, result: Err::<nat, Error>(Error::NonEmptyBook) }),
{
}

/// Deleting a folder under which nothing is filed removes that one row,
/// with or without `recursive`.
pub proof fn law_childless_delete_removes_one(t: Tables, segs: Seq<Seq<char>>, recursive: bool)
    requires
        t.wf(),
    ensures
        resolve(t, segs) matches Ok(Some(row)) ==> (t.is_childless(row.id) ==> delete_folder(
            t,
            segs,
            recursive,
        ) == (Outcome {
            tables: Tables { folders: t.folders.remove(t.folders.index_of(row)), notes: t.notes },
            result: Ok::<nat, Error>(1),
        })),
{
    if let Ok(Some(row)) = resolve(t, segs) {
        if t.is_childless(row.id) {
            lemma_resolve_has_place(t, segs);
            let k = t.folders.index_of(row);
            let keep = folder_outside(t.folders, row.id);
            lemma_folder_index(t.folders, k);
            assert forall|i: int| 0 <= i < t.folders.len() && i != k implies keep(
                #[trigger] t.folders[i],
            ) by {
                lemma_folder_index(t.folders, i);
                lemma_folders_apart(t.folders, i, k);
                if row_within(t.folders, i, row.id) {
                    lemma_within_has_child(t.folders, i, row.id);
                }
            }
            lemma_filter_but_one(t.folders, keep, k);
            let keep_note = note_outside(t.folders, row.id);
            assert forall|i: int| 0 <= i < t.notes.len() implies keep_note(#[trigger] t.notes[i]) by {
                let j = choose|j: int| folder_has_id(t.folders, j, t.notes[i].parent_id);
                assert(folder_has_id(t.folders, j, t.notes[i].parent_id));
                lemma_folder_index(t.folders, j);
                if row_within(t.folders, j, row.id) {
                    if j != k {
                        lemma_folders_apart(t.folders, j, k);
                        lemma_within_has_child(t.folders, j, row.id);
                    }
                }
            }
            lemma_filter_all(t.notes, keep_note);
        }
    }
}

/// Making a folder keeps the tables sound.
pub proof fn law_make_folder_keeps_soundness(
    t: Tables,
    segs: Seq<Seq<char>>,
    parents: bool,
    ids: Seq<Seq<char>>,
)
    requires
        t.wf(),
    ensures
        make_folder(t, segs, parents, ids).tables.wf(),
{
    if segs.len() > 0 {
        let way = walk(t, segs.drop_last(), parents, ids);
        lemma_walk_sound(t, segs.drop_last(), parents, ids);
        if let Ok(place) = way.at {
            lemma_created_folder(way.tables, segs.last(), id_of(place), supplied(ids, way.used));
        }
    }
}

/// Deleting a folder keeps the tables sound.
pub proof fn law_delete_folder_keeps_soundness(t: Tables, segs: Seq<Seq<char>>, recursive: bool)
    requires
        t.wf(),
    ensures
        delete_folder(t, segs, recursive).tables.wf(),
{
    if let Ok(Some(row)) = resolve(t, segs) {
        lemma_without_subtree_wf(t, row.id);
    }
}

/// Making a note keeps the tables sound.
pub proof fn law_make_note_keeps_soundness(
    t: Tables,
    segs: Seq<Seq<char>>,
    parents: bool,
    ids: Seq<Seq<char>>,
)
    requires
        t.wf(),
    ensures
        make_note(t, segs, parents, ids).tables.wf(),
{
    if segs.len() >= 2 {
        let way = walk(t, segs.drop_last(), parents, ids);
        lemma_walk_sound(t, segs.drop_last(), parents, ids);
        lemma_walk_lands(t, segs.drop_last(), parents, ids);
        if let Ok(place) = way.at {
            lemma_created_note(way.tables, segs.last(), id_of(place), supplied(ids, way.used));
        }
    }
}

/// Giving a note another text, and deleting a note, keep the tables sound.
pub proof fn law_update_and_delete_note_keep_soundness(t: Tables, segs: Seq<Seq<char>>, body: Seq<char>)
    requires
        t.wf(),
    ensures
        update_note(t, segs, body).tables.wf(),
        delete_note(t, segs).tables.wf(),
{
    if let Ok(row) = find_note(t, segs) {
        lemma_find_note(t, segs);
        lemma_rewrite_note_wf(t, with_body(row, body));
        lemma_drop_note_wf(t, row.parent_id, row.title);
    }
}

/// Removing the note of a name keeps the tables sound.
pub proof fn lemma_drop_note_wf(t: Tables, parent: Seq<char>, title: Seq<char>)
    requires
        t.wf(),
    ensures
        t.drop_note(parent, title).wf(),
{
    if exists|i: int| note_is(t.notes, i, parent, title) {
        let i = choose|i: int| note_is(t.notes, i, parent, title);
        lemma_remove_note_wf(t, i);
    }
}

/// Moving a note keeps the tables sound.
pub proof fn law_move_note_keeps_soundness(
    t: Tables,
    src: Seq<Seq<char>>,
    dest: Seq<Seq<char>>,
    overwrite: bool,
    parents: bool,
    ids: Seq<Seq<char>>,
)
    requires
        t.wf(),
    ensures
        move_note(t, src, dest, overwrite, parents, ids).tables.wf(),
{
    if let Ok(row) = find_note(t, src) {
        lemma_find_note(t, src);
        match note_at(t, dest, row.title) {
            Ok(there) => {
                lemma_note_at(t, dest, row.title);
                lemma_rewrite_note_wf(t, with_body(there, row.body));
                lemma_drop_note_wf(t.rewrite_note(with_body(there, row.body)), row.parent_id, row.title);
            },
            Err(_) => {
                if dest.len() > 0 {
                    let way = walk(t, dest, parents, ids);
                    lemma_walk_sound(t, dest, parents, ids);
                    lemma_walk_lands(t, dest, parents, ids);
                    lemma_free_place(t, dest, parents, ids, row.title);
                    if let Ok(place) = way.at {
                        lemma_rewrite_note_wf(way.tables, with_parent(row, id_of(place)));
                    }
                }
            },
        }
    }
}

/// An operation that fails changes nothing: whatever it had filed on the way
/// is taken back.
pub proof fn law_failure_changes_nothing(
    t: Tables,
    segs: Seq<Seq<char>>,
    dest: Seq<Seq<char>>,
    body: Seq<char>,
    parents: bool,
    overwrite: bool,
    recursive: bool,
    ids: Seq<Seq<char>>,
)
    ensures
        make_folder(t, segs, parents, ids).result is Err ==> make_folder(t, segs, parents, ids).tables
            == t,
        delete_folder(t, segs, recursive).result is Err ==> delete_folder(t, segs, recursive).tables
            == t,
        make_note(t, segs, parents, ids).result is Err ==> make_note(t, segs, parents, ids).tables == t,
        update_note(t, segs, body).result is Err ==> update_note(t, segs, body).tables == t,
        delete_note(t, segs).result is Err ==> delete_note(t, segs).tables == t,
        move_note(t, segs, dest, overwrite, parents, ids).result is Err ==> move_note(
            t,
            segs,
            dest,
            overwrite,
            parents,
            ids,
        ).tables == t,
        copy_note(t, segs, dest, overwrite, parents, ids).result is Err ==> copy_note(
            t,
            segs,
            dest,
            overwrite,
            parents,
            ids,
        ).tables == t,
{
}

/// A command that fails changes nothing.
pub proof fn law_failed_command_changes_nothing(t: Tables, command: Command, ids: Seq<Seq<char>>)
    ensures
        run(t, command, ids).result is Err ==> run(t, command, ids).tables == t,
{
    let none = Seq::<Seq<char>>::empty();
    match command {
        Command::Make { parents, path } => {
            law_failure_changes_nothing(t, segments(path@), none, none[0], parents, false, false, ids);
        },
        Command::Remove { recursive, path } => {
            law_failure_changes_nothing(t, segments(path@), none, none[0], false, false, recursive, ids);
        },
        Command::Move { parents, overwrite, src, dest_book } => {
            law_failure_changes_nothing(
                t,
                segments(src@),
                segments(dest_book@),
                none[0],
                parents,
                overwrite,
                false,
                ids,
            );
        },
        Command::Copy { parents, overwrite, src, dest_book } => {
            law_failure_changes_nothing(
                t,
                segments(src@),
                segments(dest_book@),
                none[0],
                parents,
                overwrite,
                false,
                ids,
            );
        },
        _ => {},
    }
}

/// A move onto a note that exists, without `overwrite`, is refused as
/// `OverwriteNotAllowed` and leaves the store, and so both notes, as it was.
pub proof fn law_move_needs_overwrite(
    t: Tables,
    src: Seq<Seq<char>>,
    dest: Seq<Seq<char>>,
    parents: bool,
    ids: Seq<Seq<char>>,
)
    ensures
        find_note(t, src) matches Ok(row) ==> (note_at(t, dest, row.title) is Ok ==> move_note(
            t,
            src,
            dest,
            false,
            parents,
            ids,
        ) == (Outcome { tables: t, result: Err::<nat, Error>(Error::OverwriteNotAllowed) })),
{
}

/// A move with `overwrite` onto another note that exists writes two rows:
/// afterwards the note at the destination holds the text of the source, and
/// the path of the source leads to no note.
pub proof fn law_move_with_overwrite_replaces(
    t: Tables,
    src: Seq<Seq<char>>,
    dest: Seq<Seq<char>>,
    parents: bool,
    ids: Seq<Seq<char>>,
)
    requires
        t.wf(),
    ensures
        find_note(t, src) matches Ok(row) ==> (note_at(t, dest, row.title) matches Ok(there) ==> (
        there.id != row.id ==> {
            let moved = move_note(t, src, dest, true, parents, ids);
            &&& moved.tables.wf()
            &&& moved.result == Ok::<nat, Error>(2)
            &&& note_at(moved.tables, dest, row.title) == Ok::<NoteRow, Error>(
                with_body(there, row.body),
            )
            &&& find_note(moved.tables, src) == Err::<NoteRow, Error>(Error::NotFound)
        })),
{
    if let Ok(row) = find_note(t, src) {
        if let Ok(there) = note_at(t, dest, row.title) {
            if there.id != row.id {
                lemma_find_note(t, src);
                lemma_note_at(t, src.drop_last(), src.last());
                lemma_note_at(t, dest, row.title);
                let written = with_body(there, row.body);
                let i = t.notes.index_of(there);
                let k = t.notes.index_of(row);
                lemma_note_index(t.folders, t.notes, i);
                assert(note_has_id(t.notes, i, there.id));
                lemma_rewrite_note_wf(t, written);
                let t1 = t.rewrite_note(written);
                assert(t1.notes == t.notes.update(i, written));
                assert(note_is(t1.notes, k, row.parent_id, row.title));
                lemma_note_named(t1.folders, t1.notes, k, row.parent_id, row.title);
                let c = choose|c: int| note_is(t1.notes, c, row.parent_id, row.title);
                assert(note_is(t1.notes, c, row.parent_id, row.title));
                lemma_note_named(t1.folders, t1.notes, c, row.parent_id, row.title);
                assert(c == k) by {
                    if c != k {
                        lemma_notes_apart(t1.folders, t1.notes, c, k);
                    }
                }
                lemma_remove_note_wf(t1, k);
                let t2 = t1.drop_note(row.parent_id, row.title);
                assert(t2.notes == t1.notes.remove(k));
                lemma_resolve_grows(t, t2, dest);
                lemma_resolve_grows(t, t2, src.drop_last());
                let at = if i < k { i } else { i - 1 };
                assert(t2.notes[at] == written);
                assert(note_is(t2.notes, at, there.parent_id, row.title));
                lemma_note_named(t2.folders, t2.notes, at, there.parent_id, row.title);
                assert forall|j: int| !note_is(t2.notes, j, row.parent_id, row.title) by {
                    if note_is(t2.notes, j, row.parent_id, row.title) {
                        let j1 = if j < k { j } else { j + 1 };
                        assert(t1.notes[j1] == t2.notes[j]);
                        lemma_notes_apart(t1.folders, t1.notes, j1, k);
                    }
                }
            }
        }
    }
}

/// A copy never removes its source: whether it succeeds or not, and whatever
/// it overwrites, the path of the source leads to the same note afterwards.
/// And a copy keeps the tables sound.
pub proof fn law_copy_keeps_source(
    t: Tables,
    src: Seq<Seq<char>>,
    dest: Seq<Seq<char>>,
    overwrite: bool,
    parents: bool,
    ids: Seq<Seq<char>>,
)
    requires
        t.wf(),
    ensures
        copy_note(t, src, dest, overwrite, parents, ids).tables.wf(),
        find_note(t, src) matches Ok(row) ==> find_note(
            copy_note(t, src, dest, overwrite, parents, ids).tables,
            src,
        ) == Ok::<NoteRow, Error>(row),
{
    if let Ok(row) = find_note(t, src) {
        lemma_find_note(t, src);
        lemma_note_at(t, src.drop_last(), src.last());
        let k = t.notes.index_of(row);
        if !(note_at(t, dest, row.title) is Ok && !overwrite) && dest.len() > 0 {
            let way = walk(t, dest, parents, ids);
            lemma_walk_sound(t, dest, parents, ids);
            lemma_walk_lands(t, dest, parents, ids);
            lemma_resolve_grows(t, way.tables, src.drop_last());
            assert(note_is(way.tables.notes, k, row.parent_id, row.title));
            lemma_note_named(way.tables.folders, way.tables.notes, k, row.parent_id, row.title);
            if let Ok(place) = way.at {
                let id = supplied(ids, way.used);
                let made = create_note(way.tables, row.title, id_of(place), id);
                lemma_created_note(way.tables, row.title, id_of(place), id);
                lemma_resolve_grows(t, made.tables, src.drop_last());
                assert(made.tables.notes[k] == row);
                assert(note_is(made.tables.notes, k, row.parent_id, row.title));
                lemma_note_named(made.tables.folders, made.tables.notes, k, row.parent_id, row.title);
                if let Ok(there) = made.result {
                    let written = with_body(there, row.body);
                    let i = made.tables.notes.index_of(there);
                    lemma_note_index(made.tables.folders, made.tables.notes, i);
                    assert(note_has_id(made.tables.notes, i, there.id));
                    lemma_rewrite_note_wf(made.tables, written);
                    let after = made.tables.rewrite_note(written);
                    assert(after.notes == made.tables.notes.update(i, written));
                    if i == k {
                        assert(written == row);
                    }
                    assert(after.notes[k] == row);
                    lemma_resolve_grows(t, after, src.drop_last());
                    assert(note_is(after.notes, k, row.parent_id, row.title));
                    lemma_note_named(after.folders, after.notes, k, row.parent_id, row.title);
                }
            }
        }
    }
}

} // verus!
