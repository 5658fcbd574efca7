//! Paths through the tree: how a list of segments leads from the root to a
//! folder, with or without filing the folders that are missing on the way.

use vstd::prelude::*;
use crate::error::Error;
use crate::model::{
    folder_has_id, folder_id_taken, folder_index, folder_is, folder_named, folders_wf, id_of,
    lemma_file_folder_wf, lemma_file_note_wf, lemma_folder_index, lemma_folder_named,
    lemma_folders_apart, lemma_notes_apart, lemma_remove_folder_wf, note_has_id, note_id_taken,
    note_is, parent_first, root, FolderRow, NoteRow, Tables,
};

verus! {

/// The tables an operation leaves behind, and what it reports.
pub ghost struct Outcome<T> {
    pub tables: Tables,
    pub result: Result<T, Error>,
}

/// An attempt that takes effect only where it succeeds: a failure leaves the
/// tables `t` from before the attempt.
pub open spec fn all_or_nothing<T>(t: Tables, attempt: Outcome<T>) -> Outcome<T> {
    if attempt.result is Ok {
        attempt
    } else {
        Outcome { tables: t, result: attempt.result }
    }
}

/// The identifier at position `n` of a supply. Past its end the supply
/// yields the root's identifier, which no row can take.
pub open spec fn supplied(ids: Seq<Seq<char>>, n: nat) -> Seq<char> {
    if n < ids.len() {
        ids[n as int]
    } else {
        root()
    }
}

/// Files a folder called `title` under `parent` with the identifier `id`,
/// unless the place or the identifier is taken, and reports the folder that
/// then stands at that place.
pub open spec fn create_folder(t: Tables, title: Seq<char>, parent: Seq<char>, id: Seq<char>) -> Outcome<
    FolderRow,
> {
    if title.len() == 0 {
        Outcome { tables: t, result: Err(Error::NamelessFolder) }
    } else {
        let after = t.file_folder(FolderRow { id, title, parent_id: parent });
        Outcome {
            tables: after,
            result: match folder_named(after.folders, parent, title) {
                Some(row) => Ok(row),
                None => Err(Error::NotFound),
            },
        }
    }
}

/// Filing a folder under a place that exists keeps the tables sound, adds at
/// most one row behind the others, and changes nothing where it fails.
pub proof fn lemma_created_folder(t: Tables, title: Seq<char>, parent: Seq<char>, id: Seq<char>)
    requires
        t.wf(),
        t.has_place(parent),
    ensures
        create_folder(t, title, parent, id).tables.wf(),
        create_folder(t, title, parent, id).tables.notes == t.notes,
        t.folders.is_prefix_of(create_folder(t, title, parent, id).tables.folders),
        create_folder(t, title, parent, id).result is Err ==> create_folder(t, title, parent, id).tables
            == t,
        create_folder(t, title, parent, id).result matches Ok(row) ==> create_folder(
            t,
            title,
            parent,
            id,
        ).tables.folders.contains(row) && row.title == title && row.parent_id == parent,
{
    if title.len() > 0 {
        let row = FolderRow { id, title, parent_id: parent };
        lemma_file_folder_wf(t, row);
        let after = t.file_folder(row);
        if t.accepts_folder(row) {
            let last = t.folders.len() as int;
            assert(folder_is(after.folders, last, parent, title));
            lemma_folder_named(after.folders, last, parent, title);
            assert(after.folders[last] == row);
        } else if let Some(found) = folder_named(after.folders, parent, title) {
            let i = choose|i: int| folder_is(after.folders, i, parent, title);
            assert(after.folders[i] == found);
        }
    }
}

/// Where a walk along a path stands: the tables as it has left them, the
/// folder it has reached (`None` for the root) or why it stopped, and how
/// many identifiers of the supply it has drawn.
pub ghost struct Walk {
    pub tables: Tables,
    pub at: Result<Option<FolderRow>, Error>,
    pub used: nat,
}

/// One step of a walk: from `place` into its child called `title`. A child
/// that is missing is filed when `create` is set, with the next identifier of
/// the supply; otherwise the walk stops there.
pub open spec fn step(
    before: Walk,
    place: Option<FolderRow>,
    title: Seq<char>,
    create: bool,
    ids: Seq<Seq<char>>,
) -> Walk {
    match folder_named(before.tables.folders, id_of(place), title) {
        Some(row) => Walk { tables: before.tables, at: Ok(Some(row)), used: before.used },
        None => if create {
            let made = create_folder(before.tables, title, id_of(place), supplied(ids, before.used));
            Walk {
                tables: made.tables,
                at: match made.result {
                    Ok(row) => Ok(Some(row)),
                    Err(e) => Err(e),
                },
                used: before.used + 1,
            }
        } else {
            Walk { tables: before.tables, at: Err(Error::NotFound), used: before.used }
        },
    }
}

/// The walk from the root along `segs`, one step per segment.
pub open spec fn walk(t: Tables, segs: Seq<Seq<char>>, create: bool, ids: Seq<Seq<char>>) -> Walk
    decreases segs.len(),
{
    if segs.len() == 0 {
        Walk { tables: t, at: Ok(None), used: 0 }
    } else {
        let before = walk(t, segs.drop_last(), create, ids);
        match before.at {
            Ok(place) => step(before, place, segs.last(), create, ids),
            Err(_) => before,
        }
    }
}

/// The folder that `segs` leads to, without filing anything: `Ok(None)` for
/// the root, `NotFound` when a segment names no folder.
pub open spec fn resolve(t: Tables, segs: Seq<Seq<char>>) -> Result<Option<FolderRow>, Error> {
    walk(t, segs, false, Seq::empty()).at
}

/// A walk that files nothing leaves the tables alone and draws no identifier,
/// whatever the supply.
pub proof fn lemma_resolve_is_pure(t: Tables, segs: Seq<Seq<char>>, ids: Seq<Seq<char>>)
    ensures
        walk(t, segs, false, ids).tables == t,
        walk(t, segs, false, ids).used == 0,
        walk(t, segs, false, ids).at == resolve(t, segs),
    decreases segs.len(),
{
    if segs.len() > 0 {
        lemma_resolve_is_pure(t, segs.drop_last(), ids);
        lemma_resolve_is_pure(t, segs.drop_last(), Seq::empty());
    }
}

/// A walk that has stopped stays stopped: the segments after the one that
/// failed change nothing.
pub proof fn lemma_walk_stops(t: Tables, segs: Seq<Seq<char>>, k: int, create: bool, ids: Seq<Seq<char>>)
    requires
        0 <= k <= segs.len(),
        walk(t, segs.take(k), create, ids).at is Err,
    ensures
        walk(t, segs, create, ids) == walk(t, segs.take(k), create, ids),
    decreases segs.len(),
{
    if k == segs.len() {
        assert(segs.take(k) == segs);
    } else {
        assert(segs.drop_last().take(k) == segs.take(k));
        lemma_walk_stops(t, segs.drop_last(), k, create, ids);
    }
}

/// Along a path that exists, a walk that may file folders files none.
pub proof fn lemma_walk_found(t: Tables, segs: Seq<Seq<char>>, create: bool, ids: Seq<Seq<char>>)
    requires
        resolve(t, segs) is Ok,
    ensures
        walk(t, segs, create, ids) == (Walk { tables: t, at: resolve(t, segs), used: 0 }),
    decreases segs.len(),
{
    if segs.len() > 0 {
        lemma_resolve_is_pure(t, segs.drop_last(), Seq::empty());
        lemma_walk_found(t, segs.drop_last(), create, ids);
    }
}

/// A folder that a walk has reached is a row of the tables.
pub proof fn lemma_resolve_has_place(t: Tables, segs: Seq<Seq<char>>)
    requires
        resolve(t, segs) is Ok,
    ensures
        t.has_place(id_of(resolve(t, segs)->Ok_0)),
        resolve(t, segs)->Ok_0 matches Some(row) ==> t.folders.contains(row),
    decreases segs.len(),
{
    if segs.len() > 0 {
        lemma_resolve_is_pure(t, segs.drop_last(), Seq::empty());
        let before = resolve(t, segs.drop_last());
        let place = before->Ok_0;
        let i = choose|i: int| folder_is(t.folders, i, id_of(place), segs.last());
        assert(folder_has_id(t.folders, i, t.folders[i].id));
    }
}

/// A folder that was filed last, under an identifier of its own, has no
/// folder inside it.
pub proof fn lemma_last_folder_is_empty(folders: Seq<FolderRow>, title: Seq<char>)
    requires
        folders_wf(folders),
        folders.len() > 0,
    ensures
        folder_named(folders, folders.last().id, title) is None,
{
    let id = folders.last().id;
    let n = folders.len() as int;
    if exists|i: int| folder_is(folders, i, id, title) {
        let i = choose|i: int| folder_is(folders, i, id, title);
        assert(folders[i].parent_id == id);
        assert(id.len() > 0);
        assert(parent_first(folders, i));
        let j = choose|j: int| 0 <= j < i && folder_has_id(folders, j, folders[i].parent_id);
        lemma_folders_apart(folders, j, n - 1);
    }
}

/// A name that leads to a folder still leads to it after more folders were filed.
pub proof fn lemma_named_grows(
    fewer: Seq<FolderRow>,
    more: Seq<FolderRow>,
    parent: Seq<char>,
    title: Seq<char>,
)
    requires
        folders_wf(more),
        fewer.is_prefix_of(more),
        folder_named(fewer, parent, title) is Some,
    ensures
        folder_named(more, parent, title) == folder_named(fewer, parent, title),
{
    let i = choose|i: int| folder_is(fewer, i, parent, title);
    assert(more[i] == fewer[i]);
    assert(folder_is(more, i, parent, title));
    lemma_folder_named(more, i, parent, title);
}

/// A path that leads to a folder still leads to it after more folders were filed.
pub proof fn lemma_resolve_grows(t: Tables, later: Tables, segs: Seq<Seq<char>>)
    requires
        folders_wf(later.folders),
        t.folders.is_prefix_of(later.folders),
        resolve(t, segs) is Ok,
    ensures
        resolve(later, segs) == resolve(t, segs),
    decreases segs.len(),
{
    if segs.len() > 0 {
        lemma_resolve_is_pure(t, segs.drop_last(), Seq::empty());
        lemma_resolve_is_pure(later, segs.drop_last(), Seq::empty());
        lemma_resolve_grows(t, later, segs.drop_last());
        let place = resolve(t, segs.drop_last())->Ok_0;
        lemma_named_grows(t.folders, later.folders, id_of(place), segs.last());
    }
}

/// What every walk keeps and achieves. It leaves the tables sound and the
/// notes alone, and only adds folders behind those that were there. Where it
/// arrives, the path leads there from then on. Where it arrives though the
/// path did not exist before, it arrives at the folder it filed last, whose
/// identifier is new.
pub proof fn lemma_walk_sound(t: Tables, segs: Seq<Seq<char>>, create: bool, ids: Seq<Seq<char>>)
    requires
        t.wf(),
    ensures
        ({
            let w = walk(t, segs, create, ids);
            &&& w.tables.wf()
            &&& w.tables.notes == t.notes
            &&& t.folders.is_prefix_of(w.tables.folders)
            &&& w.used <= segs.len()
            &&& w.at matches Ok(place) ==> {
                &&& w.tables.has_place(id_of(place))
                &&& resolve(w.tables, segs) == w.at
                &&& resolve(t, segs) is Ok ==> w.tables == t
                &&& resolve(t, segs) is Err ==> (place matches Some(row) && w.tables.folders.len() > 0
                    && row == w.tables.folders.last() && !folder_id_taken(t.folders, row.id))
            }
        }),
    decreases segs.len(),
{
    let w = walk(t, segs, create, ids);
    if segs.len() == 0 {
    } else {
        let before = walk(t, segs.drop_last(), create, ids);
        lemma_walk_sound(t, segs.drop_last(), create, ids);
        lemma_resolve_is_pure(t, segs.drop_last(), Seq::empty());
        if let Ok(place) = before.at {
            let now = before.tables;
            lemma_resolve_is_pure(now, segs.drop_last(), Seq::empty());
            let title = segs.last();
            match folder_named(now.folders, id_of(place), title) {
                Some(row) => {
                    let i = choose|i: int| folder_is(now.folders, i, id_of(place), title);
                    assert(folder_has_id(now.folders, i, row.id));
                    if resolve(t, segs.drop_last()) is Err {
                        lemma_last_folder_is_empty(now.folders, title);
                    }
                },
                None => {
                    if create && title.len() > 0 {
                        let made = FolderRow {
                            id: supplied(ids, before.used),
                            title,
                            parent_id: id_of(place),
                        };
                        lemma_file_folder_wf(now, made);
                        if now.accepts_folder(made) {
                            let after = now.file_folder(made);
                            let last = now.folders.len() as int;
                            assert(folder_is(after.folders, last, made.parent_id, title));
                            lemma_folder_named(after.folders, last, made.parent_id, title);
                            assert(folder_has_id(after.folders, last, made.id));
                            lemma_resolve_grows(now, after, segs.drop_last());
                            lemma_resolve_is_pure(after, segs.drop_last(), Seq::empty());
                            if folder_id_taken(t.folders, made.id) {
                                let k = choose|k: int| folder_has_id(t.folders, k, made.id);
                                assert(now.folders[k] == t.folders[k]);
                                assert(folder_has_id(now.folders, k, made.id));
                            }
                            if resolve(t, segs) is Ok {
                                lemma_resolve_grows(t, now, segs.drop_last());
                                lemma_named_grows(
                                    t.folders,
                                    now.folders,
                                    id_of(resolve(t, segs.drop_last())->Ok_0),
                                    title,
                                );
                            }
                        }
                    }
                },
            }
        }
    }
}

/// Row `i` is the folder `top` or lies somewhere below it: following the
/// parents upwards from the row leads to `top`.
pub open spec fn row_within(folders: Seq<FolderRow>, i: int, top: Seq<char>) -> bool
    decreases i,
{
    if 0 <= i < folders.len() {
        folders[i].id == top || {
            let parent = folder_index(folders, folders[i].parent_id);
            0 <= parent < i && row_within(folders, parent, top)
        }
    } else {
        false
    }
}

/// The folder `id` is the folder `top` or lies somewhere below it.
pub open spec fn within(folders: Seq<FolderRow>, id: Seq<char>, top: Seq<char>) -> bool {
    row_within(folders, folder_index(folders, id), top)
}

/// The test for a folder that is neither `top` nor below it.
pub open spec fn folder_outside(folders: Seq<FolderRow>, top: Seq<char>) -> spec_fn(FolderRow) -> bool {
    |row: FolderRow| !within(folders, row.id, top)
}

/// The test for a note that lies neither in `top` nor below it.
pub open spec fn note_outside(folders: Seq<FolderRow>, top: Seq<char>) -> spec_fn(NoteRow) -> bool {
    |row: NoteRow| !within(folders, row.parent_id, top)
}

/// The tables without the folder `top` and everything below it.
pub open spec fn without_subtree(t: Tables, top: Seq<char>) -> Tables {
    Tables {
        folders: t.folders.filter(folder_outside(t.folders, top)),
        notes: t.notes.filter(note_outside(t.folders, top)),
    }
}

/// Filtering one element more from the front of a sequence.
pub proof fn lemma_filter_take<A>(s: Seq<A>, i: int, pred: spec_fn(A) -> bool)
    requires
        0 <= i < s.len(),
    ensures
        s.take(i + 1).filter(pred) == (if pred(s[i]) {
            s.take(i).filter(pred).push(s[i])
        } else {
            s.take(i).filter(pred)
        }),
{
    reveal(Seq::filter);
    assert(s.take(i + 1).drop_last() == s.take(i));
    assert(s.take(i + 1).last() == s[i]);
}

/// Filtering one element more from the back of a sequence.
pub proof fn lemma_filter_skip<A>(s: Seq<A>, i: int, pred: spec_fn(A) -> bool)
    requires
        0 <= i < s.len(),
    ensures
        s.skip(i).filter(pred) == (if pred(s[i]) {
            seq![s[i]] + s.skip(i + 1).filter(pred)
        } else {
            s.skip(i + 1).filter(pred)
        }),
{
    let one = seq![s[i]];
    assert(s.skip(i) == one + s.skip(i + 1));
    Seq::filter_distributes_over_add(one, s.skip(i + 1), pred);
    reveal_with_fuel(Seq::filter, 2);
    assert(one.drop_last() == Seq::<A>::empty());
    assert(one.last() == s[i]);
    if pred(s[i]) {
        assert(one.filter(pred) == one);
    } else {
        assert(one.filter(pred) == Seq::<A>::empty());
        assert(Seq::<A>::empty() + s.skip(i + 1).filter(pred) == s.skip(i + 1).filter(pred));
    }
}

/// A test that every element passes filters nothing out.
pub proof fn lemma_filter_all<A>(s: Seq<A>, pred: spec_fn(A) -> bool)
    requires
        forall|i: int| 0 <= i < s.len() ==> pred(#[trigger] s[i]),
    ensures
        s.filter(pred) == s,
    decreases s.len(),
{
    reveal(Seq::filter);
    if s.len() > 0 {
        assert forall|i: int| 0 <= i < s.drop_last().len() implies pred(#[trigger] s.drop_last()[i]) by {
            assert(s.drop_last()[i] == s[i]);
        }
        lemma_filter_all(s.drop_last(), pred);
        assert(s.drop_last().push(s.last()) == s);
    }
}

/// A test that exactly the element at `k` fails filters out that element.
pub proof fn lemma_filter_but_one<A>(s: Seq<A>, pred: spec_fn(A) -> bool, k: int)
    requires
        0 <= k < s.len(),
        !pred(s[k]),
        forall|i: int| 0 <= i < s.len() && i != k ==> pred(#[trigger] s[i]),
    ensures
        s.filter(pred) == s.remove(k),
    decreases s.len(),
{
    reveal(Seq::filter);
    let front = s.drop_last();
    if k == s.len() - 1 {
        assert forall|i: int| 0 <= i < front.len() implies pred(#[trigger] front[i]) by {
            assert(front[i] == s[i]);
        }
        lemma_filter_all(front, pred);
        assert(s.remove(k) == front);
    } else {
        assert forall|i: int| 0 <= i < front.len() && i != k implies pred(#[trigger] front[i]) by {
            assert(front[i] == s[i]);
        }
        assert(front[k] == s[k]);
        lemma_filter_but_one(front, pred, k);
        assert(front.remove(k).push(s.last()) == s.remove(k));
    }
}

/// Two tests that agree on every element filter alike.
pub proof fn lemma_filter_same<A>(s: Seq<A>, p: spec_fn(A) -> bool, q: spec_fn(A) -> bool)
    requires
        forall|i: int| 0 <= i < s.len() ==> p(#[trigger] s[i]) == q(s[i]),
    ensures
        s.filter(p) == s.filter(q),
    decreases s.len(),
{
    reveal(Seq::filter);
    if s.len() > 0 {
        assert forall|i: int| 0 <= i < s.drop_last().len() implies p(#[trigger] s.drop_last()[i]) == q(
            s.drop_last()[i],
        ) by {
            assert(s.drop_last()[i] == s[i]);
        }
        lemma_filter_same(s.drop_last(), p, q);
    }
}

/// What a test lets through and what its opposite lets through make up the whole.
pub proof fn lemma_filter_split<A>(s: Seq<A>, p: spec_fn(A) -> bool, q: spec_fn(A) -> bool)
    requires
        forall|i: int| 0 <= i < s.len() ==> p(#[trigger] s[i]) == !q(s[i]),
    ensures
        s.filter(p).len() + s.filter(q).len() == s.len(),
    decreases s.len(),
{
    reveal(Seq::filter);
    if s.len() > 0 {
        assert forall|i: int| 0 <= i < s.drop_last().len() implies p(#[trigger] s.drop_last()[i]) == !q(
            s.drop_last()[i],
        ) by {
            assert(s.drop_last()[i] == s[i]);
        }
        lemma_filter_split(s.drop_last(), p, q);
    }
}

/// Of two tests that differ on the element at `k` alone, the one that lets
/// it through lets one element more through.
pub proof fn lemma_filter_one_more<A>(s: Seq<A>, p: spec_fn(A) -> bool, q: spec_fn(A) -> bool, k: int)
    requires
        0 <= k < s.len(),
        p(s[k]),
        !q(s[k]),
        forall|i: int| 0 <= i < s.len() && i != k ==> p(#[trigger] s[i]) == q(s[i]),
    ensures
        s.filter(p).len() == s.filter(q).len() + 1,
    decreases s.len(),
{
    reveal(Seq::filter);
    let front = s.drop_last();
    if k == s.len() - 1 {
        assert forall|i: int| 0 <= i < front.len() implies p(#[trigger] front[i]) == q(front[i]) by {
            assert(front[i] == s[i]);
        }
        lemma_filter_same(front, p, q);
    } else {
        assert forall|i: int| 0 <= i < front.len() && i != k implies p(#[trigger] front[i]) == q(
            front[i],
        ) by {
            assert(front[i] == s[i]);
        }
        assert(front[k] == s[k]);
        lemma_filter_one_more(front, p, q, k);
    }
}

/// In sound tables, whatever is within the folder at row `k` was filed at
/// row `k` or after it.
pub proof fn lemma_within_after(folders: Seq<FolderRow>, i: int, k: int)
    requires
        folders_wf(folders),
        0 <= k < folders.len(),
        row_within(folders, i, folders[k].id),
    ensures
        k <= i < folders.len(),
    decreases i,
{
    if folders[i].id == folders[k].id {
        if i < k {
            lemma_folders_apart(folders, i, k);
        }
    } else {
        lemma_within_after(folders, folder_index(folders, folders[i].parent_id), k);
    }
}

/// In sound tables, a row other than `top` that is within `top` shows that
/// something is filed directly under `top`.
pub proof fn lemma_within_has_child(folders: Seq<FolderRow>, i: int, top: Seq<char>)
    requires
        folders_wf(folders),
        row_within(folders, i, top),
        folders[i].id != top,
    ensures
        exists|c: int| 0 <= c < folders.len() && (#[trigger] folders[c]).parent_id == top,
    decreases i,
{
    let parent = folder_index(folders, folders[i].parent_id);
    assert(folder_has_id(folders, parent, folders[i].parent_id));
    if folders[parent].id == top {
        assert(folders[i].parent_id == top);
    } else {
        lemma_within_has_child(folders, parent, top);
    }
}

/// In sound tables, a folder filed under a folder that is within `top` is
/// within `top` too.
pub proof fn lemma_child_within(folders: Seq<FolderRow>, child: int, parent: int, top: Seq<char>)
    requires
        folders_wf(folders),
        0 <= child < folders.len(),
        0 <= parent < folders.len(),
        folders[child].parent_id == folders[parent].id,
        row_within(folders, parent, top),
    ensures
        parent < child,
        row_within(folders, child, top),
{
    lemma_folder_index(folders, parent);
    assert(folders[parent].id.len() > 0);
    assert(parent_first(folders, child));
    let j = choose|j: int| 0 <= j < child && folder_has_id(folders, j, folders[child].parent_id);
    if j != parent {
        lemma_folders_apart(folders, j, parent);
    }
}

/// While the marked folders are removed from the back, the marked folder at
/// `i` has nothing left under it: what was filed under it was filed after it
/// and is marked too.
pub proof fn lemma_marked_is_childless(start: Tables, now: Tables, i: int, top: Seq<char>)
    requires
        start.wf(),
        0 <= i < start.folders.len(),
        row_within(start.folders, i, top),
        now.notes == start.notes.filter(note_outside(start.folders, top)),
        now.folders == start.folders.take(i + 1) + start.folders.skip(i + 1).filter(
            folder_outside(start.folders, top),
        ),
    ensures
        now.is_childless(start.folders[i].id),
{
    broadcast use vstd::seq_lib::group_filter_ensures;

    let id = start.folders[i].id;
    let rest = start.folders.skip(i + 1);
    let kept = rest.filter(folder_outside(start.folders, top));
    lemma_folder_index(start.folders, i);
    assert forall|k: int| 0 <= k < now.folders.len() implies (#[trigger] now.folders[k]).parent_id
        != id by {
        if now.folders[k].parent_id == id {
            if k <= i {
                assert(now.folders[k] == start.folders[k]);
                lemma_child_within(start.folders, k, i, top);
            } else {
                let row = kept[k - i - 1];
                assert(now.folders[k] == row);
                assert(folder_outside(start.folders, top)(row));
                assert(kept.contains(row));
                rest.lemma_filter_contains_rev(folder_outside(start.folders, top), row);
                let c = rest.index_of(row) + i + 1;
                assert(start.folders[c] == row);
                lemma_child_within(start.folders, c, i, top);
                lemma_folder_index(start.folders, c);
            }
        }
    }
    assert forall|k: int| 0 <= k < now.notes.len() implies (#[trigger] now.notes[k]).parent_id
        != id by {
        assert(note_outside(start.folders, top)(now.notes[k]));
    }
}

/// Taking notes away keeps the tables sound.
pub proof fn lemma_fewer_notes_wf(t: Tables, keep: spec_fn(NoteRow) -> bool, count: int)
    requires
        t.wf(),
        0 <= count <= t.notes.len(),
    ensures
        (Tables { folders: t.folders, notes: t.notes.take(count).filter(keep) }).wf(),
    decreases count,
{
    broadcast use vstd::seq_lib::group_filter_ensures;

    if count == 0 {
        reveal(Seq::filter);
        assert(t.notes.take(0).filter(keep) =~= Seq::<NoteRow>::empty());
    } else {
        lemma_fewer_notes_wf(t, keep, count - 1);
        lemma_filter_take(t.notes, count - 1, keep);
        let front = t.notes.take(count - 1);
        let kept = front.filter(keep);
        let row = t.notes[count - 1];
        if keep(row) {
            let before = Tables { folders: t.folders, notes: kept };
            assert(row.id.len() > 0);
            if note_id_taken(kept, row.id) {
                let j = choose|j: int| note_has_id(kept, j, row.id);
                assert(note_has_id(kept, j, row.id));
                assert(kept.contains(kept[j]));
                front.lemma_filter_contains_rev(keep, kept[j]);
                let j0 = front.index_of(kept[j]);
                assert(t.notes[j0] == kept[j]);
                lemma_notes_apart(t.folders, t.notes, j0, count - 1);
            }
            if exists|j: int| note_is(kept, j, row.parent_id, row.title) {
                let j = choose|j: int| note_is(kept, j, row.parent_id, row.title);
                assert(kept.contains(kept[j]));
                front.lemma_filter_contains_rev(keep, kept[j]);
                let j0 = front.index_of(kept[j]);
                assert(t.notes[j0] == kept[j]);
                lemma_notes_apart(t.folders, t.notes, j0, count - 1);
            }
            assert(row.id != root()) by {
                assert(root().len() == 0);
            }
            assert(before.accepts_note(row));
            lemma_file_note_wf(before, row);
        }
    }
}

/// Taking away, from the back down to row `from`, every folder within
/// `top`, and every note within it, keeps the tables sound.
pub proof fn lemma_swept_wf(t: Tables, top: Seq<char>, from: int)
    requires
        t.wf(),
        0 <= from <= t.folders.len(),
    ensures
        (Tables {
            folders: t.folders.take(from) + t.folders.skip(from).filter(folder_outside(t.folders, top)),
            notes: t.notes.filter(note_outside(t.folders, top)),
        }).wf(),
    decreases t.folders.len() - from,
{
    let keep = folder_outside(t.folders, top);
    let notes = t.notes.filter(note_outside(t.folders, top));
    if from == t.folders.len() {
        reveal(Seq::filter);
        lemma_fewer_notes_wf(t, note_outside(t.folders, top), t.notes.len() as int);
        assert(t.notes.take(t.notes.len() as int) == t.notes);
        assert(t.folders.take(from) + t.folders.skip(from).filter(keep) =~= t.folders);
    } else {
        lemma_swept_wf(t, top, from + 1);
        lemma_filter_skip(t.folders, from, keep);
        lemma_folder_index(t.folders, from);
        let rest = t.folders.skip(from + 1).filter(keep);
        let before = Tables { folders: t.folders.take(from + 1) + rest, notes };
        if row_within(t.folders, from, top) {
            lemma_marked_is_childless(t, before, from, top);
            assert(before.folders[from] == t.folders[from]);
            lemma_remove_folder_wf(before, from);
            assert(before.folders.remove(from) =~= t.folders.take(from) + rest);
        } else {
            assert(before.folders =~= t.folders.take(from) + (seq![t.folders[from]] + rest));
        }
    }
}

/// Taking a folder away with everything below it keeps the tables sound.
pub proof fn lemma_without_subtree_wf(t: Tables, top: Seq<char>)
    requires
        t.wf(),
    ensures
        without_subtree(t, top).wf(),
{
    lemma_swept_wf(t, top, 0);
    assert(t.folders.skip(0) == t.folders);
    assert(t.folders.take(0) + t.folders.filter(folder_outside(t.folders, top))
        =~= t.folders.filter(folder_outside(t.folders, top)));
}

/// The test for a folder that lies below `top`.
pub open spec fn folder_below(folders: Seq<FolderRow>, top: Seq<char>) -> spec_fn(FolderRow) -> bool {
    |row: FolderRow| row.id != top && within(folders, row.id, top)
}

/// The test for a note that lies in `top` or below it.
pub open spec fn note_below(folders: Seq<FolderRow>, top: Seq<char>) -> spec_fn(NoteRow) -> bool {
    |row: NoteRow| within(folders, row.parent_id, top)
}

/// The number of rows below the folder `top`: the folders below it, and the
/// notes in it and below it.
pub open spec fn descendant_rows(t: Tables, top: Seq<char>) -> nat {
    t.folders.filter(folder_below(t.folders, top)).len() + t.notes.filter(
        note_below(t.folders, top),
    ).len()
}

/// The number of rows that make up the folder `top` and everything below it.
pub open spec fn subtree_rows(t: Tables, top: Seq<char>) -> nat {
    let kept = without_subtree(t, top);
    ((t.folders.len() - kept.folders.len()) + (t.notes.len() - kept.notes.len())) as nat
}

} // verus!
