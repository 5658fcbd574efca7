//! The mathematical model of the store: two tables of rows, and what it means
//! for them to form a tree.

use vstd::prelude::*;

verus! {

/// A folder as the contracts see it.
pub ghost struct FolderRow {
    pub id: Seq<char>,
    pub title: Seq<char>,
    pub parent_id: Seq<char>,
}

/// A note as the contracts see it.
pub ghost struct NoteRow {
    pub id: Seq<char>,
    pub parent_id: Seq<char>,
    pub title: Seq<char>,
    pub body: Seq<char>,
}

/// The identifier that stands for the root of the tree. The root has no row,
/// and no row may carry this identifier.
pub open spec fn root() -> Seq<char> {
    Seq::empty()
}

/// The identifier under which children of `place` are filed: the folder's own,
/// or the root's when there is no folder.
pub open spec fn id_of(place: Option<FolderRow>) -> Seq<char> {
    match place {
        Some(row) => row.id,
        None => root(),
    }
}

/// Row `i` is the folder called `title` inside `parent`.
pub open spec fn folder_is(folders: Seq<FolderRow>, i: int, parent: Seq<char>, title: Seq<char>) -> bool {
    0 <= i < folders.len() && folders[i].parent_id == parent && folders[i].title == title
}

/// The folder called `title` inside `parent`, if there is one.
pub open spec fn folder_named(folders: Seq<FolderRow>, parent: Seq<char>, title: Seq<char>) -> Option<
    FolderRow,
> {
    if exists|i: int| folder_is(folders, i, parent, title) {
        Some(folders[choose|i: int| folder_is(folders, i, parent, title)])
    } else {
        None
    }
}

/// Row `i` is the note called `title` inside `parent`.
pub open spec fn note_is(notes: Seq<NoteRow>, i: int, parent: Seq<char>, title: Seq<char>) -> bool {
    0 <= i < notes.len() && notes[i].parent_id == parent && notes[i].title == title
}

/// The note called `title` inside `parent`, if there is one.
pub open spec fn note_named(notes: Seq<NoteRow>, parent: Seq<char>, title: Seq<char>) -> Option<
    NoteRow,
> {
    if exists|i: int| note_is(notes, i, parent, title) {
        Some(notes[choose|i: int| note_is(notes, i, parent, title)])
    } else {
        None
    }
}

/// Row `i` is the folder with identifier `id`.
pub open spec fn folder_has_id(folders: Seq<FolderRow>, i: int, id: Seq<char>) -> bool {
    0 <= i < folders.len() && folders[i].id == id
}

/// Some folder has the identifier `id`.
pub open spec fn folder_id_taken(folders: Seq<FolderRow>, id: Seq<char>) -> bool {
    exists|i: int| folder_has_id(folders, i, id)
}

/// The index of the folder with identifier `id`, or -1 when there is none.
pub open spec fn folder_index(folders: Seq<FolderRow>, id: Seq<char>) -> int {
    if folder_id_taken(folders, id) {
        choose|i: int| folder_has_id(folders, i, id)
    } else {
        -1
    }
}

/// Row `i` is the note with identifier `id`.
pub open spec fn note_has_id(notes: Seq<NoteRow>, i: int, id: Seq<char>) -> bool {
    0 <= i < notes.len() && notes[i].id == id
}

/// Some note has the identifier `id`.
pub open spec fn note_id_taken(notes: Seq<NoteRow>, id: Seq<char>) -> bool {
    exists|i: int| note_has_id(notes, i, id)
}

/// The folder at row `i` lies at the root or in a folder filed before it.
pub open spec fn parent_first(folders: Seq<FolderRow>, i: int) -> bool {
    folders[i].parent_id == root() || exists|j: int|
        0 <= j < i && folder_has_id(folders, j, folders[i].parent_id)
}

/// The folders at rows `i` and `j` differ in their identifiers, and in
/// their parents or their titles.
pub open spec fn folders_apart(folders: Seq<FolderRow>, i: int, j: int) -> bool {
    &&& folders[i].id != folders[j].id
    &&& !(folders[i].parent_id == folders[j].parent_id && folders[i].title == folders[j].title)
}

/// The notes at rows `i` and `j` differ in their identifiers, and in their
/// parents or their titles.
pub open spec fn notes_apart(notes: Seq<NoteRow>, i: int, j: int) -> bool {
    &&& notes[i].id != notes[j].id
    &&& !(notes[i].parent_id == notes[j].parent_id && notes[i].title == notes[j].title)
}

/// The folder table is sound: every row has an identifier and a title, no
/// identifier and no (parent, title) pair occurs twice, and every folder's
/// parent is the root or a folder that was filed before it.
pub open spec fn folders_wf(folders: Seq<FolderRow>) -> bool {
    &&& forall|i: int|
        0 <= i < folders.len() ==> (#[trigger] folders[i]).id.len() > 0 && folders[i].title.len() > 0
    &&& forall|i: int, j: int| 0 <= i < j < folders.len() ==> #[trigger] folders_apart(folders, i, j)
    &&& forall|i: int| 0 <= i < folders.len() ==> #[trigger] parent_first(folders, i)
}

/// The note table is sound over `folders`: every row has an identifier and a
/// title, no identifier and no (parent, title) pair occurs twice, and every
/// note lives in a folder that exists.
pub open spec fn notes_wf(folders: Seq<FolderRow>, notes: Seq<NoteRow>) -> bool {
    &&& forall|i: int|
        0 <= i < notes.len() ==> (#[trigger] notes[i]).id.len() > 0 && notes[i].title.len() > 0
    &&& forall|i: int, j: int| 0 <= i < j < notes.len() ==> #[trigger] notes_apart(notes, i, j)
    &&& forall|i: int|
        0 <= i < notes.len() ==> folder_id_taken(folders, (#[trigger] notes[i]).parent_id)
}

/// The two tables of the store.
pub ghost struct Tables {
    pub folders: Seq<FolderRow>,
    pub notes: Seq<NoteRow>,
}

impl Tables {
    /// The store before anything was filed.
    pub open spec fn empty() -> Tables {
        Tables { folders: Seq::empty(), notes: Seq::empty() }
    }

    /// Both tables are sound. Each table keeps its names apart on its own:
    /// a folder and a note may stand under one name in one folder, the one
    /// addressed as a folder, the other as a note.
    pub open spec fn wf(self) -> bool {
        folders_wf(self.folders) && notes_wf(self.folders, self.notes)
    }

    /// `place` is somewhere rows can be filed under: the root, or the
    /// identifier of a folder that exists.
    pub open spec fn has_place(self, place: Seq<char>) -> bool {
        place == root() || folder_id_taken(self.folders, place)
    }

    /// The folders filed directly under `parent`, in the order they were filed.
    pub open spec fn child_folders(self, parent: Seq<char>) -> Seq<FolderRow> {
        self.folders.filter(folder_in(parent))
    }

    /// The notes filed directly under `parent`, in the order they were filed.
    pub open spec fn child_notes(self, parent: Seq<char>) -> Seq<NoteRow> {
        self.notes.filter(note_in(parent))
    }

    /// Nothing is filed directly under `parent`.
    pub open spec fn is_childless(self, parent: Seq<char>) -> bool {
        &&& forall|i: int| 0 <= i < self.folders.len() ==> (#[trigger] self.folders[i]).parent_id != parent
        &&& forall|i: int| 0 <= i < self.notes.len() ==> (#[trigger] self.notes[i]).parent_id != parent
    }

    /// Whether a folder row can be filed: its identifier is not the root's
    /// and not in use, and its place under its parent is free.
    pub open spec fn accepts_folder(self, row: FolderRow) -> bool {
        &&& row.id != root()
        &&& !folder_id_taken(self.folders, row.id)
        &&& folder_named(self.folders, row.parent_id, row.title) is None
    }

    /// Files a folder row unless something stands in its way; then nothing changes.
    pub open spec fn file_folder(self, row: FolderRow) -> Tables {
        if self.accepts_folder(row) {
            Tables { folders: self.folders.push(row), notes: self.notes }
        } else {
            self
        }
    }

    /// Whether a note row can be filed: its identifier is not the root's
    /// and not in use, and its place under its parent is free.
    pub open spec fn accepts_note(self, row: NoteRow) -> bool {
        &&& row.id != root()
        &&& !note_id_taken(self.notes, row.id)
        &&& note_named(self.notes, row.parent_id, row.title) is None
    }

    /// Files a note row unless something stands in its way; then nothing changes.
    pub open spec fn file_note(self, row: NoteRow) -> Tables {
        if self.accepts_note(row) {
            Tables { folders: self.folders, notes: self.notes.push(row) }
        } else {
            self
        }
    }

    /// Replaces the note that has `row`'s identifier by `row`; without such
    /// a note nothing changes.
    pub open spec fn rewrite_note(self, row: NoteRow) -> Tables {
        if note_id_taken(self.notes, row.id) {
            Tables { folders: self.folders, notes: self.notes.update(note_index(self.notes, row.id), row) }
        } else {
            self
        }
    }

    /// Removes the note called `title` inside `parent`; without such a note
    /// nothing changes.
    pub open spec fn drop_note(self, parent: Seq<char>, title: Seq<char>) -> Tables {
        if exists|i: int| note_is(self.notes, i, parent, title) {
            Tables {
                folders: self.folders,
                notes: self.notes.remove(choose|i: int| note_is(self.notes, i, parent, title)),
            }
        } else {
            self
        }
    }
}

/// The test for a folder filed directly under `parent`.
pub open spec fn folder_in(parent: Seq<char>) -> spec_fn(FolderRow) -> bool {
    |row: FolderRow| row.parent_id == parent
}

/// The test for a note filed directly under `parent`.
pub open spec fn note_in(parent: Seq<char>) -> spec_fn(NoteRow) -> bool {
    |row: NoteRow| row.parent_id == parent
}

/// The index of the note with identifier `id`, or -1 when there is none.
pub open spec fn note_index(notes: Seq<NoteRow>, id: Seq<char>) -> int {
    if note_id_taken(notes, id) {
        choose|i: int| note_has_id(notes, i, id)
    } else {
        -1
    }
}

/// In a sound table two different rows differ in their identifiers, and in
/// their parents or their titles.
pub proof fn lemma_folders_apart(folders: Seq<FolderRow>, i: int, j: int)
    requires
        folders_wf(folders),
        0 <= i < folders.len(),
        0 <= j < folders.len(),
        i != j,
    ensures
        folders[i].id != folders[j].id,
        !(folders[i].parent_id == folders[j].parent_id && folders[i].title == folders[j].title),
{
    if i < j {
        assert(folders_apart(folders, i, j));
    } else {
        assert(folders_apart(folders, j, i));
    }
}

/// In a sound table two different rows differ in their identifiers, and in
/// their parents or their titles.
pub proof fn lemma_notes_apart(folders: Seq<FolderRow>, notes: Seq<NoteRow>, i: int, j: int)
    requires
        notes_wf(folders, notes),
        0 <= i < notes.len(),
        0 <= j < notes.len(),
        i != j,
    ensures
        notes[i].id != notes[j].id,
        !(notes[i].parent_id == notes[j].parent_id && notes[i].title == notes[j].title),
{
    if i < j {
        assert(notes_apart(notes, i, j));
    } else {
        assert(notes_apart(notes, j, i));
    }
}

/// In a sound table the row found under a name is the only row of that name.
pub proof fn lemma_folder_named(folders: Seq<FolderRow>, i: int, parent: Seq<char>, title: Seq<char>)
    requires
        folders_wf(folders),
        folder_is(folders, i, parent, title),
    ensures
        folder_named(folders, parent, title) == Some(folders[i]),
{
    let k = choose|k: int| folder_is(folders, k, parent, title);
    assert(folder_is(folders, k, parent, title));
    if k != i {
        lemma_folders_apart(folders, k, i);
    }
}

/// In a sound table the row found under a name is the only row of that name.
pub proof fn lemma_note_named(
    folders: Seq<FolderRow>,
    notes: Seq<NoteRow>,
    i: int,
    parent: Seq<char>,
    title: Seq<char>,
)
    requires
        notes_wf(folders, notes),
        note_is(notes, i, parent, title),
    ensures
        note_named(notes, parent, title) == Some(notes[i]),
{
    let k = choose|k: int| note_is(notes, k, parent, title);
    assert(note_is(notes, k, parent, title));
    if k != i {
        lemma_notes_apart(folders, notes, k, i);
    }
}

/// In a sound table an identifier is found at one index only.
pub proof fn lemma_folder_index(folders: Seq<FolderRow>, i: int)
    requires
        folders_wf(folders),
        0 <= i < folders.len(),
    ensures
        folder_index(folders, folders[i].id) == i,
{
    let id = folders[i].id;
    assert(folder_has_id(folders, i, id));
    let k = choose|k: int| folder_has_id(folders, k, id);
    assert(folder_has_id(folders, k, id));
    if k != i {
        lemma_folders_apart(folders, k, i);
    }
}

/// In a sound table an identifier is found at one index only.
pub proof fn lemma_note_index(folders: Seq<FolderRow>, notes: Seq<NoteRow>, i: int)
    requires
        notes_wf(folders, notes),
        0 <= i < notes.len(),
    ensures
        note_index(notes, notes[i].id) == i,
{
    let id = notes[i].id;
    assert(note_has_id(notes, i, id));
    let k = choose|k: int| note_has_id(notes, k, id);
    assert(note_has_id(notes, k, id));
    if k != i {
        lemma_notes_apart(folders, notes, k, i);
    }
}

/// Filing a titled folder under a place that exists keeps the tables sound.
pub proof fn lemma_file_folder_wf(t: Tables, row: FolderRow)
    requires
        t.wf(),
        row.title.len() > 0,
        t.has_place(row.parent_id),
    ensures
        t.file_folder(row).wf(),
{
    if t.accepts_folder(row) {
        let old_rows = t.folders;
        let rows = t.folders.push(row);
        let last = old_rows.len() as int;
        assert(row.id.len() > 0) by {
            if row.id.len() == 0 {
                assert(row.id =~= root());
            }
        }
        assert forall|i: int| 0 <= i < rows.len() implies (#[trigger] rows[i]).id.len() > 0
            && rows[i].title.len() > 0 by {
            if i < last {
                assert(rows[i] == old_rows[i]);
            }
        }
        assert forall|i: int, j: int| 0 <= i < j < rows.len() implies #[trigger] folders_apart(
            rows,
            i,
            j,
        ) by {
            if j == last {
                assert(!folder_has_id(old_rows, i, row.id));
                assert(!folder_is(old_rows, i, row.parent_id, row.title));
            } else {
                lemma_folders_apart(old_rows, i, j);
            }
        }
        assert forall|i: int| 0 <= i < rows.len() implies #[trigger] parent_first(rows, i) by {
            if rows[i].parent_id != root() {
                if i == last {
                    let j = choose|j: int| folder_has_id(old_rows, j, row.parent_id);
                    assert(folder_has_id(rows, j, rows[i].parent_id));
                } else {
                    assert(old_rows[i].parent_id == rows[i].parent_id);
                    assert(parent_first(old_rows, i));
                    let j = choose|j: int| 0 <= j < i && folder_has_id(old_rows, j, old_rows[i].parent_id);
                    assert(folder_has_id(rows, j, rows[i].parent_id));
                }
            }
        }
        assert forall|i: int| 0 <= i < t.notes.len() implies folder_id_taken(
            rows,
            (#[trigger] t.notes[i]).parent_id,
        ) by {
            let j = choose|j: int| folder_has_id(old_rows, j, t.notes[i].parent_id);
            assert(folder_has_id(rows, j, t.notes[i].parent_id));
        }
    }
}

/// Filing a titled note in a folder that exists keeps the tables sound.
pub proof fn lemma_file_note_wf(t: Tables, row: NoteRow)
    requires
        t.wf(),
        row.title.len() > 0,
        folder_id_taken(t.folders, row.parent_id),
    ensures
        t.file_note(row).wf(),
{
    if t.accepts_note(row) {
        let old_rows = t.notes;
        let rows = t.notes.push(row);
        let last = old_rows.len() as int;
        assert(row.id.len() > 0) by {
            if row.id.len() == 0 {
                assert(row.id =~= root());
            }
        }
        assert forall|i: int| 0 <= i < rows.len() implies (#[trigger] rows[i]).id.len() > 0
            && rows[i].title.len() > 0 && folder_id_taken(t.folders, rows[i].parent_id) by {
            if i < last {
                assert(rows[i] == old_rows[i]);
            }
        }
        assert forall|i: int, j: int| 0 <= i < j < rows.len() implies #[trigger] notes_apart(
            rows,
            i,
            j,
        ) by {
            if j == last {
                assert(!note_has_id(old_rows, i, row.id));
                assert(!note_is(old_rows, i, row.parent_id, row.title));
            } else {
                lemma_notes_apart(t.folders, old_rows, i, j);
            }
        }
    }
}

/// Removing a note keeps the tables sound.
pub proof fn lemma_remove_note_wf(t: Tables, i: int)
    requires
        t.wf(),
        0 <= i < t.notes.len(),
    ensures
        (Tables { folders: t.folders, notes: t.notes.remove(i) }).wf(),
{
    let rows = t.notes.remove(i);
    assert forall|a: int| 0 <= a < rows.len() implies (#[trigger] rows[a]).id.len() > 0
        && rows[a].title.len() > 0 && folder_id_taken(t.folders, rows[a].parent_id) by {
        if a < i {
            assert(rows[a] == t.notes[a]);
        } else {
            assert(rows[a] == t.notes[a + 1]);
        }
    }
    assert forall|a: int, b: int| 0 <= a < b < rows.len() implies #[trigger] notes_apart(rows, a, b) by {
        let a0 = if a < i { a } else { a + 1 };
        let b0 = if b < i { b } else { b + 1 };
        assert(rows[a] == t.notes[a0]);
        assert(rows[b] == t.notes[b0]);
        lemma_notes_apart(t.folders, t.notes, a0, b0);
    }
}

/// Removing a row keeps the folders named and apart.
proof fn lemma_remove_folder_apart(folders: Seq<FolderRow>, i: int)
    requires
        folders_wf(folders),
        0 <= i < folders.len(),
    ensures
        forall|a: int|
            0 <= a < folders.remove(i).len() ==> (#[trigger] folders.remove(i)[a]).id.len() > 0
                && folders.remove(i)[a].title.len() > 0,
        forall|a: int, b: int|
            0 <= a < b < folders.remove(i).len() ==> #[trigger] folders_apart(folders.remove(i), a, b),
{
    let rows = folders.remove(i);
    assert forall|a: int| 0 <= a < rows.len() implies (#[trigger] rows[a]).id.len() > 0
        && rows[a].title.len() > 0 by {
        let a0 = if a < i { a } else { a + 1 };
        assert(rows[a] == folders[a0]);
    }
    assert forall|a: int, b: int| 0 <= a < b < rows.len() implies #[trigger] folders_apart(
        rows,
        a,
        b,
    ) by {
        let a0 = if a < i { a } else { a + 1 };
        let b0 = if b < i { b } else { b + 1 };
        assert(rows[a] == folders[a0]);
        assert(rows[b] == folders[b0]);
        lemma_folders_apart(folders, a0, b0);
    }
}

/// Removing a folder under which no folder is filed keeps every parent
/// before its children.
proof fn lemma_remove_folder_parents(folders: Seq<FolderRow>, i: int)
    requires
        0 <= i < folders.len(),
        forall|a: int| 0 <= a < folders.len() ==> #[trigger] parent_first(folders, a),
        forall|a: int| 0 <= a < folders.len() ==> (#[trigger] folders[a]).parent_id != folders[i].id,
    ensures
        forall|a: int| 0 <= a < folders.remove(i).len() ==> #[trigger] parent_first(folders.remove(i), a),
{
    let rows = folders.remove(i);
    assert forall|a: int| 0 <= a < rows.len() implies #[trigger] parent_first(rows, a) by {
        let a0 = if a < i { a } else { a + 1 };
        assert(rows[a] == folders[a0]);
        assert(parent_first(folders, a0));
        if rows[a].parent_id != root() {
            let j0 = choose|j: int| 0 <= j < a0 && folder_has_id(folders, j, folders[a0].parent_id);
            assert(folders[a0].parent_id != folders[i].id);
            let j = if j0 < i { j0 } else { j0 - 1 };
            assert(rows[j] == folders[j0]);
            assert(folder_has_id(rows, j, rows[a].parent_id));
        }
    }
}

/// Removing a folder in which no note lies keeps every note in a folder.
proof fn lemma_remove_folder_notes(folders: Seq<FolderRow>, notes: Seq<NoteRow>, i: int)
    requires
        0 <= i < folders.len(),
        forall|a: int| 0 <= a < notes.len() ==> folder_id_taken(folders, (#[trigger] notes[a]).parent_id),
        forall|a: int| 0 <= a < notes.len() ==> (#[trigger] notes[a]).parent_id != folders[i].id,
    ensures
        forall|a: int|
            0 <= a < notes.len() ==> folder_id_taken(folders.remove(i), (#[trigger] notes[a]).parent_id),
{
    let rows = folders.remove(i);
    assert forall|a: int| 0 <= a < notes.len() implies folder_id_taken(
        rows,
        (#[trigger] notes[a]).parent_id,
    ) by {
        let j0 = choose|j: int| folder_has_id(folders, j, notes[a].parent_id);
        assert(folder_has_id(folders, j0, notes[a].parent_id));
        let j = if j0 < i { j0 } else { j0 - 1 };
        assert(rows[j] == folders[j0]);
        assert(folder_has_id(rows, j, notes[a].parent_id));
    }
}

/// Removing a folder under which nothing is filed keeps the tables sound.
pub proof fn lemma_remove_folder_wf(t: Tables, i: int)
    requires
        t.wf(),
        0 <= i < t.folders.len(),
        t.is_childless(t.folders[i].id),
    ensures
        (Tables { folders: t.folders.remove(i), notes: t.notes }).wf(),
{
    lemma_remove_folder_apart(t.folders, i);
    lemma_remove_folder_parents(t.folders, i);
    lemma_remove_folder_notes(t.folders, t.notes, i);
}

/// Replacing a note by a titled row of the same identifier keeps the tables
/// sound, when the row lies in a folder that exists and no other note has
/// its name there.
pub proof fn lemma_rewrite_note_wf(t: Tables, row: NoteRow)
    requires
        t.wf(),
        row.title.len() > 0,
        folder_id_taken(t.folders, row.parent_id),
        forall|k: int| note_is(t.notes, k, row.parent_id, row.title) ==> t.notes[k].id == row.id,
    ensures
        t.rewrite_note(row).wf(),
{
    if note_id_taken(t.notes, row.id) {
        let i = note_index(t.notes, row.id);
        assert(note_has_id(t.notes, i, row.id));
        let rows = t.notes.update(i, row);
        assert forall|a: int, b: int| 0 <= a < b < rows.len() implies #[trigger] notes_apart(
            rows,
            a,
            b,
        ) by {
            lemma_notes_apart(t.folders, t.notes, a, b);
            if a == i {
                assert(rows[b] == t.notes[b]);
                if rows[b].parent_id == row.parent_id && rows[b].title == row.title {
                    assert(note_is(t.notes, b, row.parent_id, row.title));
                }
            } else if b == i {
                assert(rows[a] == t.notes[a]);
                if rows[a].parent_id == row.parent_id && rows[a].title == row.title {
                    assert(note_is(t.notes, a, row.parent_id, row.title));
                }
            } else {
                assert(rows[a] == t.notes[a]);
                assert(rows[b] == t.notes[b]);
            }
        }
        assert forall|a: int| 0 <= a < rows.len() implies (#[trigger] rows[a]).id.len() > 0
            && rows[a].title.len() > 0 && folder_id_taken(t.folders, rows[a].parent_id) by {
            if a != i {
                assert(rows[a] == t.notes[a]);
            } else {
                assert(t.notes[i].id.len() > 0);
            }
        }
    }
}

} // verus!
