//! The store: the two tables of rows, and the row operations on them.

use vstd::prelude::*;
use crate::folder::{folder_rows, place_view, Folder};
use crate::model::{
    folder_has_id, folder_id_taken, folder_in, folder_is, folder_named, lemma_file_folder_wf,
    lemma_file_note_wf, lemma_folder_named, lemma_folders_apart, lemma_note_index, lemma_note_named,
    lemma_notes_apart, lemma_remove_folder_wf, lemma_remove_note_wf, lemma_rewrite_note_wf,
    note_has_id, note_id_taken, note_in, note_is, note_named, parent_first, root, NoteRow, Tables,
};
use crate::note::{note_rows, note_view, Note};

verus! {

/// The persisted tree: a table of folders and a table of notes.
pub struct Store {
    folders: Vec<Folder>,
    notes: Vec<Note>,
}

impl View for Store {
    type V = Tables;

    closed spec fn view(&self) -> Tables {
        Tables { folders: folder_rows(self.folders@), notes: note_rows(self.notes@) }
    }
}

impl Store {
    /// The tables are sound.
    pub open spec fn wf(&self) -> bool {
        self@.wf()
    }

    /// A store with no rows.
    pub fn new() -> (store: Store)
        ensures
            store@ == Tables::empty(),
            store.wf(),
    {
        let store = Store { folders: Vec::new(), notes: Vec::new() };
        proof {
            assert(store@.folders =~= Seq::empty());
            assert(store@.notes =~= Seq::empty());
        }
        store
    }

    /// The folder rows, in the order they were filed.
    pub fn folders(&self) -> (rows: &Vec<Folder>)
        ensures
            folder_rows(rows@) == self@.folders,
    {
        &self.folders
    }

    /// The note rows, in the order they were filed.
    pub fn notes(&self) -> (rows: &Vec<Note>)
        ensures
            note_rows(rows@) == self@.notes,
    {
        &self.notes
    }

    /// A store that holds the given rows, if they make up sound tables:
    /// every row with an identifier and a title, no identifier and no name
    /// twice, every folder behind the folder it lies in, and every note in a
    /// folder.
    pub fn load(folders: Vec<Folder>, notes: Vec<Note>) -> (loaded: Option<Store>)
        ensures
            match loaded {
                Some(store) => store.wf() && store@.folders == folder_rows(folders@) && store@.notes
                    == note_rows(notes@),
                None => !(Tables { folders: folder_rows(folders@), notes: note_rows(notes@) }).wf(),
            },
    {
        let ghost all = Tables { folders: folder_rows(folders@), notes: note_rows(notes@) };
        let mut store = Store::new();
        let mut i: usize = 0;
        while i < folders.len()
            invariant
                i <= folders.len(),
                all == (Tables { folders: folder_rows(folders@), notes: note_rows(notes@) }),
                store.wf(),
                store@.folders == all.folders.take(i as int),
                store@.notes == Seq::<NoteRow>::empty(),
            decreases folders.len() - i,
        {
            let row = folders[i].clone();
            let ghost before = store@;
            proof {
                assert(all.folders[i as int] == row@);
                Self::lemma_folder_must_fit(all, i as int);
            }
            if row.title().as_str().is_empty() {
                return None;
            }
            if !(row.parent_id().as_str().is_empty() || store.folder_position(row.parent_id()).is_some()) {
                proof {
                    assert(row@.parent_id.len() > 0);
                }
                return None;
            }
            proof {
                if row@.parent_id.len() == 0 {
                    assert(row@.parent_id =~= root());
                }
            }
            if store.insert_folder(row) == 0 {
                return None;
            }
            proof {
                assert(store@.folders =~= all.folders.take(i as int + 1));
            }
            i = i + 1;
        }
        let mut k: usize = 0;
        proof {
            assert(all.folders.take(i as int) == all.folders);
            assert(store@.notes =~= all.notes.take(0));
        }
        while k < notes.len()
            invariant
                k <= notes.len(),
                all == (Tables { folders: folder_rows(folders@), notes: note_rows(notes@) }),
                store.wf(),
                store@.folders == all.folders,
                store@.notes == all.notes.take(k as int),
            decreases notes.len() - k,
        {
            let row = notes[k].clone();
            proof {
                assert(all.notes[k as int] == row@);
                Self::lemma_note_must_fit(all, k as int);
            }
            if row.title().as_str().is_empty() {
                return None;
            }
            if store.folder_position(row.parent_id()).is_none() {
                return None;
            }
            if store.insert_note(row) == 0 {
                return None;
            }
            proof {
                assert(store@.notes =~= all.notes.take(k as int + 1));
            }
            k = k + 1;
        }
        proof {
            assert(all.notes.take(k as int) == all.notes);
        }
        Some(store)
    }

    /// In sound tables every folder row can be filed behind the rows before it.
    proof fn lemma_folder_must_fit(all: Tables, i: int)
        requires
            0 <= i < all.folders.len(),
        ensures
            all.wf() ==> {
                let row = all.folders[i];
                let before = Tables { folders: all.folders.take(i), notes: Seq::<NoteRow>::empty() };
                &&& row.title.len() > 0
                &&& before.has_place(row.parent_id)
                &&& before.accepts_folder(row)
            },
    {
        if all.wf() {
            let row = all.folders[i];
            let rows = all.folders.take(i);
            assert(parent_first(all.folders, i));
            if row.parent_id != root() {
                let j = choose|j: int| 0 <= j < i && folder_has_id(all.folders, j, row.parent_id);
                assert(folder_has_id(rows, j, row.parent_id));
            }
            assert(row.id.len() > 0);
            if folder_id_taken(rows, row.id) {
                let j = choose|j: int| folder_has_id(rows, j, row.id);
                assert(folder_has_id(rows, j, row.id));
                lemma_folders_apart(all.folders, j, i);
            }
            if exists|j: int| folder_is(rows, j, row.parent_id, row.title) {
                let j = choose|j: int| folder_is(rows, j, row.parent_id, row.title);
                lemma_folders_apart(all.folders, j, i);
            }
        }
    }

    /// In sound tables every note row can be filed behind the rows before it.
    proof fn lemma_note_must_fit(all: Tables, k: int)
        requires
            0 <= k < all.notes.len(),
        ensures
            all.wf() ==> {
                let row = all.notes[k];
                let before = Tables { folders: all.folders, notes: all.notes.take(k) };
                &&& row.title.len() > 0
                &&& folder_id_taken(all.folders, row.parent_id)
                &&& before.accepts_note(row)
            },
    {
        if all.wf() {
            let row = all.notes[k];
            let rows = all.notes.take(k);
            assert(row.id.len() > 0);
            if note_id_taken(rows, row.id) {
                let j = choose|j: int| note_has_id(rows, j, row.id);
                assert(note_has_id(rows, j, row.id));
                lemma_notes_apart(all.folders, all.notes, j, k);
            }
            if exists|j: int| note_is(rows, j, row.parent_id, row.title) {
                let j = choose|j: int| note_is(rows, j, row.parent_id, row.title);
                lemma_notes_apart(all.folders, all.notes, j, k);
            }
        }
    }

    /// The number of folder rows.
    pub fn folder_count(&self) -> (n: usize)
        ensures
            n == self@.folders.len(),
    {
        self.folders.len()
    }

    /// The folder row at `index`.
    pub(crate) fn folder_at(&self, index: usize) -> (row: &Folder)
        requires
            index < self@.folders.len(),
        ensures
            row@ == self@.folders[index as int],
    {
        &self.folders[index]
    }

    /// The number of note rows.
    pub fn note_count(&self) -> (n: usize)
        ensures
            n == self@.notes.len(),
    {
        self.notes.len()
    }

    /// The note row at `index`.
    pub(crate) fn note_at(&self, index: usize) -> (row: &Note)
        requires
            index < self@.notes.len(),
        ensures
            row@ == self@.notes[index as int],
    {
        &self.notes[index]
    }

    /// Looks for the folder called `title` inside `parent_id`.
    pub fn find_folder(&self, parent_id: &String, title: &String) -> (found: Option<Folder>)
        requires
            self.wf(),
        ensures
            place_view(found) == folder_named(self@.folders, parent_id@, title@),
    {
        let mut i: usize = 0;
        while i < self.folders.len()
            invariant
                self.wf(),
                i <= self.folders.len(),
                forall|k: int| 0 <= k < i ==> !folder_is(self@.folders, k, parent_id@, title@),
            decreases self.folders.len() - i,
        {
            let row = &self.folders[i];
            if *row.parent_id() == *parent_id && *row.title() == *title {
                proof {
                    lemma_folder_named(self@.folders, i as int, parent_id@, title@);
                }
                return Some(row.clone());
            }
            i = i + 1;
        }
        None
    }

    /// Looks for the note called `title` inside `parent_id`.
    pub fn find_note(&self, parent_id: &String, title: &String) -> (found: Option<Note>)
        requires
            self.wf(),
        ensures
            note_view(found) == note_named(self@.notes, parent_id@, title@),
    {
        match self.note_place(parent_id, title) {
            Some(i) => Some(self.notes[i].clone()),
            None => None,
        }
    }

    /// The index of the note called `title` inside `parent_id`.
    fn note_place(&self, parent_id: &String, title: &String) -> (found: Option<usize>)
        requires
            self.wf(),
        ensures
            match found {
                Some(i) => note_is(self@.notes, i as int, parent_id@, title@) && note_named(
                    self@.notes,
                    parent_id@,
                    title@,
                ) == Some(self@.notes[i as int]),
                None => forall|k: int| !note_is(self@.notes, k, parent_id@, title@),
            },
    {
        let mut i: usize = 0;
        while i < self.notes.len()
            invariant
                self.wf(),
                i <= self.notes.len(),
                forall|k: int| 0 <= k < i ==> !note_is(self@.notes, k, parent_id@, title@),
            decreases self.notes.len() - i,
        {
            let row = &self.notes[i];
            if *row.parent_id() == *parent_id && *row.title() == *title {
                proof {
                    lemma_note_named(self@.folders, self@.notes, i as int, parent_id@, title@);
                }
                return Some(i);
            }
            i = i + 1;
        }
        None
    }

    /// The index of the folder with identifier `id`.
    pub fn folder_position(&self, id: &String) -> (found: Option<usize>)
        ensures
            match found {
                Some(i) => folder_has_id(self@.folders, i as int, id@),
                None => !folder_id_taken(self@.folders, id@),
            },
    {
        let mut i: usize = 0;
        while i < self.folders.len()
            invariant
                i <= self.folders.len(),
                forall|k: int| 0 <= k < i ==> !folder_has_id(self@.folders, k, id@),
            decreases self.folders.len() - i,
        {
            if *self.folders[i].id() == *id {
                return Some(i);
            }
            i = i + 1;
        }
        None
    }

    /// The index of the note with identifier `id`.
    pub fn note_position(&self, id: &String) -> (found: Option<usize>)
        ensures
            match found {
                Some(i) => note_has_id(self@.notes, i as int, id@),
                None => !note_id_taken(self@.notes, id@),
            },
    {
        let mut i: usize = 0;
        while i < self.notes.len()
            invariant
                i <= self.notes.len(),
                forall|k: int| 0 <= k < i ==> !note_has_id(self@.notes, k, id@),
            decreases self.notes.len() - i,
        {
            if *self.notes[i].id() == *id {
                return Some(i);
            }
            i = i + 1;
        }
        None
    }

    /// Files a folder row unless its identifier or its name is in use;
    /// returns the number of rows filed.
    pub(crate) fn insert_folder(&mut self, row: Folder) -> (rows: usize)
        requires
            old(self).wf(),
            row@.title.len() > 0,
            old(self)@.has_place(row@.parent_id),
        ensures
            final(self).wf(),
            final(self)@ == old(self)@.file_folder(row@),
            rows == (if old(self)@.accepts_folder(row@) { 1usize } else { 0usize }),
    {
        proof {
            lemma_file_folder_wf(self@, row@);
        }
        if row.id().as_str().is_empty() {
            proof {
                assert(row@.id =~= root());
            }
            return 0;
        }
        if self.folder_position(row.id()).is_some() {
            return 0;
        }
        if self.find_folder(row.parent_id(), row.title()).is_some() {
            return 0;
        }
        let ghost before = self@;
        self.folders.push(row);
        proof {
            assert(self@.folders =~= before.folders.push(row@));
            assert(self@.notes =~= before.notes);
        }
        1
    }

    /// Files a note row unless its identifier or its name is in use;
    /// returns the number of rows filed.
    pub(crate) fn insert_note(&mut self, row: Note) -> (rows: usize)
        requires
            old(self).wf(),
            row@.title.len() > 0,
            folder_id_taken(old(self)@.folders, row@.parent_id),
        ensures
            final(self).wf(),
            final(self)@ == old(self)@.file_note(row@),
            rows == (if old(self)@.accepts_note(row@) { 1usize } else { 0usize }),
    {
        proof {
            lemma_file_note_wf(self@, row@);
        }
        if row.id().as_str().is_empty() {
            proof {
                assert(row@.id =~= root());
            }
            return 0;
        }
        if self.note_position(row.id()).is_some() {
            return 0;
        }
        if self.note_place(row.parent_id(), row.title()).is_some() {
            return 0;
        }
        let ghost before = self@;
        self.notes.push(row);
        proof {
            assert(self@.notes =~= before.notes.push(row@));
            assert(self@.folders =~= before.folders);
        }
        1
    }

    /// All folders and all notes filed directly under `parent_id`.
    pub fn children(&self, parent_id: &String) -> (found: (Vec<Folder>, Vec<Note>))
        ensures
            folder_rows(found.0@) == self@.child_folders(parent_id@),
            note_rows(found.1@) == self@.child_notes(parent_id@),
    {
        let mut folders: Vec<Folder> = Vec::new();
        let mut i: usize = 0;
        proof {
            reveal(Seq::filter);
            assert(folder_rows(folders@) =~= self@.folders.take(0).filter(folder_in(parent_id@)));
        }
        while i < self.folders.len()
            invariant
                i <= self.folders.len(),
                folder_rows(folders@) == self@.folders.take(i as int).filter(folder_in(parent_id@)),
            decreases self.folders.len() - i,
        {
            let row = &self.folders[i];
            let ghost kept = folder_rows(folders@);
            proof {
                reveal(Seq::filter);
                assert(self@.folders.take(i as int + 1).drop_last() == self@.folders.take(i as int));
                assert(self@.folders.take(i as int + 1).last() == row@);
            }
            if *row.parent_id() == *parent_id {
                folders.push(row.clone());
                proof {
                    assert(folder_rows(folders@) =~= kept.push(row@));
                }
            }
            i = i + 1;
        }
        let mut notes: Vec<Note> = Vec::new();
        let mut j: usize = 0;
        proof {
            reveal(Seq::filter);
            assert(self@.folders.take(i as int) == self@.folders);
            assert(note_rows(notes@) =~= self@.notes.take(0).filter(note_in(parent_id@)));
        }
        while j < self.notes.len()
            invariant
                j <= self.notes.len(),
                note_rows(notes@) == self@.notes.take(j as int).filter(note_in(parent_id@)),
            decreases self.notes.len() - j,
        {
            let row = &self.notes[j];
            let ghost kept = note_rows(notes@);
            proof {
                reveal(Seq::filter);
                assert(self@.notes.take(j as int + 1).drop_last() == self@.notes.take(j as int));
                assert(self@.notes.take(j as int + 1).last() == row@);
            }
            if *row.parent_id() == *parent_id {
                notes.push(row.clone());
                proof {
                    assert(note_rows(notes@) =~= kept.push(row@));
                }
            }
            j = j + 1;
        }
        proof {
            assert(self@.notes.take(j as int) == self@.notes);
        }
        (folders, notes)
    }

    /// Replaces the note that has `row`'s identifier by `row`; returns the
    /// number of rows replaced.
    pub(crate) fn rewrite_note(&mut self, row: Note) -> (rows: usize)
        requires
            old(self).wf(),
            row@.title.len() > 0,
            folder_id_taken(old(self)@.folders, row@.parent_id),
            forall|k: int|
                note_is(old(self)@.notes, k, row@.parent_id, row@.title) ==> old(self)@.notes[k].id
                    == row@.id,
        ensures
            final(self).wf(),
            final(self)@ == old(self)@.rewrite_note(row@),
            rows == (if note_id_taken(old(self)@.notes, row@.id) { 1usize } else { 0usize }),
    {
        proof {
            lemma_rewrite_note_wf(self@, row@);
        }
        match self.note_position(row.id()) {
            Some(i) => {
                let ghost before = self@;
                proof {
                    lemma_note_index(before.folders, before.notes, i as int);
                }
                let ghost model = row@;
                self.notes[i] = row;
                proof {
                    assert(self@.notes =~= before.notes.update(i as int, model));
                    assert(self@.folders =~= before.folders);
                }
                1
            },
            None => 0,
        }
    }

    /// Takes the tables back to `saved`, an earlier state behind which rows
    /// were filed since: the rows behind the first `folders` folders and the
    /// first `notes` notes are dropped.
    pub(crate) fn rollback(&mut self, folders: usize, notes: usize, Ghost(saved): Ghost<Tables>)
        requires
            saved.wf(),
            saved.folders.is_prefix_of(old(self)@.folders),
            saved.notes.is_prefix_of(old(self)@.notes),
            folders == saved.folders.len(),
            notes == saved.notes.len(),
        ensures
            final(self)@ == saved,
            final(self).wf(),
    {
        self.folders.truncate(folders);
        self.notes.truncate(notes);
        proof {
            assert(self@.folders =~= saved.folders);
            assert(self@.notes =~= saved.notes);
        }
    }

    /// Removes the note row at `index`.
    pub(crate) fn remove_note_at(&mut self, index: usize)
        requires
            old(self).wf(),
            index < old(self)@.notes.len(),
        ensures
            final(self).wf(),
            final(self)@ == (Tables {
                folders: old(self)@.folders,
                notes: old(self)@.notes.remove(index as int),
            }),
    {
        let ghost before = self@;
        proof {
            lemma_remove_note_wf(before, index as int);
        }
        self.notes.remove(index);
        proof {
            assert(self@.notes =~= before.notes.remove(index as int));
            assert(self@.folders =~= before.folders);
        }
    }

    /// Removes the folder row at `index`, under which nothing is filed.
    pub(crate) fn remove_folder_at(&mut self, index: usize)
        requires
            old(self).wf(),
            index < old(self)@.folders.len(),
            old(self)@.is_childless(old(self)@.folders[index as int].id),
        ensures
            final(self).wf(),
            final(self)@ == (Tables {
                folders: old(self)@.folders.remove(index as int),
                notes: old(self)@.notes,
            }),
    {
        let ghost before = self@;
        proof {
            lemma_remove_folder_wf(before, index as int);
        }
        self.folders.remove(index);
        proof {
            assert(self@.folders =~= before.folders.remove(index as int));
            assert(self@.notes =~= before.notes);
        }
    }

    /// Removes the note called `title` inside `parent_id`; returns the
    /// number of rows removed.
    pub fn remove_note(&mut self, parent_id: &String, title: &String) -> (rows: usize)
        requires
            old(self).wf(),
        ensures
            final(self).wf(),
            final(self)@ == old(self)@.drop_note(parent_id@, title@),
            rows == (if note_named(old(self)@.notes, parent_id@, title@) is Some {
                1usize
            } else {
                0usize
            }),
    {
        match self.note_place(parent_id, title) {
            Some(i) => {
                let ghost before = self@;
                proof {
                    lemma_remove_note_wf(before, i as int);
                    let k = choose|k: int| note_is(before.notes, k, parent_id@, title@);
                    assert(note_is(before.notes, k, parent_id@, title@));
                    assert(k == i) by {
                        if k != i {
                            lemma_notes_apart(before.folders, before.notes, k, i as int);
                        }
                    }
                }
                self.notes.remove(i);
                proof {
                    assert(self@.notes =~= before.notes.remove(i as int));
                    assert(self@.folders =~= before.folders);
                }
                1
            },
            None => 0,
        }
    }
}

} // verus!
