//! The tree drawn as text: one line per note and folder, with branches.

use vstd::prelude::*;
use crate::folder::folder_rows;
use crate::model::{
    folder_has_id, folder_id_taken, folder_in, folder_index, lemma_folder_index, parent_first, root,
    FolderRow, NoteRow, Tables,
};
use crate::note::note_rows;
use crate::store::Store;
use crate::text::glue;

verus! {

/// How far up in the tables a folder stands: the later it was filed, the
/// lower its rank. A folder ranks below the folder it lies in, and every
/// folder below the root.
pub open spec fn rank(t: Tables, id: Seq<char>) -> nat {
    (t.folders.len() - folder_index(t.folders, id)) as nat
}

/// The branch drawn before an entry: a corner before the last one of its
/// folder, a fork before the others.
pub open spec fn branch(last: bool) -> Seq<char> {
    if last {
        "└─"@
    } else {
        "├─"@
    }
}

/// What is drawn below a branch, before the entries one level down: nothing
/// under a corner, the trunk under a fork.
pub open spec fn trunk(last: bool) -> Seq<char> {
    if last {
        "  "@
    } else {
        "│ "@
    }
}

/// The lines of the first `count` notes of a folder. `more` says that
/// folders follow the notes, so that no note is the last entry.
pub open spec fn note_lines(notes: Seq<NoteRow>, count: int, indent: Seq<char>, more: bool) -> Seq<char>
    decreases count,
{
    if count <= 0 {
        Seq::empty()
    } else {
        note_lines(notes, count - 1, indent, more) + indent + branch(!more && count == notes.len())
            + notes[count - 1].title + "\n"@
    }
}

/// The listing of the folder `at` as text: its notes, then its folders, one
/// line each, every line made of the indent, a branch and the title, a
/// folder's title followed by a separator. With `recursive` set each folder's
/// line is followed by the listing of that folder, indented one level more.
pub open spec fn tree_text(t: Tables, at: Seq<char>, indent: Seq<char>, recursive: bool) -> Seq<char>
    decreases rank(t, at), 1nat, 0nat,
{
    let folders = t.child_folders(at);
    let notes = t.child_notes(at);
    note_lines(notes, notes.len() as int, indent, folders.len() > 0) + folder_lines(
        t,
        at,
        folders,
        folders.len(),
        indent,
        recursive,
    )
}

/// The lines of the first `count` of the folders filed under `at`, with
/// what lies below them if `recursive` is set.
pub open spec fn folder_lines(
    t: Tables,
    at: Seq<char>,
    folders: Seq<FolderRow>,
    count: nat,
    indent: Seq<char>,
    recursive: bool,
) -> Seq<char>
    decreases rank(t, at), 0nat, count,
{
    if count == 0 {
        Seq::empty()
    } else {
        let row = folders[count - 1];
        let last = count == folders.len();
        folder_lines(t, at, folders, (count - 1) as nat, indent, recursive) + indent + branch(last)
            + row.title + "/\n"@ + (if recursive && rank(t, row.id) < rank(t, at) {
            tree_text(t, row.id, indent + trunk(last), true)
        } else {
            Seq::empty()
        })
    }
}

/// In sound tables a folder ranks below the folder it is filed under.
pub proof fn lemma_child_ranks_lower(t: Tables, at: Seq<char>, row: FolderRow)
    requires
        t.wf(),
        t.folders.contains(row),
        row.parent_id == at,
    ensures
        rank(t, row.id) < rank(t, at),
{
    let c = t.folders.index_of(row);
    lemma_folder_index(t.folders, c);
    assert(parent_first(t.folders, c));
    if at == root() {
        if folder_id_taken(t.folders, at) {
            let j = choose|j: int| folder_has_id(t.folders, j, at);
            assert(folder_has_id(t.folders, j, at));
            assert(t.folders[j].id.len() > 0);
        }
    } else {
        let j = choose|j: int| 0 <= j < c && folder_has_id(t.folders, j, at);
        lemma_folder_index(t.folders, j);
    }
}

/// The line of an entry: the indent, the branch, the title, and what ends the line.
fn entry_line(indent: &str, last: bool, title: &str, end: &str) -> (line: String)
    ensures
        line@ == indent@ + branch(last) + title@ + end@,
{
    let mut line = String::from_str(indent);
    line.append(if last { "└─" } else { "├─" });
    line.append(title);
    line.append(end);
    line
}

/// Draws the listing of the folder `at`, or of the root, as text.
pub fn render_tree(at: &String, indent: &str, recursive: bool, store: &Store) -> (text: String)
    requires
        store.wf(),
    ensures
        text@ == tree_text(store@, at@, indent@, recursive),
    decreases rank(store@, at@),
{
    let (folders, notes) = store.children(at);
    let ghost note_models = note_rows(notes@);
    let ghost folder_models = folder_rows(folders@);
    let more = folders.len() > 0;
    let mut text = String::new();
    let mut i: usize = 0;
    while i < notes.len()
        invariant
            i <= notes.len(),
            note_models == note_rows(notes@),
            text@ == note_lines(note_models, i as int, indent@, more),
        decreases notes.len() - i,
    {
        let last = !more && i + 1 == notes.len();
        let ghost before = text@;
        let line = entry_line(indent, last, notes[i].title().as_str(), "\n");
        text.append(line.as_str());
        proof {
            assert(note_models[i as int] == notes[i as int]@);
            assert(text@ =~= before + indent@ + branch(last) + notes[i as int]@.title + "\n"@);
        }
        i = i + 1;
    }
    let ghost above = text@;
    let mut k: usize = 0;
    proof {
        assert(text@ =~= above + folder_lines(store@, at@, folder_models, 0, indent@, recursive));
    }
    while k < folders.len()
        invariant
            store.wf(),
            k <= folders.len(),
            folder_models == folder_rows(folders@),
            folder_models == store@.child_folders(at@),
            text@ == above + folder_lines(store@, at@, folder_models, k as nat, indent@, recursive),
        decreases folders.len() - k,
    {
        let last = k + 1 == folders.len();
        let ghost drawn = folder_lines(store@, at@, folder_models, k as nat, indent@, recursive);
        let folder = &folders[k];
        proof {
            lemma_listed_folder(store@, at@, k as int);
            assert(folder_models[k as int] == folder@);
        }
        let line = entry_line(indent, last, folder.title().as_str(), "/\n");
        let below = if recursive {
            let deeper = glue(indent, if last { "  " } else { "│ " });
            render_tree(folder.id(), deeper.as_str(), true, store)
        } else {
            String::new()
        };
        text.append(line.as_str());
        text.append(below.as_str());
        proof {
            let next = folder_lines(store@, at@, folder_models, (k + 1) as nat, indent@, recursive);
            assert(next =~= drawn + line@ + below@);
            assert(text@ =~= above + next);
        }
        k = k + 1;
    }
    text
}

/// In sound tables a folder that is listed under `at` ranks below `at`.
proof fn lemma_listed_folder(t: Tables, at: Seq<char>, k: int)
    requires
        t.wf(),
        0 <= k < t.child_folders(at).len(),
    ensures
        rank(t, t.child_folders(at)[k].id) < rank(t, at),
{
    broadcast use vstd::seq_lib::group_filter_ensures;

    let row = t.child_folders(at)[k];
    assert(folder_in(at)(row));
    assert(t.child_folders(at).contains(row));
    t.folders.lemma_filter_contains_rev(folder_in(at), row);
    lemma_child_ranks_lower(t, at, row);
}

} // verus!
