//! Paths: slash-separated strings and the segments they name.

use vstd::prelude::*;

verus! {

/// The separator between two segments of a path.
pub const SEPARATOR: char = '/';

/// What a left-to-right scan of a path has found so far: the segments that a
/// separator has closed, and the characters read since the last separator.
pub ghost struct Scan {
    pub closed: Seq<Seq<char>>,
    pub open: Seq<char>,
}

impl Scan {
    /// The segments found when the text ends here: the closed ones, and the
    /// open one if it holds anything.
    pub open spec fn finish(self) -> Seq<Seq<char>> {
        if self.open.len() > 0 {
            self.closed.push(self.open)
        } else {
            self.closed
        }
    }
}

/// The state of the scan after all of `text` has been read.
pub open spec fn scan(text: Seq<char>) -> Scan
    decreases text.len(),
{
    if text.len() == 0 {
        Scan { closed: Seq::empty(), open: Seq::empty() }
    } else {
        let before = scan(text.drop_last());
        if text.last() == SEPARATOR {
            Scan { closed: before.finish(), open: Seq::empty() }
        } else {
            Scan { closed: before.closed, open: before.open.push(text.last()) }
        }
    }
}

/// The segments of a path: its maximal runs of characters other than the
/// separator, in order. Leading, trailing and doubled separators name nothing.
pub open spec fn segments(path: Seq<char>) -> Seq<Seq<char>> {
    scan(path).finish()
}

/// Splits a path into its segments.
pub fn split_path(path: &str) -> (segs: Vec<String>)
    ensures
        segs.deep_view() == segments(path@),
{
    let n = path.unicode_len();
    let mut segs: Vec<String> = Vec::new();
    let mut start: usize = 0;
    let mut i: usize = 0;
    while i < n
        invariant
            n == path@.len(),
            start <= i <= n,
            segs.deep_view() == scan(path@.take(i as int)).closed,
            path@.subrange(start as int, i as int) == scan(path@.take(i as int)).open,
        decreases n - i,
    {
        let c = path.get_char(i);
        proof {
            assert(path@.take(i as int + 1).drop_last() == path@.take(i as int));
            assert(path@.take(i as int + 1).last() == c);
        }
        if c == SEPARATOR {
            if start < i {
                let piece = path.substring_char(start, i);
                segs.push(piece.to_owned());
            }
            start = i + 1;
        }
        i = i + 1;
    }
    proof {
        assert(path@.take(n as int) == path@);
    }
    if start < n {
        let ghost closed = segs.deep_view();
        let piece = path.substring_char(start, n);
        segs.push(piece.to_owned());
        proof {
            assert(segs.deep_view() =~= closed.push(piece@));
        }
    }
    segs
}

/// A text that can be a segment: it holds something, and no separator.
pub open spec fn is_segment(text: Seq<char>) -> bool {
    text.len() > 0 && !text.contains(SEPARATOR)
}

/// A scan closes segments only, and holds no separator in the open one.
pub proof fn lemma_scan_segments(text: Seq<char>)
    ensures
        forall|i: int| 0 <= i < scan(text).closed.len() ==> is_segment(#[trigger] scan(text).closed[i]),
        !scan(text).open.contains(SEPARATOR),
    decreases text.len(),
{
    if text.len() > 0 {
        lemma_scan_segments(text.drop_last());
        let before = scan(text.drop_last());
        if text.last() != SEPARATOR {
            let open = before.open.push(text.last());
            if open.contains(SEPARATOR) {
                let k = open.index_of(SEPARATOR);
                assert(before.open[k] == SEPARATOR);
                assert(before.open.contains(SEPARATOR));
            }
        }
    }
}

/// Every segment of a path holds something, and no separator.
pub proof fn lemma_segments_are_segments(path: Seq<char>)
    ensures
        forall|i: int| 0 <= i < segments(path).len() ==> is_segment(#[trigger] segments(path)[i]),
{
    lemma_scan_segments(path);
}

/// A text without separators is scanned as one open segment.
pub proof fn lemma_scan_plain(text: Seq<char>)
    requires
        !text.contains(SEPARATOR),
    ensures
        scan(text) == (Scan { closed: Seq::empty(), open: text }),
    decreases text.len(),
{
    if text.len() > 0 {
        let front = text.drop_last();
        if front.contains(SEPARATOR) {
            let k = front.index_of(SEPARATOR);
            assert(text[k] == SEPARATOR);
        }
        assert(text[text.len() - 1] == text.last());
        lemma_scan_plain(front);
        assert(front.push(text.last()) == text);
    } else {
        assert(text == Seq::<char>::empty());
    }
}

/// A segment, taken as a path, has itself as its only segment.
pub proof fn lemma_segment_alone(text: Seq<char>)
    requires
        is_segment(text),
    ensures
        segments(text) == seq![text],
{
    lemma_scan_plain(text);
    assert(Seq::<Seq<char>>::empty().push(text) == seq![text]);
}

/// Scanning two texts joined by a separator: the segments of the first are
/// closed, and the scan goes on as that of the second.
pub proof fn lemma_scan_joined(front: Seq<char>, back: Seq<char>)
    ensures
        scan(front + seq![SEPARATOR] + back) == (Scan {
            closed: segments(front) + scan(back).closed,
            open: scan(back).open,
        }),
    decreases back.len(),
{
    let whole = front + seq![SEPARATOR] + back;
    if back.len() == 0 {
        assert(whole.drop_last() == front);
        assert(whole.last() == SEPARATOR);
        assert(segments(front) + Seq::<Seq<char>>::empty() == segments(front));
    } else {
        assert(whole.drop_last() == front + seq![SEPARATOR] + back.drop_last());
        assert(whole.last() == back.last());
        lemma_scan_joined(front, back.drop_last());
        let before = scan(back.drop_last());
        if back.last() == SEPARATOR {
            if before.open.len() > 0 {
                assert((segments(front) + before.closed).push(before.open) == segments(front)
                    + before.closed.push(before.open));
            }
        }
    }
}

/// The segments of two paths joined by a separator are those of the first
/// followed by those of the second.
pub proof fn lemma_segments_joined(front: Seq<char>, back: Seq<char>)
    ensures
        segments(front + seq![SEPARATOR] + back) == segments(front) + segments(back),
{
    lemma_scan_joined(front, back);
    let after = scan(back);
    if after.open.len() > 0 {
        assert((segments(front) + after.closed).push(after.open) == segments(front)
            + after.closed.push(after.open));
    }
}

/// `base` followed by `name` as a path below it.
pub open spec fn joined(base: Seq<char>, name: Seq<char>) -> Seq<char> {
    if base.len() == 0 {
        name
    } else {
        base + seq![SEPARATOR] + name
    }
}

/// The path that leads through `base` and on through `name`.
pub fn join(base: &str, name: &str) -> (path: String)
    ensures
        path@ == joined(base@, name@),
        segments(path@) == segments(base@) + segments(name@),
{
    if base.is_empty() {
        proof {
            assert(base@ == Seq::<char>::empty());
            assert(Seq::<Seq<char>>::empty() + segments(name@) == segments(name@));
        }
        String::from_str(name)
    } else {
        let mut path = String::from_str(base);
        path.append("/");
        path.append(name);
        proof {
            reveal_strlit("/");
            assert("/"@ =~= seq![SEPARATOR]);
            lemma_segments_joined(base@, name@);
        }
        path
    }
}

/// The path made of the first `count` of the given segments.
pub open spec fn path_of(segs: Seq<Seq<char>>, count: int) -> Seq<char>
    decreases count,
{
    if count <= 0 {
        Seq::empty()
    } else {
        joined(path_of(segs, count - 1), segs[count - 1])
    }
}

/// A path made of segments has exactly these segments.
pub proof fn lemma_path_of(segs: Seq<Seq<char>>, count: int)
    requires
        0 <= count <= segs.len(),
        forall|i: int| 0 <= i < segs.len() ==> is_segment(#[trigger] segs[i]),
    ensures
        segments(path_of(segs, count)) == segs.take(count),
    decreases count,
{
    if count > 0 {
        lemma_path_of(segs, count - 1);
        let base = path_of(segs, count - 1);
        let name = segs[count - 1];
        lemma_segment_alone(name);
        if base.len() > 0 {
            lemma_segments_joined(base, name);
        } else {
            assert(base == Seq::<char>::empty());
            assert(segs.take(count - 1) == Seq::<Seq<char>>::empty());
        }
        assert(segs.take(count - 1) + seq![name] == segs.take(count));
    } else {
        assert(segs.take(count) == Seq::<Seq<char>>::empty());
    }
}

/// The path of the folder that holds what `path` names: all its segments but
/// the last, joined by single separators. The path without segments stays
/// as it is.
pub open spec fn parent_of(path: Seq<char>) -> Seq<char> {
    path_of(segments(path), segments(path).len() - 1)
}

/// The path of the folder that holds what `path` names.
pub fn parent(path: &str) -> (above: String)
    ensures
        above@ == parent_of(path@),
        segments(above@) == (if segments(path@).len() > 0 {
            segments(path@).drop_last()
        } else {
            segments(path@)
        }),
{
    let segs = split_path(path);
    let ghost whole = segs.deep_view();
    let count = if segs.len() > 0 {
        segs.len() - 1
    } else {
        0
    };
    let mut above = String::new();
    let mut i: usize = 0;
    proof {
        lemma_segments_are_segments(path@);
    }
    while i < count
        invariant
            whole == segs.deep_view(),
            count <= segs.len(),
            i <= count,
            above@ == path_of(whole, i as int),
        decreases count - i,
    {
        proof {
            assert(segs[i as int]@ == whole[i as int]);
        }
        above = join(above.as_str(), segs[i].as_str());
        i = i + 1;
    }
    proof {
        lemma_path_of(whole, count as int);
        if segs.len() == 0 {
            assert(whole.take(0) == whole);
        }
    }
    above
}

/// The last segment of a path, or nothing for a path without segments.
pub open spec fn name_of(path: Seq<char>) -> Seq<char> {
    if segments(path).len() > 0 {
        segments(path).last()
    } else {
        Seq::empty()
    }
}

/// The last segment of `path`: the name of what it leads to.
pub fn file_name(path: &str) -> (name: String)
    ensures
        name@ == name_of(path@),
{
    let mut segs = split_path(path);
    match segs.pop() {
        Some(name) => name,
        None => String::new(),
    }
}

} // verus!
