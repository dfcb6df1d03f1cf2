//! Paths of the namespace: a borrowed view over path text and an owned,
//! normalised buffer.
//!
//! Every path is absolute. Its meaning is given by `crate::grammar`, over the
//! view of the text as a sequence of characters.

use crate::error::VfsError;
use crate::grammar::{
    after_piece, canonical, extension_of, has_parent_segment, head_end, head_of, is_significant,
    join, lemma_canonical_idempotent, lemma_holds_parent_step, lemma_no_dot_no_suffix,
    lemma_piece_len, lemma_suffix_after_last_dot, segments, slashed, tail_of,
};
use vstd::prelude::*;
use vstd::string::*;

verus! {

/// A borrowed view over path text. It never owns storage.
#[derive(Debug, Clone, Copy, PartialEq, Eq)]
pub struct VfsPath<'a> {
    text: &'a str,
}

impl<'a> View for VfsPath<'a> {
    type V = Seq<char>;

    closed spec fn view(&self) -> Seq<char> {
        self.text@
    }
}

/// The views of the strings of `parts`, in order.
pub open spec fn views(parts: Seq<&str>) -> Seq<Seq<char>> {
    Seq::new(parts.len(), |i: int| parts[i]@)
}

/// The characters of `text`, decoded once so that a scan can index them.
fn decode(text: &str) -> (chars: Vec<char>)
    ensures
        chars@ == text@,
{
    let mut chars: Vec<char> = Vec::new();
    for c in it: text.chars()
        invariant
            it.seq() == text@,
            chars@ == text@.take(it.index() as int),
    {
        chars.push(c);
    }
    chars
}

/// Whether two strings hold the same text.
pub(crate) fn same_text(a: &str, b: &str) -> (same: bool)
    ensures
        same == (a@ == b@),
{
    broadcast use vstd::utf8::encode_utf8_decode_utf8;

    let x = a.as_bytes();
    let y = b.as_bytes();
    if x.len() != y.len() {
        return false;
    }
    let mut i: usize = 0;
    while i < x.len()
        invariant
            x@ == a.spec_bytes(),
            y@ == b.spec_bytes(),
            x@.len() == y@.len(),
            i <= x@.len(),
            x@.take(i as int) == y@.take(i as int),
        decreases x@.len() - i,
    {
        if x[i] != y[i] {
            assert(x@[i as int] != y@[i as int]);
            return false;
        }
        proof {
            assert(x@.take(i + 1) =~= x@.take(i as int).push(x@[i as int]));
            assert(y@.take(i + 1) =~= y@.take(i as int).push(y@[i as int]));
        }
        i += 1;
    }
    proof {
        assert(x@ =~= x@.take(i as int));
        assert(y@ =~= y@.take(i as int));
        assert(vstd::utf8::decode_utf8(a.spec_bytes()) == a@);
        assert(vstd::utf8::decode_utf8(b.spec_bytes()) == b@);
    }
    true
}

/// Finds the first segment of the text that starts at `from`: returns the
/// offsets of its first character and of the end of it, or the length of the
/// text twice if no segment is left.
fn next_segment(chars: &Vec<char>, from: usize) -> (found: (usize, usize))
    requires
        from <= chars@.len(),
    ensures
        from <= found.0 <= found.1 <= chars@.len(),
        segments(chars@.skip(from as int)).len() == 0 ==> found.0 == found.1 == chars@.len(),
        segments(chars@.skip(from as int)).len() > 0 ==> {
            &&& found.0 < found.1
            &&& chars@.subrange(found.0 as int, found.1 as int) == segments(
                chars@.skip(from as int),
            )[0]
            &&& found.1 == from + head_end(chars@.skip(from as int))
            &&& segments(chars@.skip(found.1 as int)) == segments(
                chars@.skip(from as int),
            ).drop_first()
        },
{
    let n = chars.len();
    let mut pos: usize = from;
    loop
        invariant
            n == chars@.len(),
            from <= pos <= n,
            segments(chars@.skip(pos as int)) == segments(chars@.skip(from as int)),
            from + head_end(chars@.skip(from as int)) == pos + head_end(chars@.skip(pos as int)),
        decreases n - pos,
    {
        if pos >= n {
            return (n, n);
        }
        let mut end: usize = pos;
        while end < n && chars[end] != '/'
            invariant
                n == chars@.len(),
                pos <= end <= n,
                forall|k: int| pos <= k < end ==> chars@[k] != '/',
            decreases n - end,
        {
            end += 1;
        }
        let ghost here = chars@.skip(pos as int);
        proof {
            lemma_piece_len(here, end - pos);
            assert(here.take(end - pos) =~= chars@.subrange(pos as int, end as int));
            if end < n {
                assert(after_piece(here) =~= chars@.skip(end + 1));
                let there = chars@.skip(end as int);
                lemma_piece_len(there, 0);
                assert(after_piece(there) =~= chars@.skip(end + 1));
                assert(!is_significant(there.take(0)));
            } else {
                assert(after_piece(here) =~= Seq::<char>::empty());
                assert(segments(after_piece(here)) =~= Seq::<Seq<char>>::empty());
            }
        }
        if end > pos && !(end - pos == 1 && chars[pos] == '.') {
            proof {
                assert((seq![here.take(end - pos)] + segments(after_piece(here))).drop_first()
                    =~= segments(after_piece(here)));
            }
            return (pos, end);
        }
        if end >= n {
            return (n, n);
        }
        pos = end + 1;
    }
}

/// Finds the last segment of the text: the offsets of its first character and
/// of the end of it, or two equal offsets if the text has no segment.
fn last_segment(chars: &Vec<char>) -> (found: (usize, usize))
    ensures
        found.0 <= found.1 <= chars@.len(),
        segments(chars@).len() == 0 ==> found.0 == found.1,
        segments(chars@).len() > 0 ==> found.0 < found.1 && chars@.subrange(
            found.0 as int,
            found.1 as int,
        ) == segments(chars@).last(),
{
    let mut pos: usize = 0;
    let mut last: (usize, usize) = (0, 0);
    let ghost mut seen: Seq<Seq<char>> = Seq::empty();
    proof {
        assert(chars@.skip(0) =~= chars@);
        assert(seen + segments(chars@) =~= segments(chars@));
    }
    loop
        invariant
            pos <= chars@.len(),
            last.0 <= last.1 <= chars@.len(),
            segments(chars@) == seen + segments(chars@.skip(pos as int)),
            seen.len() == 0 <==> last.0 == last.1,
            seen.len() > 0 ==> seen.last() == chars@.subrange(last.0 as int, last.1 as int),
        decreases segments(chars@.skip(pos as int)).len(),
    {
        let (start, end) = next_segment(chars, pos);
        if start == end {
            proof {
                assert(seen + Seq::<Seq<char>>::empty() =~= seen);
            }
            return last;
        }
        proof {
            let rest = segments(chars@.skip(pos as int));
            assert(seen.push(rest[0]) + rest.drop_first() =~= seen + rest);
            seen = seen.push(rest[0]);
        }
        last = (start, end);
        pos = end;
    }
}

impl<'a> VfsPath<'a> {
    /// Views `text` as a path.
    pub fn new(text: &'a str) -> (path: Self)
        ensures
            path@ == text@,
    {
        VfsPath { text }
    }

    /// The text of the path, as it was given.
    pub fn to_str(&self) -> (text: &'a str)
        ensures
            text@ == self@,
    {
        self.text
    }

    /// The segments of the path, from left to right: the pieces between `/`
    /// that are neither empty nor `.`.
    pub fn iter(&self) -> (parts: Vec<&'a str>)
        ensures
            views(parts@) == segments(self@),
    {
        let chars = decode(self.text);
        let mut parts: Vec<&'a str> = Vec::new();
        let mut pos: usize = 0;
        proof {
            assert(chars@.skip(0) =~= self@);
            assert(views(parts@) + segments(self@) =~= segments(self@));
        }
        loop
            invariant
                chars@ == self.text@,
                pos <= chars@.len(),
                segments(self@) == views(parts@) + segments(chars@.skip(pos as int)),
            decreases segments(chars@.skip(pos as int)).len(),
        {
            let (start, end) = next_segment(&chars, pos);
            if start == end {
                assert(views(parts@) + Seq::<Seq<char>>::empty() =~= views(parts@));
                return parts;
            }
            let part = self.text.substring_char(start, end);
            proof {
                let rest = segments(chars@.skip(pos as int));
                assert(views(parts@.push(part)) =~= views(parts@).push(rest[0]));
                assert(views(parts@).push(rest[0]) + rest.drop_first() =~= views(parts@) + rest);
            }
            parts.push(part);
            pos = end;
        }
    }

    /// The canonical form of the path: its segments, each preceded by one
    /// `/`; `/` alone if it has none. A canonical path is its own canonical
    /// form.
    pub fn canonicalize(&self) -> (buf: VfsPathBuf)
        ensures
            buf@ == canonical(self@),
            canonical(buf@) == buf@,
    {
        let parts = self.iter();
        proof {
            lemma_canonical_idempotent(self@);
        }
        VfsPathBuf::from_iter(parts.as_slice())
    }

    /// Rejects the path if one of its segments is `..`, and hands it back
    /// otherwise.
    pub fn validate(&self) -> (checked: Result<VfsPath<'a>, VfsError>)
        ensures
            has_parent_segment(self@) ==> checked == Err::<VfsPath<'a>, VfsError>(
                VfsError::InvalidPath,
            ),
            !has_parent_segment(self@) ==> checked == Ok::<VfsPath<'a>, VfsError>(*self),
    {
        let chars = decode(self.text);
        let mut pos: usize = 0;
        proof {
            assert(chars@.skip(0) =~= self@);
        }
        loop
            invariant
                chars@ == self.text@,
                pos <= chars@.len(),
                has_parent_segment(self@) == has_parent_segment(chars@.skip(pos as int)),
            decreases segments(chars@.skip(pos as int)).len(),
        {
            let (start, end) = next_segment(&chars, pos);
            if start == end {
                return Ok(*self);
            }
            proof {
                lemma_holds_parent_step(segments(chars@.skip(pos as int)));
            }
            if end - start == 2 && chars[start] == '.' && chars[start + 1] == '.' {
                return Err(VfsError::InvalidPath);
            }
            pos = end;
        }
    }

    /// Takes one level off the path: its first segment, and what follows that
    /// segment if a further segment is left there. The tail keeps the `/` that
    /// it begins with. A path without segments gives the empty head and no
    /// tail.
    pub fn take_head(&self) -> (parts: (&'a str, Option<VfsPath<'a>>))
        ensures
            parts.0@ == head_of(self@),
            match parts.1 {
                Some(tail) => tail_of(self@) == Some(tail@),
                None => tail_of(self@) is None,
            },
    {
        let chars = decode(self.text);
        proof {
            assert(chars@.skip(0) =~= self@);
        }
        let (start, end) = next_segment(&chars, 0);
        if start == end {
            let head: &'a str = "";
            proof {
                reveal_strlit("");
                assert(head@ =~= Seq::<char>::empty());
            }
            return (head, None);
        }
        let head = self.text.substring_char(start, end);
        let (next_start, next_end) = next_segment(&chars, end);
        if next_start == next_end {
            return (head, None);
        }
        let tail = VfsPath { text: self.text.substring_char(end, chars.len()) };
        (head, Some(tail))
    }

    /// The extension of the path: what follows the last `.` of its last
    /// segment. It is empty if that segment ends with `.`, and there is none
    /// if the segment holds no `.` or the path has no segment.
    pub fn extension(&self) -> (ext: Option<&'a str>)
        ensures
            match ext {
                Some(suffix) => extension_of(self@) == Some(suffix@),
                None => extension_of(self@) is None,
            },
    {
        let chars = decode(self.text);
        let (start, end) = last_segment(&chars);
        if start == end {
            return None;
        }
        let ghost segment = chars@.subrange(start as int, end as int);
        let mut cut: usize = end;
        while cut > start && chars[cut - 1] != '.'
            invariant
                start <= cut <= end <= chars@.len(),
                forall|k: int| cut <= k < end ==> chars@[k] != '.',
            decreases cut,
        {
            cut -= 1;
        }
        if cut == start {
            proof {
                lemma_no_dot_no_suffix(segment);
            }
            return None;
        }
        proof {
            lemma_suffix_after_last_dot(segment, cut - 1 - start);
            assert(segment.skip(cut - start) =~= chars@.subrange(cut as int, end as int));
        }
        Some(self.text.substring_char(cut, end))
    }

    /// An owned copy of the path, text unchanged.
    pub fn to_path_buf(&self) -> (buf: VfsPathBuf)
        ensures
            buf@ == self@,
    {
        VfsPathBuf { text: self.text.to_owned() }
    }
}

/// An owned path.
#[derive(Debug, PartialEq, Eq)]
pub struct VfsPathBuf {
    text: String,
}

impl View for VfsPathBuf {
    type V = Seq<char>;

    closed spec fn view(&self) -> Seq<char> {
        self.text@
    }
}

impl Default for VfsPathBuf {
    fn default() -> (buf: Self)
        ensures
            buf@ == Seq::<char>::empty(),
    {
        VfsPathBuf { text: String::new() }
    }
}

impl<'a> From<&'a str> for VfsPathBuf {
    /// An owned path with the text of `text`, unchanged.
    fn from(text: &'a str) -> (buf: Self)
        ensures
            buf@ == text@,
    {
        VfsPathBuf { text: text.to_owned() }
    }
}

impl<'a> vstd::std_specs::convert::FromSpecImpl<&'a str> for VfsPathBuf {
    open spec fn obeys_from_spec() -> bool {
        false
    }

    open spec fn from_spec(text: &'a str) -> Self {
        choose|buf: VfsPathBuf| buf@ == text@
    }
}

impl From<String> for VfsPathBuf {
    /// An owned path that takes `text` over, unchanged.
    fn from(text: String) -> (buf: Self)
        ensures
            buf@ == text@,
    {
        VfsPathBuf { text }
    }
}

impl vstd::std_specs::convert::FromSpecImpl<String> for VfsPathBuf {
    open spec fn obeys_from_spec() -> bool {
        true
    }

    closed spec fn from_spec(text: String) -> Self {
        VfsPathBuf { text }
    }
}

impl VfsPathBuf {
    /// A buffer that holds no text yet.
    pub fn new() -> (buf: Self)
        ensures
            buf@ == Seq::<char>::empty(),
    {
        VfsPathBuf { text: String::new() }
    }

    /// The path built from `parts`: each part preceded by one `/`, and `/`
    /// alone if there is no part.
    pub fn from_iter(parts: &[&str]) -> (buf: Self)
        ensures
            buf@ == join(views(parts@)),
    {
        let mut text = String::new();
        if parts.len() == 0 {
            proof {
                reveal_strlit("/");
            }
            text.append("/");
            assert(text@ =~= seq!['/']);
            return VfsPathBuf { text };
        }
        let mut i: usize = 0;
        while i < parts.len()
            invariant
                i <= parts@.len(),
                text@ == slashed(views(parts@).take(i as int)),
            decreases parts@.len() - i,
        {
            proof {
                reveal_strlit("/");
                let names = views(parts@);
                assert(names.take(i + 1).drop_last() =~= names.take(i as int));
                assert("/"@ =~= seq!['/']);
            }
            text.append("/");
            text.append(parts[i]);
            i += 1;
        }
        proof {
            assert(views(parts@).take(i as int) =~= views(parts@));
        }
        VfsPathBuf { text }
    }

    /// The path as a borrowed view.
    pub fn as_path(&self) -> (path: VfsPath<'_>)
        ensures
            path@ == self@,
    {
        VfsPath { text: self.text.as_str() }
    }
}

} // verus!
