//! The path grammar, stated over sequences of characters.
//!
//! A path is text cut into pieces by `/`. A piece is *significant* unless it is
//! empty or the single character `.`; the significant pieces, in order, are the
//! path's segments. Everything the executable path types compute is specified
//! by the functions of this module.

use vstd::prelude::*;

verus! {

/// The number of characters that stand before the first `/` of `text`
/// (all of them if `text` holds no `/`).
pub open spec fn piece_len(text: Seq<char>) -> nat
    decreases text.len(),
{
    if text.len() == 0 || text[0] == '/' {
        0
    } else {
        1 + piece_len(text.drop_first())
    }
}

/// A piece counts as a segment unless it is empty or `.`.
pub open spec fn is_significant(piece: Seq<char>) -> bool {
    piece.len() > 0 && !(piece.len() == 1 && piece[0] == '.')
}

/// The piece `..`, which no valid path may hold.
pub open spec fn is_parent(piece: Seq<char>) -> bool {
    piece.len() == 2 && piece[0] == '.' && piece[1] == '.'
}

/// What follows the first piece of `text` and its separator.
pub open spec fn after_piece(text: Seq<char>) -> Seq<char> {
    if piece_len(text) < text.len() {
        text.skip(piece_len(text) + 1 as int)
    } else {
        Seq::empty()
    }
}

/// The significant segments of `text`, from left to right.
pub open spec fn segments(text: Seq<char>) -> Seq<Seq<char>>
    decreases text.len(),
{
    if text.len() == 0 {
        Seq::empty()
    } else {
        let piece = text.take(piece_len(text) as int);
        if is_significant(piece) {
            seq![piece] + segments(after_piece(text))
        } else {
            segments(after_piece(text))
        }
    }
}

/// The offset in `text` just past its first segment; the length of `text` if
/// it has no segment.
pub open spec fn head_end(text: Seq<char>) -> nat
    decreases text.len(),
{
    if text.len() == 0 {
        0
    } else {
        let n = piece_len(text);
        if is_significant(text.take(n as int)) || n >= text.len() {
            n
        } else {
            n + 1 + head_end(after_piece(text))
        }
    }
}

/// The first segment of `text`, or the empty sequence if it has none.
pub open spec fn head_of(text: Seq<char>) -> Seq<char> {
    if segments(text).len() == 0 {
        Seq::empty()
    } else {
        segments(text)[0]
    }
}

/// The text that follows the first segment of `text`. When it is not empty it
/// begins with the `/` that ended the segment.
pub open spec fn remainder(text: Seq<char>) -> Seq<char> {
    text.skip(head_end(text) as int)
}

/// The tail that one step of descent hands on: the remainder, if it still
/// holds a segment.
pub open spec fn tail_of(text: Seq<char>) -> Option<Seq<char>> {
    if segments(text).len() > 1 {
        Some(remainder(text))
    } else {
        None
    }
}

/// Whether one of `names` is `..`.
pub open spec fn holds_parent(names: Seq<Seq<char>>) -> bool {
    exists|i: int| 0 <= i < names.len() && is_parent(#[trigger] names[i])
}

/// Whether some segment of `text` is `..`.
pub open spec fn has_parent_segment(text: Seq<char>) -> bool {
    holds_parent(segments(text))
}

/// Each name preceded by one `/`.
pub open spec fn slashed(names: Seq<Seq<char>>) -> Seq<char>
    decreases names.len(),
{
    if names.len() == 0 {
        Seq::empty()
    } else {
        slashed(names.drop_last()) + seq!['/'] + names.last()
    }
}

/// The path text built from `names`: `/` alone for no name, otherwise every
/// name preceded by one `/`, with no `/` at the end.
pub open spec fn join(names: Seq<Seq<char>>) -> Seq<char> {
    if names.len() == 0 {
        seq!['/']
    } else {
        slashed(names)
    }
}

/// The canonical form of `text`: its segments joined.
pub open spec fn canonical(text: Seq<char>) -> Seq<char> {
    join(segments(text))
}

/// The text after the last `.` of `segment`, if it holds a `.`.
pub open spec fn suffix_after_dot(segment: Seq<char>) -> Option<Seq<char>>
    decreases segment.len(),
{
    if segment.len() == 0 {
        None
    } else if segment.last() == '.' {
        Some(Seq::empty())
    } else {
        match suffix_after_dot(segment.drop_last()) {
            Some(suffix) => Some(suffix.push(segment.last())),
            None => None,
        }
    }
}

/// The extension of a path: the text after the last `.` of its last segment.
pub open spec fn extension_of(text: Seq<char>) -> Option<Seq<char>> {
    if segments(text).len() == 0 {
        None
    } else {
        suffix_after_dot(segments(text).last())
    }
}

/// A name that is a significant piece and holds no `/`: what a segment is.
pub open spec fn is_name(name: Seq<char>) -> bool {
    is_significant(name) && !name.contains('/')
}

/// `piece_len` is the offset of the first `/`.
pub proof fn lemma_piece_len(text: Seq<char>, n: int)
    requires
        0 <= n <= text.len(),
        forall|k: int| 0 <= k < n ==> text[k] != '/',
        n < text.len() ==> text[n] == '/',
    ensures
        piece_len(text) == n,
    decreases n,
{
    if n > 0 {
        lemma_piece_len(text.drop_first(), n - 1);
    }
}

/// The first piece holds no `/`, and a `/` follows it unless the text ends.
pub proof fn lemma_piece_len_bounds(text: Seq<char>)
    ensures
        piece_len(text) <= text.len(),
        forall|k: int| 0 <= k < piece_len(text) ==> text[k] != '/',
        piece_len(text) < text.len() ==> text[piece_len(text) as int] == '/',
    decreases text.len(),
{
    if text.len() > 0 && text[0] != '/' {
        let rest = text.drop_first();
        lemma_piece_len_bounds(rest);
        assert forall|k: int| 0 <= k < piece_len(text) implies text[k] != '/' by {
            if k > 0 {
                assert(text[k] == rest[k - 1]);
            }
        }
        assert(piece_len(text) < text.len() ==> text[piece_len(text) as int] == rest[piece_len(
            rest,
        ) as int]);
    }
}

/// Every segment is a name: significant, and without `/`.
pub proof fn lemma_segments_are_names(text: Seq<char>)
    ensures
        forall|i: int| 0 <= i < segments(text).len() ==> is_name(#[trigger] segments(text)[i]),
    decreases text.len(),
{
    if text.len() > 0 {
        lemma_piece_len_bounds(text);
        lemma_segments_are_names(after_piece(text));
        let piece = text.take(piece_len(text) as int);
        let rest = segments(after_piece(text));
        if is_significant(piece) {
            assert forall|i: int| 0 <= i < segments(text).len() implies is_name(
                #[trigger] segments(text)[i],
            ) by {
                if i > 0 {
                    assert(segments(text)[i] == rest[i - 1]);
                }
            }
        }
    }
}

/// A text without `/` is one piece: its only segment, if it is significant.
pub proof fn lemma_segments_of_piece(piece: Seq<char>)
    requires
        !piece.contains('/'),
    ensures
        segments(piece) == if is_significant(piece) {
            seq![piece]
        } else {
            Seq::empty()
        },
{
    if piece.len() > 0 {
        assert forall|k: int| 0 <= k < piece.len() implies piece[k] != '/' by {
            assert(piece.contains(piece[k]));
        }
        lemma_piece_len(piece, piece.len() as int);
        assert(piece.take(piece.len() as int) =~= piece);
        assert(segments(after_piece(piece)) =~= Seq::<Seq<char>>::empty());
        assert(seq![piece] + Seq::<Seq<char>>::empty() =~= seq![piece]);
    }
}

/// A `/` and one more piece at the end of a text add that piece to its
/// segments, if the piece is significant.
pub proof fn lemma_segments_push_piece(text: Seq<char>, piece: Seq<char>)
    requires
        !piece.contains('/'),
    ensures
        segments(text + seq!['/'] + piece) == if is_significant(piece) {
            segments(text).push(piece)
        } else {
            segments(text)
        },
    decreases text.len(),
{
    let whole = text + seq!['/'] + piece;
    lemma_segments_of_piece(piece);
    if text.len() == 0 {
        lemma_piece_len(whole, 0);
        assert(after_piece(whole) =~= piece);
        assert(Seq::<Seq<char>>::empty().push(piece) =~= seq![piece]);
    } else {
        let n = piece_len(text) as int;
        lemma_piece_len_bounds(text);
        lemma_piece_len(whole, n);
        assert(whole.take(n) =~= text.take(n));
        let first = text.take(n);
        if n < text.len() {
            assert(after_piece(whole) =~= after_piece(text) + seq!['/'] + piece);
            lemma_segments_push_piece(after_piece(text), piece);
            let rest = segments(after_piece(text));
            assert(seq![first] + rest.push(piece) =~= (seq![first] + rest).push(piece));
        } else {
            assert(after_piece(whole) =~= piece);
            let none = Seq::<Seq<char>>::empty();
            assert(segments(after_piece(text)) =~= none);
            assert(seq![first] + seq![piece] =~= (seq![first] + none).push(piece));
            assert(none.push(piece) =~= seq![piece]);
        }
    }
}

/// Names that are joined come back as the segments of the joined text.
pub proof fn lemma_segments_of_join(names: Seq<Seq<char>>)
    requires
        forall|i: int| 0 <= i < names.len() ==> is_name(#[trigger] names[i]),
    ensures
        segments(join(names)) == names,
        names.len() > 0 ==> segments(slashed(names)) == names,
    decreases names.len(),
{
    if names.len() == 0 {
        let root = seq!['/'];
        lemma_piece_len(root, 0);
        assert(after_piece(root) =~= Seq::<char>::empty());
        assert(segments(after_piece(root)) =~= names);
    } else {
        let front = names.drop_last();
        if front.len() > 0 {
            lemma_segments_of_join(front);
        } else {
            assert(segments(slashed(front)) =~= front);
        }
        lemma_segments_push_piece(slashed(front), names.last());
        assert(front.push(names.last()) =~= names);
    }
}

/// Where the first segment of `text` begins: `head_end` less its length.
pub open spec fn head_start(text: Seq<char>) -> int {
    head_end(text) - head_of(text).len()
}

/// The head of a path stands in the text right before the remainder, and no
/// segment stands before the head. The remainder holds the other segments of
/// the path, and begins with `/` unless it is empty.
pub proof fn lemma_head_and_remainder(text: Seq<char>)
    ensures
        0 <= head_start(text) <= head_end(text) <= text.len(),
        text.subrange(head_start(text), head_end(text) as int) == head_of(text),
        segments(text.take(head_start(text))).len() == 0,
        segments(text).len() == 0 ==> segments(remainder(text)).len() == 0,
        segments(text).len() > 0 ==> segments(remainder(text)) == segments(text).drop_first(),
        remainder(text).len() > 0 ==> remainder(text)[0] == '/',
    decreases text.len(),
{
    let none = Seq::<char>::empty();
    if text.len() > 0 {
        let n = piece_len(text) as int;
        lemma_piece_len_bounds(text);
        let rest = after_piece(text);
        if is_significant(text.take(n)) {
            let tail = text.skip(n);
            assert((seq![text.take(n)] + segments(rest)).drop_first() =~= segments(rest));
            assert(text.subrange(0, n) =~= text.take(n));
            assert(text.take(0) =~= none);
            if n < text.len() {
                lemma_piece_len(tail, 0);
                assert(after_piece(tail) =~= rest);
            } else {
                assert(segments(rest) =~= Seq::<Seq<char>>::empty());
            }
        } else if n < text.len() {
            lemma_head_and_remainder(rest);
            assert(rest.skip(head_end(rest) as int) =~= text.skip(n + 1 + head_end(rest)));
            assert(rest.subrange(head_start(rest), head_end(rest) as int) =~= text.subrange(
                n + 1 + head_start(rest),
                n + 1 + head_end(rest),
            ));
            let before = text.take(n + 1 + head_start(rest));
            lemma_piece_len(before, n);
            assert(before.take(n) =~= text.take(n));
            assert(after_piece(before) =~= rest.take(head_start(rest)));
        } else {
            assert(segments(rest) =~= Seq::<Seq<char>>::empty());
            assert(text.subrange(n, n) =~= none);
            assert(text.take(n) =~= text);
        }
    } else {
        assert(text.subrange(0, 0) =~= none);
        assert(text.take(0) =~= none);
    }
}

/// A `/`, a name and a text that is empty or begins with `/`: the segments
/// are the name and then those of the text.
pub proof fn lemma_segments_prepend(name: Seq<char>, rest: Seq<char>)
    requires
        is_name(name),
        rest.len() > 0 ==> rest[0] == '/',
    ensures
        segments(seq!['/'] + name + rest) == seq![name] + segments(rest),
{
    let whole = seq!['/'] + name + rest;
    let inner = name + rest;
    lemma_piece_len(whole, 0);
    assert(after_piece(whole) =~= inner);
    assert forall|k: int| 0 <= k < name.len() implies inner[k] != '/' by {
        assert(name.contains(name[k]));
    }
    lemma_piece_len(inner, name.len() as int);
    assert(inner.take(name.len() as int) =~= name);
    if rest.len() > 0 {
        lemma_piece_len(rest, 0);
        assert(after_piece(inner) =~= after_piece(rest));
        assert(segments(rest) == segments(after_piece(rest)));
    } else {
        assert(after_piece(inner) =~= rest);
    }
    assert(segments(inner) == seq![name] + segments(after_piece(inner)));
    assert(segments(whole) == segments(inner));
}

/// The head of a path and the tail that `tail_of` hands on, set together
/// again behind one `/`, are a path with the same canonical form.
pub proof fn lemma_take_head_composition(text: Seq<char>)
    ensures
        canonical(
            seq!['/'] + head_of(text) + match tail_of(text) {
                Some(tail) => tail,
                None => Seq::empty(),
            },
        ) == canonical(text),
{
    let names = segments(text);
    let none = Seq::<char>::empty();
    if names.len() == 0 {
        lemma_segments_of_join(names);
        assert(seq!['/'] + none + none =~= seq!['/']);
    } else {
        lemma_segments_are_names(text);
        lemma_head_and_remainder(text);
        if names.len() > 1 {
            lemma_segments_prepend(names[0], remainder(text));
            assert(seq![names[0]] + names.drop_first() =~= names);
        } else {
            lemma_segments_prepend(names[0], none);
            assert(seq![names[0]] + segments(none) =~= names);
        }
    }
}

/// Canonicalising twice gives what canonicalising once gives.
pub proof fn lemma_canonical_idempotent(text: Seq<char>)
    ensures
        canonical(canonical(text)) == canonical(text),
{
    lemma_segments_are_names(text);
    lemma_segments_of_join(segments(text));
}

/// `..` is among some names if it is the first of them or among the others.
pub proof fn lemma_holds_parent_step(names: Seq<Seq<char>>)
    requires
        names.len() > 0,
    ensures
        holds_parent(names) <==> is_parent(names[0]) || holds_parent(names.drop_first()),
{
    let rest = names.drop_first();
    if holds_parent(names) {
        let i = choose|i: int| 0 <= i < names.len() && is_parent(#[trigger] names[i]);
        if i > 0 {
            assert(is_parent(rest[i - 1]));
        }
    }
    if holds_parent(rest) {
        let i = choose|i: int| 0 <= i < rest.len() && is_parent(#[trigger] rest[i]);
        assert(is_parent(names[i + 1]));
    }
}

/// A segment without `.` has no extension.
pub proof fn lemma_no_dot_no_suffix(segment: Seq<char>)
    requires
        forall|k: int| 0 <= k < segment.len() ==> segment[k] != '.',
    ensures
        suffix_after_dot(segment) is None,
    decreases segment.len(),
{
    if segment.len() > 0 {
        lemma_no_dot_no_suffix(segment.drop_last());
    }
}

/// The extension is what follows the last `.`.
pub proof fn lemma_suffix_after_last_dot(segment: Seq<char>, dot: int)
    requires
        0 <= dot < segment.len(),
        segment[dot] == '.',
        forall|k: int| dot < k < segment.len() ==> segment[k] != '.',
    ensures
        suffix_after_dot(segment) == Some(segment.skip(dot + 1)),
    decreases segment.len(),
{
    if segment.last() == '.' {
        assert(dot == segment.len() - 1);
        assert(segment.skip(dot + 1) =~= Seq::<char>::empty());
    } else {
        let front = segment.drop_last();
        lemma_suffix_after_last_dot(front, dot);
        assert(front.skip(dot + 1).push(segment.last()) =~= segment.skip(dot + 1));
    }
}

} // verus!
