//! Cutting texts into pieces.

use vstd::prelude::*;
use vstd::string::StringExecFns;

verus! {

/// The characters at which a text is cut.
#[derive(Debug, Clone, Copy, PartialEq, Eq, Structural)]
pub enum Cut {
    /// Space, tab, line feed, form feed and carriage return.
    Blanks,
    /// The slash between the parts of a path.
    Slashes,
}

/// Whether a character is one at which a text is cut.
pub open spec fn cuts(cut: Cut, c: char) -> bool {
    match cut {
        Cut::Blanks => c == ' ' || c == '\t' || c == '\n' || c == '\x0C' || c == '\r',
        Cut::Slashes => c == '/',
    }
}

/// The pieces of a text: its longest runs of characters at which it is not
/// cut, in their order. No piece is empty.
pub open spec fn pieces(cut: Cut, text: Seq<char>) -> Seq<Seq<char>>
    decreases text.len(),
{
    if text.len() == 0 {
        Seq::empty()
    } else {
        let before = pieces(cut, text.drop_last());
        if cuts(cut, text.last()) {
            before
        } else if text.len() >= 2 && !cuts(cut, text[text.len() - 2]) {
            before.update(before.len() - 1, before.last().push(text.last()))
        } else {
            before.push(seq![text.last()])
        }
    }
}

/// The words of a text: what stands between blanks. Nothing else is
/// special: no quotes, no escapes.
pub open spec fn words(text: Seq<char>) -> Seq<Seq<char>> {
    pieces(Cut::Blanks, text)
}

/// The parts of a path: what stands between slashes.
pub open spec fn path_parts(path: Seq<char>) -> Seq<Seq<char>> {
    pieces(Cut::Slashes, path)
}

/// Whether a text is one piece: not empty, and cut nowhere.
pub open spec fn is_piece(cut: Cut, text: Seq<char>) -> bool {
    text.len() > 0 && forall|i: int| 0 <= i < text.len() ==> !cuts(cut, #[trigger] text[i])
}

/// Each of the pieces of a text is one piece: none is empty, and none holds
/// a character at which the text is cut.
pub proof fn lemma_pieces_are_pieces(cut: Cut, text: Seq<char>, i: int)
    requires
        0 <= i < pieces(cut, text).len(),
    ensures
        is_piece(cut, pieces(cut, text)[i]),
    decreases text.len(),
{
    if text.len() > 0 {
        let before = pieces(cut, text.drop_last());
        if cuts(cut, text.last()) {
            lemma_pieces_are_pieces(cut, text.drop_last(), i);
        } else if text.len() >= 2 && !cuts(cut, text[text.len() - 2]) {
            lemma_last_piece(cut, text.drop_last());
            if i < before.len() - 1 {
                lemma_pieces_are_pieces(cut, text.drop_last(), i);
            } else {
                lemma_pieces_are_pieces(cut, text.drop_last(), before.len() - 1);
                let grown = before.last().push(text.last());
                assert forall|j: int| 0 <= j < grown.len() implies !cuts(
                    cut,
                    #[trigger] grown[j],
                ) by {
                    if j < before.last().len() {
                        assert(grown[j] == before.last()[j]);
                    }
                }
            }
        } else {
            if i < before.len() {
                lemma_pieces_are_pieces(cut, text.drop_last(), i);
            }
        }
    }
}

/// A text that does not end where it is cut has a last piece.
proof fn lemma_last_piece(cut: Cut, text: Seq<char>)
    requires
        text.len() > 0,
        !cuts(cut, text.last()),
    ensures
        pieces(cut, text).len() > 0,
    decreases text.len(),
{
    if text.len() >= 2 && !cuts(cut, text[text.len() - 2]) {
        lemma_last_piece(cut, text.drop_last());
    }
}

/// A piece that is put behind a text that ends where it is cut is the last
/// of the pieces.
pub proof fn lemma_piece_behind(cut: Cut, text: Seq<char>, piece: Seq<char>)
    requires
        is_piece(cut, piece),
        text.len() == 0 || cuts(cut, text.last()),
    ensures
        pieces(cut, text + piece) == pieces(cut, text).push(piece),
    decreases piece.len(),
{
    let whole = text + piece;
    assert(whole.last() == piece.last());
    assert(!cuts(cut, piece[piece.len() - 1]));
    if piece.len() == 1 {
        assert(whole.drop_last() =~= text);
        assert(seq![whole.last()] =~= piece);
        if text.len() > 0 {
            assert(whole[whole.len() - 2] == text.last());
        }
    } else {
        let shorter = piece.drop_last();
        assert forall|i: int| 0 <= i < shorter.len() implies !cuts(cut, #[trigger] shorter[i]) by {
            assert(shorter[i] == piece[i]);
        }
        lemma_piece_behind(cut, text, shorter);
        assert(whole.drop_last() =~= text + shorter);
        assert(whole[whole.len() - 2] == piece[piece.len() - 2]);
        assert(!cuts(cut, piece[piece.len() - 2]));
        let before = pieces(cut, text).push(shorter);
        assert(shorter.push(piece.last()) =~= piece);
        assert(before.last() == shorter);
        assert(before.update(before.len() - 1, piece) =~= pieces(cut, text).push(piece));
    }
}

/// The views of a sequence of strings, in the same order.
pub open spec fn texts(strings: Seq<String>) -> Seq<Seq<char>> {
    strings.map_values(|s: String| s@)
}

/// Whether a character is one at which a text is cut.
pub fn is_cut(cut: Cut, c: char) -> (found: bool)
    ensures
        found == cuts(cut, c),
{
    match cut {
        Cut::Blanks => c == ' ' || c == '\t' || c == '\n' || c == '\x0C' || c == '\r',
        Cut::Slashes => c == '/',
    }
}

/// Cuts a text into its pieces.
pub fn split(cut: Cut, text: &str) -> (found: Vec<String>)
    ensures
        texts(found@) == pieces(cut, text@),
{
    let n = text.unicode_len();
    let mut found: Vec<String> = Vec::new();
    let mut start: usize = 0;
    let mut inside = false;
    let mut i: usize = 0;
    proof {
        assert(text@.take(0) =~= Seq::<char>::empty());
        assert(texts(found@) =~= Seq::<Seq<char>>::empty());
    }
    for c in it: text.chars()
        invariant
            n == text@.len(),
            it.seq() == text@,
            i == it.index(),
            i <= n,
            inside ==> start < i && !cuts(cut, text@[i - 1]) && pieces(cut, text@.take(i as int))
                == texts(found@).push(text@.subrange(start as int, i as int)),
            !inside ==> (i == 0 || cuts(cut, text@[i - 1])) && pieces(cut, text@.take(i as int))
                == texts(found@),
    {
        proof {
            assert(text@.take(i + 1).drop_last() =~= text@.take(i as int));
            assert(text@.take(i + 1).last() == c);
            if i > 0 {
                assert(text@.take(i + 1)[i - 1] == text@[i - 1]);
            }
        }
        if is_cut(cut, c) {
            if inside {
                let ghost told = texts(found@);
                let piece = text.substring_char(start, i);
                found.push(String::from_str(piece));
                proof {
                    assert(texts(found@) =~= told.push(text@.subrange(start as int, i as int)));
                }
                inside = false;
            }
        } else {
            if inside {
                proof {
                    let sofar = texts(found@).push(text@.subrange(start as int, i as int));
                    assert(text@.subrange(start as int, i as int).push(c) =~= text@.subrange(
                        start as int,
                        i + 1,
                    ));
                    assert(sofar.update(sofar.len() - 1, sofar.last().push(c)) =~= texts(
                        found@,
                    ).push(text@.subrange(start as int, i + 1)));
                }
            } else {
                start = i;
                inside = true;
                proof {
                    assert(seq![c] =~= text@.subrange(i as int, i + 1));
                }
            }
        }
        i += 1;
    }
    proof {
        assert(text@.take(i as int) =~= text@);
    }
    if inside {
        let ghost told = texts(found@);
        let piece = text.substring_char(start, i);
        found.push(String::from_str(piece));
        proof {
            assert(texts(found@) =~= told.push(text@.subrange(start as int, i as int)));
        }
    }
    found
}

/// Splits a text into its words.
pub fn split_words(text: &str) -> (found: Vec<String>)
    ensures
        texts(found@) == words(text@),
{
    split(Cut::Blanks, text)
}

/// Splits a path into its parts.
pub fn split_path(path: &str) -> (found: Vec<String>)
    ensures
        texts(found@) == path_parts(path@),
{
    split(Cut::Slashes, path)
}

} // verus!
