//! A grid as text: one character for each tile, one line for each row.

use crate::grid::{TileGrid, Tiles};
use crate::tile::TileState;
use vstd::prelude::*;

verus! {

/// The character that stands for a tile.
pub open spec fn spec_glyph(t: TileState) -> char {
    match t {
        TileState::Empty => '?',
        TileState::Floor => '.',
        TileState::Wall => '#',
        TileState::Door => '+',
    }
}

/// The character that stands for a tile.
#[verifier::when_used_as_spec(spec_glyph)]
pub fn glyph(t: TileState) -> (c: char)
    ensures
        c == spec_glyph(t),
{
    match t {
        TileState::Empty => '?',
        TileState::Floor => '.',
        TileState::Wall => '#',
        TileState::Door => '+',
    }
}

/// The characters of the tiles of a row, in order.
pub open spec fn glyphs(row: Seq<TileState>) -> Seq<char> {
    Seq::new(row.len(), |x: int| spec_glyph(row[x]))
}

/// The text of the rows in order, each closed by a line feed.
pub open spec fn rows_text(rows: Seq<Seq<TileState>>) -> Seq<char>
    decreases rows.len(),
{
    if rows.len() == 0 {
        Seq::empty()
    } else {
        rows_text(rows.drop_last()) + glyphs(rows.last()).push('\n')
    }
}

impl Tiles {
    /// The grid as text.
    pub open spec fn text(self) -> Seq<char> {
        rows_text(self.rows)
    }
}

/// The text is determined by the tiles: grids that hold the same tiles give
/// the same text, however often they are rendered.
pub proof fn lemma_same_tiles_same_text(first: Tiles, second: Tiles)
    requires
        first == second,
    ensures
        first.text() == second.text(),
{
}

/// Appends one character, by `String::push` of the standard library.
///
/// Trusted, not proved: the string afterwards is the string before with `c`
/// at its end.
#[verifier::external_body]
fn push_char(s: &mut String, c: char)
    ensures
        final(s)@ == old(s)@.push(c),
{
    s.push(c)
}

impl TileGrid {
    /// The grid as text: `?` for `Empty`, `.` for `Floor`, `#` for `Wall`
    /// and `+` for `Door`, row after row, with a line feed after each row.
    /// The text depends on the tiles alone.
    pub fn render(&self) -> (s: String)
        requires
            self.wf(),
        ensures
            s@ == self@.text(),
    {
        let w = self.width();
        let h = self.height();
        let mut s = String::new();
        let mut y: usize = 0;
        proof {
            assert(self@.rows.take(0) =~= Seq::<Seq<TileState>>::empty());
        }
        while y < h
            invariant
                self.wf(),
                w == self@.width,
                h == self@.height,
                y <= h,
                s@ == rows_text(self@.rows.take(y as int)),
            decreases h - y,
        {
            let ghost done = s@;
            let ghost row = self@.rows[y as int];
            let mut x: usize = 0;
            while x < w
                invariant
                    self.wf(),
                    w == self@.width,
                    h == self@.height,
                    y < h,
                    x <= w,
                    row == self@.rows[y as int],
                    s@ == done + glyphs(row.take(x as int)),
                decreases w - x,
            {
                let t = self.tile(x, y);
                push_char(&mut s, glyph(t));
                proof {
                    assert(row.len() == w);
                    assert(glyphs(row.take(x + 1)) =~= glyphs(row.take(x as int)).push(
                        spec_glyph(row[x as int]),
                    ));
                    assert(s@ =~= done + glyphs(row.take(x + 1)));
                }
                x += 1;
            }
            push_char(&mut s, '\n');
            proof {
                assert(row.len() == w);
                assert(row.take(w as int) =~= row);
                assert(self@.rows.take(y + 1).drop_last() =~= self@.rows.take(y as int));
                assert(self@.rows.take(y + 1).last() == row);
                assert(s@ =~= done + glyphs(row).push('\n'));
            }
            y += 1;
        }
        proof {
            assert(self@.rows.take(h as int) =~= self@.rows);
        }
        s
    }
}

} // verus!
