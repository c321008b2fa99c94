use vstd::prelude::*;
use crate::board::{placement_outcome, Board, BoardView};
use crate::geometry::Coordinate;

verus! {

/// The character of decimal digit `d`.
pub open spec fn digit_char(d: nat) -> char {
    ((d + 48) as u32) as char
}

/// The decimal digits of `n`, most significant first, without leading zeros.
pub open spec fn decimal(n: nat) -> Seq<char>
    decreases n,
{
    if n < 10 {
        seq![digit_char(n)]
    } else {
        decimal(n / 10).push(digit_char(n % 10))
    }
}

/// `n` in decimal, padded on the left to at least two characters.
pub open spec fn right_aligned(n: nat) -> Seq<char> {
    if n < 10 {
        seq![' '] + decimal(n)
    } else {
        decimal(n)
    }
}

/// The column numbers `1..=k`, each preceded by a space.
pub open spec fn header_columns(k: nat) -> Seq<char>
    decreases k,
{
    if k == 0 {
        Seq::empty()
    } else {
        header_columns((k - 1) as nat) + seq![' '] + decimal(k)
    }
}

/// The first line of the rendering: a two-space corner, then the column numbers.
pub open spec fn header(width: nat) -> Seq<char> {
    seq![' ', ' '] + header_columns(width) + seq!['\n']
}

/// What one cell shows: `S` when a ship stands on it, `~` otherwise.
pub open spec fn cell_marker(ship: Option<usize>) -> Seq<char> {
    if ship is Some {
        seq!['S', ' ']
    } else {
        seq!['~', ' ']
    }
}

/// The markers of columns `1..=k` of row `y`.
pub open spec fn row_cells(v: BoardView, y: nat, k: nat) -> Seq<char>
    decreases k,
{
    if k == 0 {
        Seq::empty()
    } else {
        row_cells(v, y, (k - 1) as nat) + cell_marker(v.ship_at((k as int, y as int)))
    }
}

/// Row `y` of the rendering: its right-aligned number, a space, then its cells.
pub open spec fn row_line(v: BoardView, y: nat) -> Seq<char> {
    right_aligned(y) + seq![' '] + row_cells(v, y, v.width) + seq!['\n']
}

/// Rows `1..=k` of the rendering.
pub open spec fn rows(v: BoardView, k: nat) -> Seq<char>
    decreases k,
{
    if k == 0 {
        Seq::empty()
    } else {
        rows(v, (k - 1) as nat) + row_line(v, k)
    }
}

/// The full text view of a board.
pub open spec fn render_text(v: BoardView) -> Seq<char> {
    header(v.width) + rows(v, v.height)
}

/// A rejected placement changes neither the rendering nor any cell: the board
/// after it shows the same text and holds the same ship at every position.
pub proof fn lemma_rejection_keeps_view(v: BoardView, cells: Seq<(int, int)>, id: usize)
    requires
        v.wf(),
        placement_outcome(v, cells, id).0 is Err,
    ensures
        render_text(placement_outcome(v, cells, id).1) == render_text(v),
        forall|c: (int, int)|
            #[trigger] placement_outcome(v, cells, id).1.contains(c) == v.contains(c) && placement_outcome(
                v,
                cells,
                id,
            ).1.ship_at(c) == v.ship_at(c),
{
}

/// Relies on `String::push`: appends one character at the end.
#[verifier::external_body]
fn push_char(s: &mut String, c: char)
    ensures
        final(s)@ == old(s)@.push(c),
{
    s.push(c);
}

fn digit(d: u8) -> (r: char)
    requires
        d < 10,
    ensures
        r == digit_char(d as nat),
{
    (d + 48) as char
}

/// Appends the decimal digits of `n`.
fn push_decimal(s: &mut String, n: u8)
    ensures
        final(s)@ == old(s)@ + decimal(n as nat),
{
    proof {
        reveal_with_fuel(decimal, 3);
    }
    if n >= 100 {
        push_char(s, digit(n / 100));
    }
    if n >= 10 {
        push_char(s, digit(n / 10 % 10));
    }
    push_char(s, digit(n % 10));
    proof {
        if n >= 100 {
            assert(decimal(n as nat) =~= seq![
                digit_char(n as nat / 100),
                digit_char(n as nat / 10 % 10),
                digit_char(n as nat % 10),
            ]);
        } else if n >= 10 {
            assert(decimal(n as nat) =~= seq![digit_char(n as nat / 10), digit_char(n as nat % 10)]);
        }
        assert(s@ =~= old(s)@ + decimal(n as nat));
    }
}

impl Coordinate {
    /// The coordinate written as `x/y`.
    pub fn to_text(&self) -> (r: String)
        ensures
            r@ == decimal(self.x as nat) + seq!['/'] + decimal(self.y as nat),
    {
        let mut out = String::new();
        push_decimal(&mut out, self.x);
        push_char(&mut out, '/');
        push_decimal(&mut out, self.y);
        proof {
            assert(out@ =~= decimal(self.x as nat) + seq!['/'] + decimal(self.y as nat));
        }
        out
    }
}

impl Board {
    /// The text view of the board: a header of column numbers, then one line
    /// per row with its number and a two-character marker per cell.
    pub fn render(&self) -> (r: String)
        requires
            self@.wf(),
        ensures
            r@ == render_text(self@),
    {
        let ghost v = self@;
        let width = self.width();
        let height = self.height();
        let mut out = String::new();
        push_char(&mut out, ' ');
        push_char(&mut out, ' ');
        let mut x: u8 = 0;
        while x < width
            invariant
                x <= width,
                out@ == seq![' ', ' '] + header_columns(x as nat),
            decreases width - x,
        {
            push_char(&mut out, ' ');
            push_decimal(&mut out, x + 1);
            x = x + 1;
            proof {
                assert(out@ =~= seq![' ', ' '] + header_columns(x as nat));
            }
        }
        push_char(&mut out, '\n');
        let mut y: u8 = 0;
        while y < height
            invariant
                self@ == v,
                v.wf(),
                width == v.width,
                height == v.height,
                y <= height,
                out@ == header(v.width) + rows(v, y as nat),
            decreases height - y,
        {
            let row = y + 1;
            let ghost line_start = out@;
            if row < 10 {
                push_char(&mut out, ' ');
            }
            push_decimal(&mut out, row);
            push_char(&mut out, ' ');
            proof {
                assert(out@ =~= line_start + right_aligned(row as nat) + seq![' ']);
            }
            let mut x: u8 = 0;
            while x < width
                invariant
                    self@ == v,
                    v.wf(),
                    width == v.width,
                    height == v.height,
                    x <= width,
                    1 <= row <= height,
                    out@ == line_start + right_aligned(row as nat) + seq![' '] + row_cells(v, row as nat, x as nat),
                decreases width - x,
            {
                let c = Coordinate { x: x + 1, y: row };
                let ghost cell_start = out@;
                if self.has_ship_at(&c) {
                    push_char(&mut out, 'S');
                } else {
                    push_char(&mut out, '~');
                }
                push_char(&mut out, ' ');
                x = x + 1;
                proof {
                    assert(out@ =~= cell_start + cell_marker(v.ship_at((x as int, row as int))));
                    assert(out@ =~= line_start + right_aligned(row as nat) + seq![' '] + row_cells(v, row as nat, x as nat));
                }
            }
            push_char(&mut out, '\n');
            y = y + 1;
            proof {
                assert(out@ =~= header(v.width) + rows(v, y as nat));
            }
        }
        out
    }
}

} // verus!
