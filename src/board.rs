use vstd::prelude::*;
use crate::fleet::{ship_length, Ship};
use crate::geometry::{along, expansion, expansion_fits, Coordinate, Orientation, ShipPlacement};

verus! {

/// Why a placement was rejected.
#[derive(Debug, Clone, Copy, PartialEq, Eq, Structural)]
pub enum PlacementError {
    /// A covered cell lies outside the board.
    OutOfBounds,
    /// A covered cell already holds a ship.
    Overlap,
}

/// The text shown to a player for each kind of rejection.
pub open spec fn error_message(e: PlacementError) -> Seq<char> {
    match e {
        PlacementError::OutOfBounds => "invalid coordinate"@,
        PlacementError::Overlap => "overlaps with ship"@,
    }
}

impl PlacementError {
    pub fn message(&self) -> (r: &'static str)
        ensures
            r@ == error_message(*self),
    {
        match self {
            PlacementError::OutOfBounds => "invalid coordinate",
            PlacementError::Overlap => "overlaps with ship",
        }
    }
}

/// Whether the 1-based position `c` lies on a `w` by `h` board.
pub open spec fn in_range(w: int, h: int, c: (int, int)) -> bool {
    1 <= c.0 <= w && 1 <= c.1 <= h
}

/// The 0-based flat index of the 1-based position `c` on a board `w` cells wide.
pub open spec fn index_of(w: int, c: (int, int)) -> int {
    (c.1 - 1) * w + (c.0 - 1)
}

/// The 1-based position of flat index `k` on a board `w` cells wide.
pub open spec fn position_of(w: int, k: int) -> (int, int) {
    (k % w + 1, k / w + 1)
}

/// Abstract board: its size and, per flat index, the handle of the ship there.
pub struct BoardView {
    pub width: nat,
    pub height: nat,
    pub cells: Seq<Option<usize>>,
}

impl BoardView {
    pub open spec fn wf(self) -> bool {
        &&& self.width >= 1
        &&& self.height >= 1
        &&& self.cells.len() == self.width * self.height
    }

    pub open spec fn contains(self, c: (int, int)) -> bool {
        in_range(self.width as int, self.height as int, c)
    }

    /// The ship handle stored for position `c` (meaningful for positions on the board).
    pub open spec fn ship_at(self, c: (int, int)) -> Option<usize> {
        self.cells[index_of(self.width as int, c)]
    }

    pub open spec fn occupied(self, c: (int, int)) -> bool {
        self.contains(c) && self.ship_at(c) is Some
    }

    /// Whether ship handle `id` stands on some cell.
    pub open spec fn holds(self, id: usize) -> bool {
        exists|k: int| 0 <= k < self.cells.len() && self.cells[k] == Some(id)
    }

    /// Whether some cell of `cells` maps to flat index `k`.
    pub open spec fn covers(self, cells: Seq<(int, int)>, k: int) -> bool {
        exists|i: int| 0 <= i < cells.len() && index_of(self.width as int, #[trigger] cells[i]) == k
    }

    /// The board after every cell of `cells` was assigned ship handle `id`.
    pub open spec fn committed(self, cells: Seq<(int, int)>, id: usize) -> BoardView {
        BoardView {
            width: self.width,
            height: self.height,
            cells: Seq::new(
                self.cells.len(),
                |k: int|
                    if self.covers(cells, k) {
                        Some(id)
                    } else {
                        self.cells[k]
                    },
            ),
        }
    }
}

/// Validation of `cells` in order: the first cell that is off the board or
/// already taken decides the error.
pub open spec fn placement_check(v: BoardView, cells: Seq<(int, int)>) -> Result<(), PlacementError>
    decreases cells.len(),
{
    if cells.len() == 0 {
        Ok(())
    } else {
        match placement_check(v, cells.drop_last()) {
            Err(e) => Err(e),
            Ok(()) => {
                let c = cells.last();
                if !v.contains(c) {
                    Err(PlacementError::OutOfBounds)
                } else if v.ship_at(c) is Some {
                    Err(PlacementError::Overlap)
                } else {
                    Ok(())
                }
            },
        }
    }
}

/// The outcome of offering `cells` for ship `id`: the result and the board after.
/// A rejected placement leaves the board as it was.
pub open spec fn placement_outcome(v: BoardView, cells: Seq<(int, int)>, id: usize) -> (
    Result<(), PlacementError>,
    BoardView,
) {
    match placement_check(v, cells) {
        Ok(()) => (Ok(()), v.committed(cells, id)),
        Err(e) => (Err(e), v),
    }
}

/// One grid position: the handle (index into the fleet) of the ship on it, if any.
#[derive(Debug, Clone, Copy, PartialEq, Eq, Structural)]
pub struct BoardCell {
    pub ship: Option<usize>,
}

/// A fixed-size grid of cells, stored row by row.
pub struct Board {
    width: u8,
    height: u8,
    cells: Vec<BoardCell>,
}

impl View for Board {
    type V = BoardView;

    closed spec fn view(&self) -> BoardView {
        BoardView {
            width: self.width as nat,
            height: self.height as nat,
            cells: self.cells@.map_values(|c: BoardCell| c.ship),
        }
    }
}

impl Board {
    /// An empty board of `width` columns and `height` rows.
    pub fn new(width: u8, height: u8) -> (r: Board)
        requires
            width >= 1,
            height >= 1,
        ensures
            r@.wf(),
            r@.width == width,
            r@.height == height,
            forall|k: int| 0 <= k < r@.cells.len() ==> #[trigger] r@.cells[k] is None,
    {
        assert(width as int * height as int <= 255 * 255) by (nonlinear_arith)
            requires width <= 255, height <= 255;
        let area: usize = width as usize * height as usize;
        let mut cells: Vec<BoardCell> = Vec::with_capacity(area);
        let mut i: usize = 0;
        while i < area
            invariant
                i <= area,
                cells@.len() == i,
                forall|k: int| 0 <= k < i ==> #[trigger] cells@[k].ship is None,
            decreases area - i,
        {
            cells.push(BoardCell { ship: None });
            i = i + 1;
        }
        Board { width, height, cells }
    }

    pub fn width(&self) -> (r: u8)
        ensures
            r == self@.width,
    {
        self.width
    }

    pub fn height(&self) -> (r: u8)
        ensures
            r == self@.height,
    {
        self.height
    }

    /// Whether `coordinate` lies on this board.
    pub fn valid_coordinate(&self, coordinate: &Coordinate) -> (r: bool)
        ensures
            r == self@.contains(coordinate@),
    {
        1 <= coordinate.x && coordinate.x <= self.width && 1 <= coordinate.y && coordinate.y
            <= self.height
    }

    /// The flat index of a position on this board.
    pub fn coordinate_to_index(&self, coordinate: &Coordinate) -> (r: usize)
        requires
            self@.wf(),
            self@.contains(coordinate@),
        ensures
            r == index_of(self@.width as int, coordinate@),
            r < self@.cells.len(),
    {
        proof {
            let (w, h) = (self.width as int, self.height as int);
            lemma_index_bijective(w, h);
            assert(0 <= index_of(w, coordinate@) < w * h);
            assert(w * h <= 255 * 255) by (nonlinear_arith)
                requires 0 <= w <= 255, 0 <= h <= 255;
            assert(0 <= (coordinate.y - 1) * w) by (nonlinear_arith)
                requires coordinate.y >= 1, w >= 0;
        }
        (coordinate.y as usize - 1) * self.width as usize + coordinate.x as usize - 1
    }

    /// The cell at `coordinate`, or `OutOfBounds` when it is off the board.
    pub fn cell_at(&self, coordinate: &Coordinate) -> (r: Result<&BoardCell, PlacementError>)
        requires
            self@.wf(),
        ensures
            r is Ok <==> self@.contains(coordinate@),
            r matches Ok(cell) ==> cell.ship == self@.ship_at(coordinate@),
            r matches Err(e) ==> e == PlacementError::OutOfBounds,
    {
        if !self.valid_coordinate(coordinate) {
            return Err(PlacementError::OutOfBounds);
        }
        let index = self.coordinate_to_index(coordinate);
        Ok(&self.cells[index])
    }

    /// Whether a ship stands on `coordinate`; false off the board.
    pub fn has_ship_at(&self, coordinate: &Coordinate) -> (r: bool)
        requires
            self@.wf(),
        ensures
            r == self@.occupied(coordinate@),
    {
        match self.cell_at(coordinate) {
            Err(_) => false,
            Ok(cell) => cell.ship.is_some(),
        }
    }

    /// Offers the ship `fleet[ship]` at `placement`. Every cell it would cover
    /// is checked in order before anything changes: the first cell off the
    /// board gives `OutOfBounds`, the first cell already taken gives `Overlap`,
    /// and either way the board is left untouched. When all cells pass, each
    /// of them records handle `ship`.
    pub fn place_ship(&mut self, placement: ShipPlacement, fleet: &[Ship], ship: usize) -> (r: Result<(), PlacementError>)
        requires
            old(self)@.wf(),
            ship < fleet@.len(),
        ensures
            final(self)@.wf(),
            r is Err ==> final(self)@ == old(self)@,
            (r, final(self)@) == placement_outcome(
                old(self)@,
                expansion(placement, ship_length(fleet@[ship as int].ship_type)),
                ship,
            ),
    {
        let length = fleet[ship].size();
        let start: u8 = match placement.orientation {
            Orientation::Horizontal => placement.coordinate.x,
            Orientation::Vertical => placement.coordinate.y,
        };
        // Cells beyond position 255 cannot be written as a `Coordinate`; they
        // are off every board, so only the representable ones are expanded.
        let count: u8 = if start as u16 + length as u16 <= 256 {
            length
        } else {
            (256 - start as u16) as u8
        };
        let ghost cells = expansion(placement, length as nat);
        let coords = placement.coordinates(count);

        let mut failure: Option<PlacementError> = None;
        let mut i: usize = 0;
        while i < coords.len()
            invariant_except_break
                failure is None,
            invariant
                self@ == old(self)@,
                self@.wf(),
                i <= count <= length,
                coords@.len() == count,
                cells == expansion(placement, length as nat),
                forall|j: int| 0 <= j < count ==> #[trigger] coords@[j]@ == cells[j],
                placement_check(self@, cells.take(i as int)) == Ok::<(), PlacementError>(()),
            ensures
                failure is None ==> i == count,
                failure matches Some(e) ==> placement_check(self@, cells) == Err::<(), PlacementError>(e),
            decreases count - i,
        {
            let c = &coords[i];
            proof {
                assert(cells.take(i + 1).drop_last() =~= cells.take(i as int));
                assert(cells.take(i + 1).last() == cells[i as int]);
            }
            if !self.valid_coordinate(c) {
                failure = Some(PlacementError::OutOfBounds);
            } else if self.has_ship_at(c) {
                failure = Some(PlacementError::Overlap);
            }
            if let Some(_) = failure {
                proof {
                    lemma_check_extends(self@, cells, i + 1);
                }
                break;
            }
            i = i + 1;
        }
        if let Some(e) = failure {
            return Err(e);
        }
        if count < length {
            proof {
                assert(along(placement.orientation, cells[count as int]) == 256);
                assert(cells.take(count + 1).drop_last() =~= cells.take(count as int));
                lemma_check_extends(self@, cells, count + 1);
            }
            return Err(PlacementError::OutOfBounds);
        }
        proof {
            assert(cells.take(length as int) =~= cells);
            lemma_check_passed(self@, cells);
        }

        let ghost before = self@;
        let mut i: usize = 0;
        while i < coords.len()
            invariant
                before == old(self)@,
                before.wf(),
                self@.wf(),
                self@.width == before.width,
                self@.height == before.height,
                i <= count == length,
                coords@.len() == count,
                cells == expansion(placement, length as nat),
                forall|j: int| 0 <= j < count ==> #[trigger] coords@[j]@ == cells[j],
                forall|j: int| 0 <= j < count ==> before.contains(#[trigger] cells[j]),
                forall|k: int|
                    0 <= k < before.cells.len() ==> #[trigger] self@.cells[k] == if exists|j: int|
                        0 <= j < i && index_of(before.width as int, #[trigger] cells[j]) == k {
                        Some(ship)
                    } else {
                        before.cells[k]
                    },
            decreases count - i,
        {
            proof {
                assert(coords@[i as int]@ == cells[i as int]);
                lemma_index_bijective(before.width as int, before.height as int);
            }
            self.set_ship_at(ship, &coords[i]);
            i = i + 1;
        }
        proof {
            assert(self@.cells =~= before.committed(cells, ship).cells);
        }
        Ok(())
    }

    /// Whether ship handle `ship` has been placed: some cell holds it.
    pub fn is_placed(&self, ship: usize) -> (r: bool)
        ensures
            r == self@.holds(ship),
    {
        let mut k: usize = 0;
        while k < self.cells.len()
            invariant
                k <= self.cells@.len(),
                forall|j: int| 0 <= j < k ==> self@.cells[j] != Some(ship),
            decreases self.cells@.len() - k,
        {
            if self.cells[k].ship == Some(ship) {
                assert(self@.cells[k as int] == Some(ship));
                return true;
            }
            k = k + 1;
        }
        false
    }

    /// Records ship handle `ship` on the cell at `coordinate`.
    pub fn set_ship_at(&mut self, ship: usize, coordinate: &Coordinate)
        requires
            old(self)@.wf(),
            old(self)@.contains(coordinate@),
        ensures
            final(self)@.wf(),
            final(self)@ == (BoardView {
                cells: old(self)@.cells.update(index_of(old(self)@.width as int, coordinate@), Some(ship)),
                ..old(self)@
            }),
    {
        let index = self.coordinate_to_index(coordinate);
        self.cells.set(index, BoardCell { ship: Some(ship) });
        proof {
            assert(self@.cells =~= old(self)@.cells.update(index as int, Some(ship)));
        }
    }
}

/// A placement is all or nothing. If some cell it would cover is off the
/// board or already taken, it is rejected and no cell changes, the cells it
/// covers included. If it is accepted, every cell it covers holds its ship and
/// every other cell keeps what it held; it was accepted only because every
/// cell it covers was on the board and free.
pub proof fn lemma_placement_all_or_nothing(v: BoardView, cells: Seq<(int, int)>, id: usize)
    requires
        v.wf(),
    ensures
        (exists|i: int| 0 <= i < cells.len() && !(#[trigger] v.contains(cells[i]) && v.ship_at(cells[i]) is None))
            ==> {
            &&& placement_outcome(v, cells, id).0 is Err
            &&& placement_outcome(v, cells, id).1 == v
            &&& forall|j: int|
                0 <= j < cells.len() && v.contains(cells[j]) ==> placement_outcome(v, cells, id).1.ship_at(
                    #[trigger] cells[j],
                ) == v.ship_at(cells[j])
        },
        placement_outcome(v, cells, id).0 is Ok ==> {
            &&& forall|j: int| 0 <= j < cells.len() ==> #[trigger] v.contains(cells[j]) && v.ship_at(cells[j]) is None
            &&& placement_outcome(v, cells, id).1.wf()
            &&& forall|j: int|
                0 <= j < cells.len() ==> placement_outcome(v, cells, id).1.ship_at(#[trigger] cells[j]) == Some(id)
            &&& forall|k: int|
                0 <= k < v.cells.len() && !v.covers(cells, k) ==> #[trigger] placement_outcome(v, cells, id).1.cells[k]
                    == v.cells[k]
        },
{
    lemma_index_bijective(v.width as int, v.height as int);
    if placement_check(v, cells) is Ok {
        lemma_check_passed(v, cells);
        let after = v.committed(cells, id);
        assert forall|j: int| 0 <= j < cells.len() implies after.ship_at(#[trigger] cells[j]) == Some(id) by {
            let k = index_of(v.width as int, cells[j]);
            assert(v.contains(cells[j]));
            assert(0 <= k < v.cells.len());
            assert(v.covers(cells, k));
            assert(after.cells[k] == Some(id));
        }
    }
}

/// A failure in a prefix of `cells` is the failure of all of `cells`.
proof fn lemma_check_extends(v: BoardView, cells: Seq<(int, int)>, m: int)
    requires
        0 <= m <= cells.len(),
        placement_check(v, cells.take(m)) is Err,
    ensures
        placement_check(v, cells) == placement_check(v, cells.take(m)),
    decreases cells.len(),
{
    if m == cells.len() {
        assert(cells.take(m) =~= cells);
    } else {
        assert(cells.drop_last().take(m) =~= cells.take(m));
        lemma_check_extends(v, cells.drop_last(), m);
    }
}

/// When validation passes, every cell is on the board and free.
proof fn lemma_check_passed(v: BoardView, cells: Seq<(int, int)>)
    requires
        placement_check(v, cells) is Ok,
    ensures
        forall|j: int| 0 <= j < cells.len() ==> #[trigger] v.contains(cells[j]) && v.ship_at(cells[j]) is None,
    decreases cells.len(),
{
    if cells.len() > 0 {
        lemma_check_passed(v, cells.drop_last());
        assert forall|j: int| 0 <= j < cells.len() implies #[trigger] v.contains(cells[j]) && v.ship_at(cells[j]) is None by {
            if j < cells.len() - 1 {
                assert(cells.drop_last()[j] == cells[j]);
            }
        }
    }
}

/// On a `w` by `h` board the flat index is a bijection from the positions on the
/// board onto `[0, w * h)`: distinct positions get distinct indices, every index
/// is in range, and every index in range is the index of `position_of` it.
pub proof fn lemma_index_bijective(w: int, h: int)
    requires
        w >= 1,
        h >= 1,
    ensures
        forall|c1: (int, int), c2: (int, int)|
            in_range(w, h, c1) && in_range(w, h, c2) && c1 != c2 ==> #[trigger] index_of(w, c1)
                != #[trigger] index_of(w, c2),
        forall|c: (int, int)| in_range(w, h, c) ==> 0 <= #[trigger] index_of(w, c) < w * h,
        forall|k: int|
            0 <= k < w * h ==> in_range(w, h, #[trigger] position_of(w, k)) && index_of(w, position_of(w, k)) == k,
{
    assert forall|c1: (int, int), c2: (int, int)|
        in_range(w, h, c1) && in_range(w, h, c2) && c1 != c2 implies #[trigger] index_of(w, c1)
            != #[trigger] index_of(w, c2) by {
        if index_of(w, c1) == index_of(w, c2) {
            lemma_index_unique(w, c1.0, c1.1, c2.0, c2.1);
        }
    }
    assert forall|c: (int, int)| in_range(w, h, c) implies 0 <= #[trigger] index_of(w, c) < w * h by {
        lemma_index_bounded(w, h, c.0, c.1);
    }
    assert forall|k: int| 0 <= k < w * h implies in_range(w, h, #[trigger] position_of(w, k)) && index_of(
        w,
        position_of(w, k),
    ) == k by {
        lemma_index_preimage(w, h, k);
    }
}

proof fn lemma_index_unique(w: int, x1: int, y1: int, x2: int, y2: int)
    requires
        1 <= x1 <= w,
        1 <= x2 <= w,
        y1 >= 1,
        y2 >= 1,
        (y1 - 1) * w + (x1 - 1) == (y2 - 1) * w + (x2 - 1),
    ensures
        x1 == x2 && y1 == y2,
{
    if y1 < y2 {
        assert((y1 - 1) * w + w <= (y2 - 1) * w) by (nonlinear_arith)
            requires y1 < y2, w >= 1;
    } else if y2 < y1 {
        assert((y2 - 1) * w + w <= (y1 - 1) * w) by (nonlinear_arith)
            requires y2 < y1, w >= 1;
    }
}

proof fn lemma_index_bounded(w: int, h: int, x: int, y: int)
    requires
        1 <= x <= w,
        1 <= y <= h,
    ensures
        0 <= (y - 1) * w + (x - 1) < w * h,
{
    assert(0 <= (y - 1) * w && (y - 1) * w + w <= h * w) by (nonlinear_arith)
        requires 1 <= y <= h, w >= 1;
    assert(h * w == w * h) by (nonlinear_arith);
}

proof fn lemma_index_preimage(w: int, h: int, k: int)
    requires
        w >= 1,
        h >= 1,
        0 <= k < w * h,
    ensures
        0 <= k % w < w,
        0 <= k / w < h,
        (k / w) * w + k % w == k,
{
    vstd::arithmetic::div_mod::lemma_fundamental_div_mod(k, w);
    assert(0 <= k % w < w) by (nonlinear_arith) requires w >= 1;
    assert(0 <= k / w) by (nonlinear_arith) requires w >= 1, k >= 0;
    assert(k / w < h) by (nonlinear_arith)
        requires w >= 1, 0 <= k < w * h, k == w * (k / w) + (k % w), 0 <= k % w < w;
    assert((k / w) * w == w * (k / w)) by (nonlinear_arith);
}

} // verus!
