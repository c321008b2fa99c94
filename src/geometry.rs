use vstd::prelude::*;

verus! {

/// A 1-based board position: `x` counts columns, `y` counts rows.
#[derive(Debug, Clone, Copy, PartialEq, Eq, Structural)]
pub struct Coordinate {
    pub x: u8,
    pub y: u8,
}

impl View for Coordinate {
    type V = (int, int);

    open spec fn view(&self) -> (int, int) {
        (self.x as int, self.y as int)
    }
}

/// The direction in which a placement extends from its anchor.
#[derive(Debug, Clone, Copy, PartialEq, Eq, Structural)]
pub enum Orientation {
    Horizontal,
    Vertical,
}

/// The component of `c` that grows along orientation `o`.
pub open spec fn along(o: Orientation, c: (int, int)) -> int {
    match o {
        Orientation::Horizontal => c.0,
        Orientation::Vertical => c.1,
    }
}

/// The component of `c` that stays fixed along orientation `o`.
pub open spec fn across(o: Orientation, c: (int, int)) -> int {
    match o {
        Orientation::Horizontal => c.1,
        Orientation::Vertical => c.0,
    }
}

/// `c` moved `i` steps along orientation `o`.
pub open spec fn shifted(o: Orientation, c: (int, int), i: int) -> (int, int) {
    match o {
        Orientation::Horizontal => (c.0 + i, c.1),
        Orientation::Vertical => (c.0, c.1 + i),
    }
}

/// Human-facing name of an orientation.
pub open spec fn orientation_name(o: Orientation) -> Seq<char> {
    match o {
        Orientation::Horizontal => "horizontal"@,
        Orientation::Vertical => "vertical"@,
    }
}

impl Orientation {
    pub fn name(&self) -> (r: &'static str)
        ensures
            r@ == orientation_name(*self),
    {
        match self {
            Orientation::Horizontal => "horizontal",
            Orientation::Vertical => "vertical",
        }
    }

    /// The coordinate one step further along this orientation.
    pub fn next(&self, coordinate: &Coordinate) -> (r: Coordinate)
        requires
            along(*self, coordinate@) < u8::MAX,
        ensures
            r@ == shifted(*self, coordinate@, 1),
    {
        match self {
            Orientation::Horizontal => Coordinate { x: coordinate.x + 1, ..*coordinate },
            Orientation::Vertical => Coordinate { y: coordinate.y + 1, ..*coordinate },
        }
    }
}

/// One placement attempt: an anchor cell and the direction the ship extends in.
#[derive(Debug, Clone, Copy, PartialEq, Eq, Structural)]
pub struct ShipPlacement {
    pub coordinate: Coordinate,
    pub orientation: Orientation,
}

/// The `len` cells a placement covers, in placement order, starting at the anchor.
pub open spec fn expansion(p: ShipPlacement, len: nat) -> Seq<(int, int)> {
    Seq::new(len, |i: int| shifted(p.orientation, p.coordinate@, i))
}

/// Whether every cell of a `len`-cell expansion of `p` is expressible as a `Coordinate`.
pub open spec fn expansion_fits(p: ShipPlacement, len: nat) -> bool {
    along(p.orientation, p.coordinate@) + len <= u8::MAX + 1
}

impl ShipPlacement {
    /// The cells covered by a ship of `length` cells placed here.
    pub fn coordinates(&self, length: u8) -> (r: Vec<Coordinate>)
        requires
            expansion_fits(*self, length as nat),
        ensures
            r@.len() == length,
            forall|i: int| 0 <= i < length ==> #[trigger] r@[i]@ == expansion(*self, length as nat)[i],
    {
        let mut coords: Vec<Coordinate> = Vec::new();
        let mut current: Coordinate = self.coordinate;
        let mut i: u8 = 0;
        while i < length
            invariant
                i <= length,
                expansion_fits(*self, length as nat),
                coords@.len() == i,
                forall|j: int| 0 <= j < i ==> #[trigger] coords@[j]@ == shifted(self.orientation, self.coordinate@, j),
                i < length ==> current@ == shifted(self.orientation, self.coordinate@, i as int),
            decreases length - i,
        {
            coords.push(current);
            if i + 1 < length {
                current = self.orientation.next(&current);
            }
            i = i + 1;
        }
        coords
    }
}

/// An expansion of `len` cells has exactly `len` cells, starts at the anchor,
/// grows strictly along the orientation and keeps the other component fixed.
pub proof fn lemma_expansion_shape(p: ShipPlacement, len: nat)
    requires
        len >= 1,
    ensures
        expansion(p, len).len() == len,
        expansion(p, len)[0] == p.coordinate@,
        forall|i: int, j: int|
            0 <= i < j < len ==> along(p.orientation, #[trigger] expansion(p, len)[i]) < along(
                p.orientation,
                #[trigger] expansion(p, len)[j],
            ),
        forall|i: int|
            0 <= i < len ==> across(p.orientation, #[trigger] expansion(p, len)[i]) == across(
                p.orientation,
                p.coordinate@,
            ),
{
}

} // verus!
