use vstd::prelude::*;
use crate::board::{index_of, lemma_index_bijective, lemma_placement_all_or_nothing, placement_outcome, Board, BoardView, PlacementError};
use crate::fleet::{ship_length, Ship, ShipType};
use crate::geometry::{expansion, ShipPlacement};

verus! {

/// The kinds of the standard fleet, in the order they are placed: largest first.
pub open spec fn standard_order() -> Seq<ShipType> {
    seq![
        ShipType::AircraftCarrier,
        ShipType::Battleship,
        ShipType::Cruiser,
        ShipType::Submarine,
        ShipType::Destroyer,
    ]
}

/// One fresh ship of each kind, largest first.
pub fn standard_fleet() -> (r: Vec<Ship>)
    ensures
        r@.len() == standard_order().len(),
        forall|i: int| 0 <= i < r@.len() ==> (#[trigger] r@[i]).ship_type == standard_order()[i],
        forall|i: int| 0 <= i < r@.len() ==> (#[trigger] r@[i]).health == ship_length(r@[i].ship_type),
{
    let r = vec![
        Ship::new(ShipType::AircraftCarrier),
        Ship::new(ShipType::Battleship),
        Ship::new(ShipType::Cruiser),
        Ship::new(ShipType::Submarine),
        Ship::new(ShipType::Destroyer),
    ];
    r
}

/// Abstract setup: the board, the fleet, and how many ships of the fleet
/// (taken in order) have been placed.
pub struct FleetSetupView {
    pub board: BoardView,
    pub fleet: Seq<Ship>,
    pub placed: nat,
}

impl FleetSetupView {
    pub open spec fn wf(self) -> bool {
        &&& self.board.wf()
        &&& self.placed <= self.fleet.len()
        &&& forall|i: usize| i < self.placed ==> #[trigger] self.board.holds(i)
    }
}

/// The setup phase as a state machine: the ships of a fleet are offered to the
/// board one at a time, in order, and the next ship is up only once the
/// current one has been placed.
pub struct FleetSetup {
    board: Board,
    fleet: Vec<Ship>,
    placed: usize,
}

impl View for FleetSetup {
    type V = FleetSetupView;

    closed spec fn view(&self) -> FleetSetupView {
        FleetSetupView { board: self.board@, fleet: self.fleet@, placed: self.placed as nat }
    }
}

impl FleetSetup {
    /// Starts placing `fleet` on an empty board of `width` by `height` cells.
    pub fn new(fleet: Vec<Ship>, width: u8, height: u8) -> (r: FleetSetup)
        requires
            width >= 1,
            height >= 1,
        ensures
            r@.wf(),
            r@.fleet == fleet@,
            r@.placed == 0,
            r@.board.width == width,
            r@.board.height == height,
            forall|k: int| 0 <= k < r@.board.cells.len() ==> #[trigger] r@.board.cells[k] is None,
    {
        FleetSetup { board: Board::new(width, height), fleet, placed: 0 }
    }

    pub fn board(&self) -> (r: &Board)
        ensures
            r@ == self@.board,
    {
        &self.board
    }

    pub fn fleet(&self) -> (r: &[Ship])
        ensures
            r@ == self@.fleet,
    {
        self.fleet.as_slice()
    }

    /// The fleet index of the ship awaiting placement, if any is left.
    pub fn current_ship(&self) -> (r: Option<usize>)
        ensures
            r == if self@.placed < self@.fleet.len() {
                Some(self@.placed as usize)
            } else {
                None::<usize>
            },
    {
        if self.placed < self.fleet.len() {
            Some(self.placed)
        } else {
            None
        }
    }

    /// Whether every ship of the fleet has been placed.
    pub fn is_complete(&self) -> (r: bool)
        ensures
            r == (self@.placed == self@.fleet.len()),
    {
        self.placed == self.fleet.len()
    }

    /// Offers the current ship at `placement`. On success the next ship is up;
    /// on failure nothing changes and the same ship waits for another attempt.
    pub fn offer(&mut self, placement: ShipPlacement) -> (r: Result<(), PlacementError>)
        requires
            old(self)@.wf(),
            old(self)@.placed < old(self)@.fleet.len(),
        ensures
            final(self)@.wf(),
            final(self)@.fleet == old(self)@.fleet,
            (r, final(self)@.board) == placement_outcome(
                old(self)@.board,
                expansion(placement, ship_length(old(self)@.fleet[old(self)@.placed as int].ship_type)),
                old(self)@.placed as usize,
            ),
            final(self)@.placed == if r is Ok {
                old(self)@.placed + 1
            } else {
                old(self)@.placed
            },
    {
        let ghost before = self@;
        let ghost cells = expansion(placement, ship_length(before.fleet[before.placed as int].ship_type));
        let fleet_size = self.fleet.len();
        let r = self.board.place_ship(placement, self.fleet.as_slice(), self.placed);
        if r.is_ok() {
            proof {
                lemma_placement_all_or_nothing(before.board, cells, before.placed as usize);
                lemma_commit_keeps_placed(before, cells);
            }
            assert(self.placed < fleet_size);
            self.placed = self.placed + 1;
        }
        r
    }
}

/// Once setup is complete, every ship of the fleet stands on the board.
pub proof fn lemma_complete_setup_places_fleet(s: FleetSetupView)
    requires
        s.wf(),
        s.placed == s.fleet.len(),
    ensures
        forall|i: usize| i < s.fleet.len() ==> #[trigger] s.board.holds(i),
{
}

/// Committing a validated placement for the current ship keeps every earlier
/// ship on the board and puts the current one there.
proof fn lemma_commit_keeps_placed(s: FleetSetupView, cells: Seq<(int, int)>)
    requires
        s.wf(),
        s.placed < s.fleet.len(),
        cells.len() >= 1,
        placement_outcome(s.board, cells, s.placed as usize).0 is Ok,
    ensures
        forall|i: usize| i <= s.placed ==> #[trigger] placement_outcome(s.board, cells, s.placed as usize).1.holds(i),
{
    let v = s.board;
    let id = s.placed as usize;
    let after = placement_outcome(v, cells, id).1;
    lemma_placement_all_or_nothing(v, cells, id);
    lemma_index_bijective(v.width as int, v.height as int);
    assert forall|i: usize| i <= s.placed implies #[trigger] after.holds(i) by {
        if i < s.placed {
            assert(v.holds(i));
            let k = choose|k: int| 0 <= k < v.cells.len() && v.cells[k] == Some(i);
            if v.covers(cells, k) {
                let j = choose|j: int| 0 <= j < cells.len() && index_of(v.width as int, #[trigger] cells[j]) == k;
                assert(v.contains(cells[j]));
            }
            assert(after.cells[k] == Some(i));
        } else {
            let k = index_of(v.width as int, cells[0]);
            assert(after.ship_at(cells[0]) == Some(id));
            assert(after.cells[k] == Some(i));
        }
    }
}

} // verus!
