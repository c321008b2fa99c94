use vstd::prelude::*;

verus! {

/// The kinds of ship that make up a fleet.
#[derive(Debug, Clone, Copy, PartialEq, Eq, Structural)]
pub enum ShipType {
    Destroyer,
    Submarine,
    Cruiser,
    Battleship,
    AircraftCarrier,
}

/// Number of cells a ship of the given kind covers.
pub open spec fn ship_length(t: ShipType) -> nat {
    match t {
        ShipType::Destroyer => 2,
        ShipType::Submarine => 3,
        ShipType::Cruiser => 4,
        ShipType::Battleship => 5,
        ShipType::AircraftCarrier => 6,
    }
}

/// Human-facing name of a ship kind.
pub open spec fn ship_name(t: ShipType) -> Seq<char> {
    match t {
        ShipType::Destroyer => "Destroyer"@,
        ShipType::Submarine => "Submarine"@,
        ShipType::Cruiser => "Cruiser"@,
        ShipType::Battleship => "Battleship"@,
        ShipType::AircraftCarrier => "Aircraft Carrier"@,
    }
}

impl ShipType {
    pub fn size(&self) -> (r: u8)
        ensures
            r as nat == ship_length(*self),
    {
        match self {
            ShipType::Destroyer => 2,
            ShipType::Submarine => 3,
            ShipType::Cruiser => 4,
            ShipType::Battleship => 5,
            ShipType::AircraftCarrier => 6,
        }
    }

    pub fn name(&self) -> (r: &'static str)
        ensures
            r@ == ship_name(*self),
    {
        match self {
            ShipType::Destroyer => "Destroyer",
            ShipType::Submarine => "Submarine",
            ShipType::Cruiser => "Cruiser",
            ShipType::Battleship => "Battleship",
            ShipType::AircraftCarrier => "Aircraft Carrier",
        }
    }
}

/// One member of a fleet. Its health starts at its kind's length; nothing in
/// the setup phase lowers it.
#[derive(Debug, Clone, Copy, PartialEq, Eq, Structural)]
pub struct Ship {
    pub ship_type: ShipType,
    pub health: u8,
}

impl Ship {
    pub fn new(ship_type: ShipType) -> (r: Ship)
        ensures
            r.ship_type == ship_type,
            r.health as nat == ship_length(ship_type),
    {
        let size = ship_type.size();
        Ship { ship_type, health: size }
    }

    /// Number of cells this ship covers.
    pub fn size(&self) -> (r: u8)
        ensures
            r as nat == ship_length(self.ship_type),
    {
        self.ship_type.size()
    }
}

} // verus!
