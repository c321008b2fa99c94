use battleship::{
    parse_coordinate, parse_orientation, standard_fleet, Coordinate, FleetSetup, Orientation, PlacementError,
    ShipPlacement, ShipType,
};

fn chars(s: &str) -> Vec<char> {
    s.chars().collect()
}

fn horizontal(x: u8, y: u8) -> ShipPlacement {
    ShipPlacement { coordinate: Coordinate { x, y }, orientation: Orientation::Horizontal }
}

#[test]
fn standard_fleet_largest_first() {
    let fleet = standard_fleet();
    let kinds: Vec<ShipType> = fleet.iter().map(|s| s.ship_type).collect();
    assert_eq!(
        kinds,
        vec![
            ShipType::AircraftCarrier,
            ShipType::Battleship,
            ShipType::Cruiser,
            ShipType::Submarine,
            ShipType::Destroyer,
        ]
    );
    let healths: Vec<u8> = fleet.iter().map(|s| s.health).collect();
    assert_eq!(healths, vec![6, 5, 4, 3, 2]);
}

#[test]
fn setup_places_fleet_in_order() {
    let mut setup = FleetSetup::new(standard_fleet(), 10, 10);
    assert_eq!(setup.current_ship(), Some(0));
    assert!(!setup.is_complete());
    assert_eq!(setup.offer(horizontal(6, 1)), Err(PlacementError::OutOfBounds));
    assert_eq!(setup.current_ship(), Some(0));
    assert_eq!(setup.offer(horizontal(1, 1)), Ok(()));
    assert_eq!(setup.current_ship(), Some(1));
    assert_eq!(setup.offer(horizontal(3, 1)), Err(PlacementError::Overlap));
    assert_eq!(setup.current_ship(), Some(1));
    for (i, row) in [(1usize, 3u8), (2, 5), (3, 7), (4, 9)] {
        assert_eq!(setup.current_ship(), Some(i));
        assert_eq!(setup.offer(horizontal(1, row)), Ok(()));
    }
    assert_eq!(setup.current_ship(), None);
    assert!(setup.is_complete());
    for i in 0..5 {
        assert!(setup.board().is_placed(i));
    }
    let text = setup.board().render();
    assert_eq!(text.chars().filter(|c| *c == 'S').count(), 20);
    assert_eq!(setup.board().cell_at(&Coordinate { x: 6, y: 1 }).unwrap().ship, Some(0));
    assert_eq!(setup.board().cell_at(&Coordinate { x: 7, y: 1 }).unwrap().ship, None);
    assert_eq!(setup.board().cell_at(&Coordinate { x: 2, y: 9 }).unwrap().ship, Some(4));
    assert_eq!(setup.fleet().len(), 5);
}

#[test]
fn error_messages() {
    assert_eq!(PlacementError::OutOfBounds.message(), "invalid coordinate");
    assert_eq!(PlacementError::Overlap.message(), "overlaps with ship");
}

#[test]
fn parse_coordinate_accepts_two_numbers() {
    assert_eq!(parse_coordinate(&chars("3 7")), Some(Coordinate { x: 3, y: 7 }));
    assert_eq!(parse_coordinate(&chars("  10   1\n")), Some(Coordinate { x: 10, y: 1 }));
    assert_eq!(parse_coordinate(&chars("0 255")), Some(Coordinate { x: 0, y: 255 }));
    assert_eq!(parse_coordinate(&chars("007 08")), Some(Coordinate { x: 7, y: 8 }));
}

#[test]
fn parse_coordinate_rejects_malformed() {
    assert_eq!(parse_coordinate(&chars("")), None);
    assert_eq!(parse_coordinate(&chars("3")), None);
    assert_eq!(parse_coordinate(&chars("3 4 5")), None);
    assert_eq!(parse_coordinate(&chars("a 4")), None);
    assert_eq!(parse_coordinate(&chars("3 -4")), None);
    assert_eq!(parse_coordinate(&chars("256 1")), None);
    assert_eq!(parse_coordinate(&chars("1 1000")), None);
}

#[test]
fn parse_orientation_h_is_horizontal() {
    assert_eq!(parse_orientation(&chars("h")), Orientation::Horizontal);
    assert_eq!(parse_orientation(&chars(" h\n")), Orientation::Horizontal);
    assert_eq!(parse_orientation(&chars("v")), Orientation::Vertical);
    assert_eq!(parse_orientation(&chars("H")), Orientation::Vertical);
    assert_eq!(parse_orientation(&chars("h h")), Orientation::Vertical);
    assert_eq!(parse_orientation(&chars("")), Orientation::Vertical);
}
