use battleship::{Board, Coordinate, Orientation, PlacementError, Ship, ShipPlacement, ShipType};

fn at(x: u8, y: u8) -> Coordinate {
    Coordinate { x, y }
}

fn placement(x: u8, y: u8, orientation: Orientation) -> ShipPlacement {
    ShipPlacement { coordinate: at(x, y), orientation }
}

fn ship_on(board: &Board, x: u8, y: u8) -> Option<usize> {
    board.cell_at(&at(x, y)).unwrap().ship
}

fn snapshot(board: &Board) -> Vec<Option<usize>> {
    let mut cells = Vec::new();
    for y in 1..=board.height() {
        for x in 1..=board.width() {
            cells.push(ship_on(board, x, y));
        }
    }
    cells
}

fn fleet() -> Vec<Ship> {
    vec![
        Ship::new(ShipType::AircraftCarrier),
        Ship::new(ShipType::Battleship),
        Ship::new(ShipType::Cruiser),
        Ship::new(ShipType::Submarine),
        Ship::new(ShipType::Destroyer),
    ]
}

#[test]
fn destroyer_placed_horizontally() {
    let fleet = vec![Ship::new(ShipType::Destroyer)];
    let mut board = Board::new(10, 10);
    assert_eq!(board.place_ship(placement(1, 1, Orientation::Horizontal), &fleet, 0), Ok(()));
    assert_eq!(ship_on(&board, 1, 1), Some(0));
    assert_eq!(ship_on(&board, 2, 1), Some(0));
    assert_eq!(ship_on(&board, 3, 1), None);
    assert_eq!(ship_on(&board, 1, 2), None);
    assert!(board.is_placed(0));
}

#[test]
fn overlapping_submarine_rejected() {
    let fleet = vec![Ship::new(ShipType::Destroyer), Ship::new(ShipType::Submarine)];
    let mut board = Board::new(10, 10);
    assert_eq!(board.place_ship(placement(1, 1, Orientation::Horizontal), &fleet, 0), Ok(()));
    let before = snapshot(&board);
    let text = board.render();
    assert_eq!(
        board.place_ship(placement(2, 1, Orientation::Horizontal), &fleet, 1),
        Err(PlacementError::Overlap)
    );
    assert_eq!(snapshot(&board), before);
    assert_eq!(board.render(), text);
    assert_eq!(ship_on(&board, 3, 1), None);
    assert_eq!(ship_on(&board, 4, 1), None);
    assert!(!board.is_placed(1));
}

#[test]
fn aircraft_carrier_past_right_edge_rejected() {
    let fleet = vec![Ship::new(ShipType::AircraftCarrier)];
    let mut board = Board::new(10, 10);
    let before = snapshot(&board);
    assert_eq!(
        board.place_ship(placement(6, 1, Orientation::Horizontal), &fleet, 0),
        Err(PlacementError::OutOfBounds)
    );
    assert_eq!(snapshot(&board), before);
    for x in 6..=10 {
        assert_eq!(ship_on(&board, x, 1), None);
    }
    assert!(!board.is_placed(0));
}

#[test]
fn cruiser_past_bottom_edge_rejected() {
    let fleet = vec![Ship::new(ShipType::Cruiser)];
    let mut board = Board::new(10, 10);
    let before = snapshot(&board);
    assert_eq!(
        board.place_ship(placement(5, 9, Orientation::Vertical), &fleet, 0),
        Err(PlacementError::OutOfBounds)
    );
    assert_eq!(snapshot(&board), before);
    assert_eq!(ship_on(&board, 5, 9), None);
    assert_eq!(ship_on(&board, 5, 10), None);
}

#[test]
fn whole_fleet_on_disjoint_rows() {
    let fleet = fleet();
    let mut board = Board::new(10, 10);
    for (i, _) in fleet.iter().enumerate() {
        let row = (i as u8) * 2 + 1;
        assert_eq!(board.place_ship(placement(1, row, Orientation::Horizontal), &fleet, i), Ok(()));
    }
    for i in 0..fleet.len() {
        assert!(board.is_placed(i));
    }
    let text = board.render();
    assert_eq!(text.chars().filter(|c| *c == 'S').count(), 20);
    assert_eq!(text.chars().filter(|c| *c == '~').count(), 80);
}

#[test]
fn anchor_off_board_rejected() {
    let fleet = vec![Ship::new(ShipType::Destroyer)];
    let mut board = Board::new(10, 10);
    assert_eq!(
        board.place_ship(placement(0, 1, Orientation::Horizontal), &fleet, 0),
        Err(PlacementError::OutOfBounds)
    );
    assert_eq!(
        board.place_ship(placement(3, 11, Orientation::Vertical), &fleet, 0),
        Err(PlacementError::OutOfBounds)
    );
    assert!(!board.is_placed(0));
}

#[test]
fn first_failing_cell_decides_error() {
    let fleet = vec![Ship::new(ShipType::Destroyer), Ship::new(ShipType::Battleship)];
    let mut board = Board::new(10, 10);
    assert_eq!(board.place_ship(placement(8, 2, Orientation::Vertical), &fleet, 0), Ok(()));
    // Covers (7,2) free, (8,2) taken, then (11,2) off the board: the overlap comes first.
    assert_eq!(
        board.place_ship(placement(7, 2, Orientation::Horizontal), &fleet, 1),
        Err(PlacementError::Overlap)
    );
    // Covers (9,3) .. (13,3): off the board before reaching any ship.
    assert_eq!(
        board.place_ship(placement(9, 3, Orientation::Horizontal), &fleet, 1),
        Err(PlacementError::OutOfBounds)
    );
}

#[test]
fn expansion_near_coordinate_limit_rejected() {
    let fleet = vec![Ship::new(ShipType::AircraftCarrier)];
    let mut board = Board::new(255, 3);
    let before = snapshot(&board);
    assert_eq!(
        board.place_ship(placement(252, 1, Orientation::Horizontal), &fleet, 0),
        Err(PlacementError::OutOfBounds)
    );
    assert_eq!(snapshot(&board), before);
    assert_eq!(board.place_ship(placement(250, 1, Orientation::Horizontal), &fleet, 0), Ok(()));
    assert_eq!(ship_on(&board, 255, 1), Some(0));
    assert_eq!(ship_on(&board, 249, 1), None);
}

#[test]
fn placement_fills_last_row_and_column() {
    let fleet = vec![Ship::new(ShipType::Submarine), Ship::new(ShipType::Cruiser)];
    let mut board = Board::new(10, 10);
    assert_eq!(board.place_ship(placement(10, 8, Orientation::Vertical), &fleet, 0), Ok(()));
    assert_eq!(ship_on(&board, 10, 10), Some(0));
    assert_eq!(
        board.place_ship(placement(7, 10, Orientation::Horizontal), &fleet, 1),
        Err(PlacementError::Overlap)
    );
    assert_eq!(board.place_ship(placement(6, 10, Orientation::Horizontal), &fleet, 1), Ok(()));
    assert_eq!(ship_on(&board, 6, 10), Some(1));
    assert_eq!(ship_on(&board, 9, 10), Some(1));
    assert_eq!(ship_on(&board, 10, 10), Some(0));
    assert_eq!(ship_on(&board, 10, 9), Some(0));
}

#[test]
fn rejection_then_retry_succeeds() {
    let fleet = vec![Ship::new(ShipType::Battleship)];
    let mut board = Board::new(10, 10);
    assert_eq!(
        board.place_ship(placement(7, 4, Orientation::Horizontal), &fleet, 0),
        Err(PlacementError::OutOfBounds)
    );
    assert_eq!(board.place_ship(placement(6, 4, Orientation::Horizontal), &fleet, 0), Ok(()));
    assert_eq!(ship_on(&board, 10, 4), Some(0));
}
