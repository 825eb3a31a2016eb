use meme_connect::cell::{Cell, Direction};
use meme_connect::connector::CellConnector;
use meme_connect::mapping::{Mapping, NO_SPRITE};

fn cell(column: usize, row: usize) -> Cell {
    Cell { column, row }
}

#[test]
fn straight_row_connects_with_two_waypoints() {
    let mut m = Mapping::new(6, 3);
    m.fill_cell(&cell(1, 1), 1).unwrap();
    m.fill_cell(&cell(4, 1), 1).unwrap();
    let path = m.connect(&cell(1, 1), &cell(4, 1)).ok().unwrap();
    assert_eq!(path, vec![cell(1, 1), cell(4, 1)]);
}

#[test]
fn straight_column_connects_with_two_waypoints() {
    let mut m = Mapping::new(4, 6);
    m.fill_cell(&cell(2, 1), 3).unwrap();
    m.fill_cell(&cell(2, 5), 3).unwrap();
    let path = m.connect(&cell(2, 5), &cell(2, 1)).ok().unwrap();
    assert_eq!(path, vec![cell(2, 5), cell(2, 1)]);
}

#[test]
fn diagonal_pair_connects_through_one_corner() {
    let mut m = Mapping::new(10, 10);
    m.fill_cell(&cell(4, 4), 10).unwrap();
    m.fill_cell(&cell(6, 6), 10).unwrap();
    let path = m.connect(&cell(4, 4), &cell(6, 6)).ok().unwrap();
    assert!(path.len() <= 4);
    assert_eq!(path, vec![cell(4, 4), cell(4, 6), cell(6, 6)]);
}

#[test]
fn blocked_row_connects_by_shortest_bridge() {
    let mut m = Mapping::new(3, 3);
    m.fill_cell(&cell(1, 2), 4).unwrap();
    m.fill_cell(&cell(3, 2), 4).unwrap();
    m.fill_cell(&cell(2, 2), 7).unwrap();
    let path = m.connect(&cell(1, 2), &cell(3, 2)).ok().unwrap();
    assert_eq!(path, vec![cell(1, 2), cell(1, 1), cell(3, 1), cell(3, 2)]);
    // the middle segment passes over free cells only
    assert_eq!(m.get_sprite(&cell(2, 1)), NO_SPRITE);
}

#[test]
fn walled_in_pair_does_not_connect() {
    let mut m = Mapping::new(3, 3);
    m.fill_cell(&cell(1, 1), 2).unwrap();
    m.fill_cell(&cell(3, 3), 2).unwrap();
    for c in [cell(2, 1), cell(1, 2), cell(2, 3), cell(3, 2)] {
        m.fill_cell(&c, 9).unwrap();
    }
    let err = m.connect(&cell(1, 1), &cell(3, 3)).err().unwrap();
    assert_eq!(err.0, "Cannot connect");
    assert_eq!(err.1.len(), 8);
    assert_eq!(err.1[0].direction, Direction::Up);
    assert_eq!(err.1[0].free_cells, 1);
    assert_eq!(err.1[1].free_cells, 0);
    assert_eq!(err.1[4].origin, cell(3, 3));
}

#[test]
fn steps_walk_the_free_cells() {
    let mut m = Mapping::new(3, 3);
    m.fill_cell(&cell(1, 1), 2).unwrap();
    m.fill_cell(&cell(3, 3), 2).unwrap();
    for c in [cell(2, 1), cell(1, 2), cell(2, 3), cell(3, 2)] {
        m.fill_cell(&c, 9).unwrap();
    }
    let (_, paths) = m.connect(&cell(1, 1), &cell(3, 3)).err().unwrap();
    assert_eq!(paths[0].steps(), vec![cell(1, 0)]);
    assert_eq!(paths[2].steps(), vec![cell(0, 1)]);
    assert_eq!(paths[7].steps(), vec![cell(4, 3)]);
}

#[test]
fn filling_the_border_ring_is_refused() {
    let mut m = Mapping::new(3, 3);
    let columns = m.columns;
    let rows = m.rows;
    for column in 0..columns {
        for row in 0..rows {
            if column == 0 || row == 0 || column == columns - 1 || row == rows - 1 {
                assert_eq!(m.fill_cell(&cell(column, row), 1), Err("cell is at border"));
            }
        }
    }
}

#[test]
fn filling_the_border_ring_is_refused_on_larger_grids() {
    for (w, h) in [(4u8, 3u8), (5, 7), (10, 10)] {
        let mut m = Mapping::new(w, h);
        let columns = m.columns;
        let rows = m.rows;
        for column in 0..columns {
            assert_eq!(m.fill_cell(&cell(column, 0), 2), Err("cell is at border"));
            assert_eq!(m.fill_cell(&cell(column, rows - 1), 2), Err("cell is at border"));
        }
        for row in 0..rows {
            assert_eq!(m.fill_cell(&cell(0, row), 2), Err("cell is at border"));
            assert_eq!(m.fill_cell(&cell(columns - 1, row), 2), Err("cell is at border"));
        }
        assert_eq!(m.fill_cell(&cell(1, 1), 2), Ok(()));
    }
}

#[test]
fn filling_an_occupied_cell_is_refused() {
    let mut m = Mapping::new(3, 3);
    assert_eq!(m.fill_cell(&cell(2, 2), 1), Ok(()));
    assert_eq!(m.fill_cell(&cell(2, 2), 5), Err("cell is occupied"));
    assert_eq!(m.get_sprite(&cell(2, 2)), 1);
    m.clear_cell(&cell(2, 2));
    assert_eq!(m.check_fillable_cell(&cell(2, 2)), Ok(()));
}

#[test]
fn grid_reserves_a_border() {
    let m = Mapping::new(6, 3);
    assert_eq!(m.columns, 8);
    assert_eq!(m.rows, 5);
    assert!(m.check_valid_cell(&cell(7, 4)));
    assert!(!m.check_valid_cell(&cell(8, 4)));
    assert_eq!(m.get_rows().len(), 5);
    assert_eq!(m.get_rows()[0].len(), 8);
    assert!(!m.no_more_move());
}

#[test]
fn interior_cells_go_column_by_column() {
    let m = Mapping::new(2, 3);
    let cells = m.mutable_cells();
    assert_eq!(
        cells,
        vec![cell(1, 1), cell(1, 2), cell(1, 3), cell(2, 1), cell(2, 2), cell(2, 3)]
    );
}

#[test]
fn fill_regions_pairs_from_the_back() {
    let mut m = Mapping::new(4, 4);
    let mut regions = vec![cell(1, 1), cell(2, 1), cell(3, 1), cell(4, 1), cell(1, 2)];
    m.fill_regions(&mut regions, &[5, 6, 7]).unwrap();
    assert_eq!(regions, vec![cell(1, 1)]);
    assert_eq!(m.get_sprite(&cell(1, 2)), 5);
    assert_eq!(m.get_sprite(&cell(4, 1)), 5);
    assert_eq!(m.get_sprite(&cell(3, 1)), 6);
    assert_eq!(m.get_sprite(&cell(2, 1)), 6);
    assert_eq!(m.get_sprite(&cell(1, 1)), NO_SPRITE);
}

#[test]
fn fill_regions_stops_at_the_border() {
    let mut m = Mapping::new(4, 4);
    let mut regions = vec![cell(0, 0), cell(2, 2), cell(1, 1)];
    assert_eq!(m.fill_regions(&mut regions, &[3, 4]), Ok(()));
    let mut more = vec![cell(0, 0), cell(3, 3)];
    assert_eq!(m.fill_regions(&mut more, &[8]), Err("cell is at border"));
    assert_eq!(m.get_sprite(&cell(3, 3)), 8);
    assert!(more.is_empty());
}

#[test]
fn fill_regions_stops_at_an_occupied_cell() {
    let mut m = Mapping::new(4, 4);
    m.fill_cell(&cell(2, 2), 1).unwrap();
    let mut regions = vec![cell(3, 3), cell(2, 2), cell(1, 1)];
    assert_eq!(m.fill_regions(&mut regions, &[7, 8]), Err("cell is occupied"));
    assert_eq!(m.get_sprite(&cell(1, 1)), 7);
    assert_eq!(m.get_sprite(&cell(2, 2)), 1);
    assert_eq!(regions, vec![cell(3, 3)]);
}

#[test]
fn cell_geometry() {
    let a = cell(2, 3);
    assert_eq!(a.direction_to(&cell(2, 7)), Some(Direction::Down));
    assert_eq!(a.direction_to(&cell(0, 3)), Some(Direction::Left));
    assert_eq!(a.direction_to(&cell(4, 4)), None);
    assert_eq!(a.neighbour(&Direction::Up), cell(2, 2));
    assert_eq!(a.distance_sqr(&cell(5, 7)), 25);
    assert!(a.is_neighbour(&cell(3, 3)));
    assert!(!a.is_neighbour(&cell(3, 4)));
    let corner = cell(0, 0);
    assert_eq!(
        corner.neighbours(),
        vec![(Direction::Down, cell(0, 1)), (Direction::Right, cell(1, 0))]
    );
    assert_eq!(a.walk(Direction::Right, 3), vec![cell(3, 3), cell(4, 3), cell(5, 3)]);
    assert!(Direction::Left.is_opposite(&Direction::Right));
    assert!(!Direction::Left.is_opposite(&Direction::Up));
}

#[test]
fn connector_removes_a_connected_pair() {
    let mut m = Mapping::new(6, 3);
    m.fill_cell(&cell(1, 1), 1).unwrap();
    m.fill_cell(&cell(4, 1), 1).unwrap();
    let mut connector = CellConnector::new();
    connector.select(cell(1, 1));
    assert_eq!(connector.get_selection(), Some(&cell(1, 1)));
    connector.select(cell(4, 1));
    assert!(connector.update(&mut m, 1500).is_ok());
    assert_eq!(m.get_sprite(&cell(1, 1)), NO_SPRITE);
    assert_eq!(m.get_sprite(&cell(4, 1)), NO_SPRITE);
    assert_eq!(connector.get_selection(), None);
    let couple = connector.poll_destroying()[0].as_ref().unwrap();
    assert_eq!(couple.remnants, [(cell(1, 1), 1), (cell(4, 1), 1)]);
    assert_eq!(couple.nodes, vec![cell(1, 1), cell(4, 1)]);
    assert_eq!(couple.epoch, 1500);
}

#[test]
fn connector_reports_rays_when_no_line_exists() {
    let mut m = Mapping::new(3, 3);
    m.fill_cell(&cell(1, 1), 2).unwrap();
    m.fill_cell(&cell(3, 3), 2).unwrap();
    for c in [cell(2, 1), cell(1, 2), cell(2, 3), cell(3, 2)] {
        m.fill_cell(&c, 9).unwrap();
    }
    let mut connector = CellConnector::new();
    connector.select(cell(1, 1));
    connector.select(cell(3, 3));
    let paths = connector.update(&mut m, 0).err().unwrap();
    assert_eq!(paths.len(), 8);
    assert_eq!(m.get_sprite(&cell(1, 1)), 2);
    assert_eq!(connector.get_selection(), None);
}

#[test]
fn connector_drops_mismatched_selection() {
    let mut m = Mapping::new(6, 3);
    m.fill_cell(&cell(1, 1), 1).unwrap();
    m.fill_cell(&cell(4, 1), 2).unwrap();
    let mut connector = CellConnector::new();
    connector.select(cell(1, 1));
    connector.select(cell(4, 1));
    assert!(connector.update(&mut m, 0).is_ok());
    assert_eq!(m.get_sprite(&cell(1, 1)), 1);
    assert_eq!(connector.get_selection(), None);
}

#[test]
fn selecting_twice_deselects_and_alter_replaces() {
    let mut connector = CellConnector::new();
    connector.select(cell(2, 2));
    connector.select(cell(2, 2));
    assert_eq!(connector.get_selection(), None);
    connector.select(cell(1, 1));
    connector.alter_selection(cell(3, 3));
    assert_eq!(connector.get_selection(), Some(&cell(3, 3)));
}
