use voxel_world::navigation::{Cell, FlowField, IVec2};

#[test]
fn get_neighbours_test() {
    let neighbours = FlowField::new(10, 10).get_neighbours(&(3, 3).into());
    assert_eq!(neighbours.len(), 4);
    assert!(neighbours.contains(&Cell::new(3, 4)));
    assert!(neighbours.contains(&Cell::new(3, 2)));
    assert!(neighbours.contains(&Cell::new(2, 3)));
    assert!(neighbours.contains(&Cell::new(4, 3)));
}

#[test]
fn get_neighbours_test_edge() {
    let neighbours = FlowField::new(10, 10).get_neighbours(&(0, 0).into());
    assert_eq!(neighbours.len(), 2);
    assert!(neighbours.contains(&Cell::new(1, 0)));
    assert!(neighbours.contains(&Cell::new(0, 1)));
}

#[test]
fn get_neighbours_cross_test() {
    let neighbours = FlowField::new(10, 10).get_neighbours_cross(&(3, 3).into());
    assert_eq!(neighbours.len(), 4);
    assert!(neighbours.contains(&Cell::new(4, 4)));
    assert!(neighbours.contains(&Cell::new(2, 4)));
    assert!(neighbours.contains(&Cell::new(4, 2)));
    assert!(neighbours.contains(&Cell::new(2, 2)));
}

#[test]
fn get_neighbours_cross_edge_test() {
    let neighbours = FlowField::new(10, 10).get_neighbours_cross(&(9, 9).into());
    assert_eq!(neighbours.len(), 1);
    assert!(neighbours.contains(&Cell::new(8, 8)));
}

fn print_values(flow_field: &FlowField, size: usize) {
    for y in (0..size).rev() {
        let mut line = String::new();
        for x in 0..size {
            line.push_str(&format!("{:10} ", flow_field.get(&Cell::new(x, y))));
        }
        println!("{}", line);
    }
}

#[test]
fn set_destination_test() {
    let mut flow_field = FlowField::new(10, 10);
    flow_field.set_destination_cell(Cell::new(4, 4));
    print_values(&flow_field, 10);
}

#[test]
fn set_destination_with_one_blocked_test() {
    let mut flow_field = FlowField::new(10, 10);
    flow_field.set_blocked_cell(&Cell::new(3, 3));
    flow_field.set_destination_cell(Cell::new(4, 4));
    assert!(flow_field.get(&Cell::new(3, 3)) == u32::MAX);
    print_values(&flow_field, 10);
}

#[test]
fn print_flow() {
    let mut flow_field = FlowField::new(25, 25);
    flow_field.set_destination_cell(Cell::new(10, 10));
    flow_field.calculate_flow();
    print_values(&flow_field, 25);
    for y in (0..25).rev() {
        let mut line = String::new();
        for x in 0..25 {
            let direction = flow_field.get_flow_cell(x, y);
            line.push(' ');
            line.push_str(&FlowField::get_string_vector(&direction));
        }
        println!("{}", line);
    }
}

#[test]
fn destination_costs_step_outward() {
    let mut flow_field = FlowField::new(10, 10);
    flow_field.set_destination_cell(Cell::new(4, 4));
    assert_eq!(flow_field.get(&Cell::new(4, 4)), 0);
    // One axis step costs 100, one diagonal step 141.
    assert_eq!(flow_field.get(&Cell::new(5, 4)), 100);
    assert_eq!(flow_field.get(&Cell::new(4, 3)), 100);
    assert_eq!(flow_field.get(&Cell::new(5, 5)), 141);
    assert_eq!(flow_field.get(&Cell::new(6, 6)), 282);
    assert_eq!(flow_field.get(&Cell::new(6, 4)), 200);
}

#[test]
fn flow_points_down_the_gradient() {
    let mut flow_field = FlowField::new(4, 4);
    flow_field.set_destination_cell(Cell::new(1, 1));
    flow_field.calculate_flow();
    assert_eq!(flow_field.get_flow_cell(3, 3), IVec2::new(-1, -1));
    assert_eq!(flow_field.get_flow_cell(1, 3), IVec2::new(0, -1));
    assert_eq!(flow_field.get_flow_cell(3, 1), IVec2::new(-1, 0));
    assert_eq!(flow_field.get_flow_cell(1, 1), IVec2::new(0, 0));
}

#[test]
fn reset_keeps_walls() {
    let mut flow_field = FlowField::new(10, 10);
    flow_field.set_blocked_cell(&Cell::new(2, 2));
    flow_field.set_destination_cell(Cell::new(4, 4));
    flow_field.reset();
    assert_eq!(flow_field.get(&Cell::new(2, 2)), u32::MAX);
    assert_eq!(flow_field.get(&Cell::new(4, 4)), u32::MAX - 1);
    assert_eq!(flow_field.get(&Cell::new(5, 5)), u32::MAX - 1);
}

#[test]
fn blocking_an_area_blocks_each_cell() {
    let mut flow_field = FlowField::new(10, 10);
    flow_field.block_position_with_size(&IVec2::new(0, 0), 2);
    assert_eq!(flow_field.get(&Cell::new(4, 4)), u32::MAX);
    assert_eq!(flow_field.get(&Cell::new(4, 5)), u32::MAX);
    assert_eq!(flow_field.get(&Cell::new(5, 4)), u32::MAX);
    assert_eq!(flow_field.get(&Cell::new(5, 5)), u32::MAX);
    assert_eq!(flow_field.get(&Cell::new(6, 6)), u32::MAX - 1);
    assert_eq!(flow_field.get(&Cell::new(3, 3)), u32::MAX - 1);
}

#[test]
fn walls_are_never_crossed() {
    let mut flow_field = FlowField::new(10, 10);
    // A wall column between the destination and the right half.
    for y in 0..9 {
        flow_field.set_blocked_cell(&Cell::new(6, y));
    }
    flow_field.set_destination_cell(Cell::new(4, 4));
    // The cost behind the wall can only come from the detour over the top.
    let direct = flow_field.get(&Cell::new(7, 4));
    assert!(direct > 300);
    assert_eq!(flow_field.get(&Cell::new(6, 4)), u32::MAX);
}

#[test]
fn get_string_vector_names_all_directions() {
    assert_eq!(FlowField::get_string_vector(&IVec2::new(0, 0)), " ");
    assert_eq!(FlowField::get_string_vector(&IVec2::new(1, 0)), "\u{2192}");
    assert_eq!(FlowField::get_string_vector(&IVec2::new(-1, 0)), "\u{2190}");
    assert_eq!(FlowField::get_string_vector(&IVec2::new(0, 1)), "\u{2191}");
    assert_eq!(FlowField::get_string_vector(&IVec2::new(0, -1)), "\u{2193}");
    assert_eq!(FlowField::get_string_vector(&IVec2::new(1, 1)), "\u{2b08}");
    assert_eq!(FlowField::get_string_vector(&IVec2::new(1, -1)), "\u{2b0a}");
    assert_eq!(FlowField::get_string_vector(&IVec2::new(-1, 1)), "\u{2b09}");
    assert_eq!(FlowField::get_string_vector(&IVec2::new(-1, -1)), "\u{2b0b}");
}

#[test]
fn map_centers_the_origin() {
    let flow_field = FlowField::new(4, 4);
    assert_eq!(flow_field.map(0, 0), (2, 2));
    assert_eq!(flow_field.map(-1, -1), (1, 1));
    assert_eq!(flow_field.map(-2, -2), (0, 0));
    assert_eq!(flow_field.map(1, 1), (3, 3));
}

#[test]
fn position_to_cell_centers_the_origin() {
    let flow_field = FlowField::new(10, 10);
    let cell = flow_field.position_to_cell(&IVec2::new(0, 0));
    assert_eq!(cell, Cell::new(5, 5));
    let cell = flow_field.position_to_cell(&IVec2::new(-3, 2));
    assert_eq!(cell, Cell::new(2, 7));
}

#[test]
fn set_destination_i_maps_signed_coordinates() {
    let mut flow_field = FlowField::new(10, 10);
    flow_field.set_destination_i(0, 0);
    assert_eq!(flow_field.get(&Cell::new(5, 5)), 0);
    assert_eq!(flow_field.get(&Cell::new(6, 5)), 100);
}
