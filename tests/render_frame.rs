use astar_grid::grid::Grid;
use astar_grid::render::{color_of, draw_cell_with_border, draw_grid, fill_rect, CELL_SIZE};
use astar_grid::types::{CellType, PlacementMode};

fn px(frame: &[u8], sw: usize, x: usize, y: usize) -> [u8; 4] {
    let i = (y * sw + x) * 4;
    [frame[i], frame[i + 1], frame[i + 2], frame[i + 3]]
}

#[test]
fn colors_of_roles() {
    assert_eq!(color_of(CellType::Empty), (255, 255, 255));
    assert_eq!(color_of(CellType::Wall), (80, 80, 80));
    assert_eq!(color_of(CellType::Start), (0, 255, 0));
    assert_eq!(color_of(CellType::Goal), (255, 0, 0));
    assert_eq!(color_of(CellType::Visited), (0, 0, 255));
    assert_eq!(color_of(CellType::Path), (255, 255, 0));
}

#[test]
fn fill_rect_paints_exactly_the_rectangle() {
    let mut frame = vec![7u8; 6 * 4 * 4];
    fill_rect(&mut frame, 1, 2, 3, 1, (10, 20, 30), 6);
    for y in 0..4 {
        for x in 0..6 {
            let inside = (1..4).contains(&x) && y == 2;
            let want = if inside { [10, 20, 30, 255] } else { [7, 7, 7, 7] };
            assert_eq!(px(&frame, 6, x, y), want, "pixel {x},{y}");
        }
    }
}

#[test]
fn cell_has_border_and_fill() {
    let mut frame = vec![0u8; 5 * 5 * 4];
    draw_cell_with_border(&mut frame, 0, 0, 4, (1, 2, 3), 5);
    assert_eq!(px(&frame, 5, 0, 0), [40, 40, 40, 255]);
    assert_eq!(px(&frame, 5, 3, 1), [40, 40, 40, 255]);
    assert_eq!(px(&frame, 5, 1, 3), [40, 40, 40, 255]);
    assert_eq!(px(&frame, 5, 1, 1), [1, 2, 3, 255]);
    assert_eq!(px(&frame, 5, 2, 2), [1, 2, 3, 255]);
    assert_eq!(px(&frame, 5, 4, 0), [0, 0, 0, 0]);
    assert_eq!(px(&frame, 5, 0, 4), [0, 0, 0, 0]);
}

#[test]
fn tiny_cell_is_all_border() {
    let mut frame = vec![0u8; 2 * 2 * 4];
    draw_cell_with_border(&mut frame, 0, 0, 2, (1, 2, 3), 2);
    for y in 0..2 {
        for x in 0..2 {
            assert_eq!(px(&frame, 2, x, y), [40, 40, 40, 255]);
        }
    }
}

#[test]
fn grid_is_drawn_cell_by_cell() {
    let mut g = Grid::new(2, 3);
    g.set_role((0, 1), PlacementMode::Wall).unwrap();
    g.set_role((1, 2), PlacementMode::Goal).unwrap();
    let cs = CELL_SIZE as usize;
    let sw = 3 * cs;
    let mut frame = vec![0u8; sw * 2 * cs * 4];
    draw_grid(&mut frame, &g.cells, 2, 3);
    assert_eq!(px(&frame, sw, cs + 5, 5), [80, 80, 80, 255]);
    assert_eq!(px(&frame, sw, 2 * cs + 10, cs + 10), [255, 0, 0, 255]);
    assert_eq!(px(&frame, sw, 10, 10), [255, 255, 255, 255]);
    assert_eq!(px(&frame, sw, cs, 7), [40, 40, 40, 255]);
    assert_eq!(px(&frame, sw, 7, cs - 1), [40, 40, 40, 255]);
}

#[test]
fn empty_rectangle_anywhere_changes_nothing() {
    let mut frame = vec![9u8; 16];
    fill_rect(&mut frame, 100, 200, 0, 5, (1, 2, 3), 2);
    fill_rect(&mut frame, 7, 7, 3, 0, (1, 2, 3), 2);
    draw_cell_with_border(&mut frame, 50, 50, 0, (1, 2, 3), 2);
    assert_eq!(frame, vec![9u8; 16]);
}

#[test]
fn frame_reaching_only_the_last_pixel_is_enough() {
    // 4 pixels wide; a 2x2 rectangle at (1, 1) ends at pixel 2 of row 2.
    let mut frame = vec![0u8; (2 * 4 + 3) * 4];
    fill_rect(&mut frame, 1, 1, 2, 2, (5, 6, 7), 4);
    assert_eq!(px(&frame, 4, 1, 1), [5, 6, 7, 255]);
    assert_eq!(px(&frame, 4, 2, 2), [5, 6, 7, 255]);
    assert_eq!(px(&frame, 4, 0, 2), [0, 0, 0, 0]);
}
