use maths_appli_simulation::renderer::{clear_screen, render, render_d1, render_d2};
use maths_appli_simulation::simulation::simulator_cpu::SimulatorCPU;

const COLOURS: [(u8, u8, u8); 3] = [(1, 2, 3), (4, 5, 6), (7, 8, 9)];

fn pixel(frame: &[u8], w: usize, x: usize, y: usize) -> [u8; 4] {
    let i = 4 * (x + w * y);
    [frame[i], frame[i + 1], frame[i + 2], frame[i + 3]]
}

#[test]
fn clear_screen_zeroes_the_frame() {
    let mut frame = vec![9u8; 16];
    clear_screen(&mut frame);
    assert_eq!(frame, vec![0u8; 16]);
}

#[test]
fn render_d2_draws_each_cell_as_a_square() {
    // 4x4 screen, 2x2 grid: each cell is a 2x2 square, no padding.
    let (w, h) = (4usize, 4usize);
    let mut frame = vec![0u8; 4 * w * h];
    let tab = vec![0u8, 1, 2, 0];
    render_d2::<SimulatorCPU>(&mut frame, w, h, &tab, &COLOURS.to_vec(), 2);
    assert_eq!(pixel(&frame, w, 0, 0), [1, 2, 3, 255]);
    assert_eq!(pixel(&frame, w, 1, 1), [1, 2, 3, 255]);
    assert_eq!(pixel(&frame, w, 2, 0), [4, 5, 6, 255]);
    assert_eq!(pixel(&frame, w, 3, 1), [4, 5, 6, 255]);
    assert_eq!(pixel(&frame, w, 0, 2), [7, 8, 9, 255]);
    assert_eq!(pixel(&frame, w, 3, 3), [1, 2, 3, 255]);
}

#[test]
fn render_d2_centres_on_a_wide_screen() {
    // 6x3 screen, 2x2 grid: canvas of 2 pixels, cells of 1 pixel, offset 2 columns.
    let (w, h) = (6usize, 3usize);
    let mut frame = vec![0u8; 4 * w * h];
    let tab = vec![0u8, 1, 2, 0];
    render_d2::<SimulatorCPU>(&mut frame, w, h, &tab, &COLOURS.to_vec(), 2);
    assert_eq!(pixel(&frame, w, 0, 0), [0, 0, 0, 0]);
    assert_eq!(pixel(&frame, w, 1, 1), [0, 0, 0, 0]);
    assert_eq!(pixel(&frame, w, 2, 0), [1, 2, 3, 255]);
    assert_eq!(pixel(&frame, w, 3, 0), [4, 5, 6, 255]);
    assert_eq!(pixel(&frame, w, 2, 1), [7, 8, 9, 255]);
    assert_eq!(pixel(&frame, w, 3, 1), [1, 2, 3, 255]);
    assert_eq!(pixel(&frame, w, 4, 0), [0, 0, 0, 0]);
    assert_eq!(pixel(&frame, w, 2, 2), [0, 0, 0, 0]);
}

#[test]
fn render_d2_canvas_equal_to_the_side_draws_every_other_cell() {
    // 6x2 screen, 2x2 grid: the canvas (2) equals the side, so one cell in two is drawn.
    let (w, h) = (6usize, 2usize);
    let mut frame = vec![0u8; 4 * w * h];
    let tab = vec![0u8, 1, 2, 0];
    render_d2::<SimulatorCPU>(&mut frame, w, h, &tab, &COLOURS.to_vec(), 2);
    assert_eq!(pixel(&frame, w, 2, 0), [1, 2, 3, 255]);
    assert_eq!(pixel(&frame, w, 3, 0), [0, 0, 0, 0]);
    assert_eq!(pixel(&frame, w, 2, 1), [0, 0, 0, 0]);
}

#[test]
fn render_d2_skips_cells_on_a_small_screen() {
    // 2x2 screen, 4x4 grid: one cell in three is drawn (step 3), cells 0 and 3 of rows 0 and 3.
    let (w, h) = (2usize, 2usize);
    let mut frame = vec![0u8; 4 * w * h];
    let mut tab = vec![2u8; 16];
    tab[0] = 0;
    tab[3] = 1;
    tab[12] = 1;
    tab[15] = 0;
    render_d2::<SimulatorCPU>(&mut frame, w, h, &tab, &COLOURS.to_vec(), 4);
    assert_eq!(pixel(&frame, w, 0, 0), [1, 2, 3, 255]);
    assert_eq!(pixel(&frame, w, 1, 0), [4, 5, 6, 255]);
    assert_eq!(pixel(&frame, w, 0, 1), [4, 5, 6, 255]);
    assert_eq!(pixel(&frame, w, 1, 1), [1, 2, 3, 255]);
}

#[test]
fn render_d1_draws_a_strip() {
    // 4x4 screen, 2 cells: canvas width 4, cells of 2 pixels, strip 2 rows high at row 2.
    let (w, h) = (4usize, 4usize);
    let mut frame = vec![0u8; 4 * w * h];
    let tab = vec![1u8, 2];
    render_d1::<SimulatorCPU>(&mut frame, w, h, &tab, &COLOURS.to_vec(), 2);
    for y in 0..2 {
        for x in 0..4 {
            assert_eq!(pixel(&frame, w, x, y), [0, 0, 0, 0]);
        }
    }
    for y in 2..4 {
        assert_eq!(pixel(&frame, w, 0, y), [4, 5, 6, 255]);
        assert_eq!(pixel(&frame, w, 1, y), [4, 5, 6, 255]);
        assert_eq!(pixel(&frame, w, 2, y), [7, 8, 9, 255]);
        assert_eq!(pixel(&frame, w, 3, y), [7, 8, 9, 255]);
    }
}

#[test]
fn render_dispatches_on_the_dimension() {
    let (w, h) = (4usize, 4usize);
    let tab = vec![0u8, 1, 2, 0];
    let mut a = vec![0u8; 4 * w * h];
    let mut b = vec![0u8; 4 * w * h];
    render::<SimulatorCPU>(&mut a, w, h, &tab, &COLOURS.to_vec(), 2, 2);
    render_d2::<SimulatorCPU>(&mut b, w, h, &tab, &COLOURS.to_vec(), 2);
    assert_eq!(a, b);
    let tab1 = vec![1u8, 2];
    let mut c = vec![0u8; 4 * w * h];
    let mut e = vec![0u8; 4 * w * h];
    render::<SimulatorCPU>(&mut c, w, h, &tab1, &COLOURS.to_vec(), 2, 1);
    render_d1::<SimulatorCPU>(&mut e, w, h, &tab1, &COLOURS.to_vec(), 2);
    assert_eq!(c, e);
}
