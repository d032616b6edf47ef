use maths_appli_simulation::error::SimulationError;
use maths_appli_simulation::grid::{checked_pow, table_side};
use maths_appli_simulation::simulation::picture::RgbImage;
use maths_appli_simulation::simulation::simulation_data::SimulationData;
use maths_appli_simulation::simulation::simulator_cpu::SimulatorCPU;
use maths_appli_simulation::simulation::{SimulationDevice, Simulator};

type Sim = Simulator<SimulatorCPU>;

/// The indices of the 2d periodic neighbours of cell `i` of a grid of side `n`.
fn neighbours(i: usize, n: usize, d: usize) -> Vec<usize> {
    let mut out = Vec::new();
    let mut stride = 1;
    for _axis in 0..d {
        let c = (i / stride) % n;
        let forward = if c == n - 1 { 0 } else { c + 1 };
        let back = if c == 0 { n - 1 } else { c - 1 };
        out.push(i - c * stride + forward * stride);
        out.push(i - c * stride + back * stride);
        stride *= n;
    }
    out
}

fn check_step(before: &[u8], after: &[u8], n: usize, d: usize) {
    assert_eq!(before.len(), after.len());
    for i in 0..after.len() {
        let ok = neighbours(i, n, d).iter().any(|&j| before[j] == after[i]);
        assert!(ok, "cell {} took an opinion none of its neighbours held", i);
    }
}

#[test]
fn simulation_data_new_keeps_fields() {
    let data = SimulationData::new(7, 2, 3);
    assert_eq!((data.n, data.d, data.k), (7, 2, 3));
}

#[test]
fn checked_pow_values() {
    assert_eq!(checked_pow(3, 3), Some(27));
    assert_eq!(checked_pow(5, 0), Some(1));
    assert_eq!(checked_pow(0, 4), Some(0));
    assert_eq!(checked_pow(2, 64), None);
    assert_eq!(checked_pow(2, 63), Some(1u64 << 63));
}

#[test]
fn table_side_finds_roots() {
    assert_eq!(table_side(25, 2), Some(5));
    assert_eq!(table_side(27, 3), Some(3));
    assert_eq!(table_side(8, 1), Some(8));
    assert_eq!(table_side(26, 2), None);
    assert_eq!(table_side(1, 0), Some(1));
    assert_eq!(table_side(2, 0), None);
    assert_eq!(table_side(0, 2), Some(0));
    assert_eq!(table_side(25_000_000, 2), Some(5000));
    assert_eq!(table_side(1_000_000, 3), Some(100));
}

#[test]
fn new_sets_up_the_dimensions() {
    let sim = Sim::new(vec![0, 2, 1, 0], 2, 2).ok().unwrap();
    assert_eq!((sim.data.n, sim.data.d, sim.data.k), (2, 2, 3));
    assert_eq!(sim.iteration(), 0);
    assert_eq!(sim.read_tab(), &vec![0, 2, 1, 0]);
}

#[test]
fn new_rejects_an_empty_table() {
    assert_eq!(Sim::new(vec![], 0, 2).err(), Some(SimulationError::NoMaximum));
}

#[test]
fn new_accepts_category_255() {
    let sim = Sim::new(vec![255, 0, 0, 0], 2, 2).ok().unwrap();
    assert_eq!(sim.data.k, 256);
    assert!(Sim::new(vec![254, 0, 0, 0], 2, 2).is_ok());
}

#[test]
fn new_rejects_wrong_dimensions() {
    assert_eq!(Sim::new(vec![0; 5], 2, 2).err(), Some(SimulationError::DimensionMismatch));
    assert_eq!(Sim::new(vec![0; 4], 4, 2).err(), Some(SimulationError::DimensionMismatch));
    assert!(Sim::new(vec![0; 8], 2, 3).is_ok());
}

#[test]
fn step_copies_a_neighbour_in_each_dimension() {
    for d in 1..=3usize {
        let n = 5usize;
        let len = n.pow(d as u32);
        let tab: Vec<u8> = (0..len).map(|i| (i % 7) as u8).collect();
        let mut sim = Sim::new(tab.clone(), n as u32, d as u8).ok().unwrap();
        let mut before = tab;
        for it in 0..10u32 {
            assert_eq!(sim.iteration(), it);
            sim.simulate_step();
            sim.prepare_reading();
            let after = sim.read_tab().clone();
            check_step(&before, &after, n, d);
            assert!(after.iter().all(|&v| (v as u16) < sim.data.k));
            before = after;
        }
        assert_eq!(sim.iteration(), 10);
    }
}

#[test]
fn step_never_creates_an_opinion() {
    let tab: Vec<u8> = vec![3, 3, 5, 5, 3, 5, 3, 3, 5];
    let mut sim = Sim::new(tab, 3, 2).ok().unwrap();
    for _ in 0..50 {
        sim.simulate_step();
        assert!(sim.read_tab().iter().all(|&v| v == 3 || v == 5));
    }
}

#[test]
fn consensus_is_absorbing() {
    let mut sim = Sim::new(vec![4; 27], 3, 3).ok().unwrap();
    for _ in 0..20 {
        sim.simulate_step();
        assert_eq!(sim.read_tab(), &vec![4; 27]);
    }
}

#[test]
fn single_cell_grid_keeps_its_opinion() {
    let mut sim = Sim::new(vec![1], 1, 2).ok().unwrap();
    sim.simulate_step();
    assert_eq!(sim.read_tab(), &vec![1]);
}

fn image(width: u32, height: u32, pixels: &[(u8, u8, u8)]) -> RgbImage {
    let mut data = Vec::new();
    for &(r, g, b) in pixels {
        data.push(r);
        data.push(g);
        data.push(b);
    }
    RgbImage { width, height, data }
}

#[test]
fn from_image_numbers_colours_in_order_of_appearance() {
    let red = (255, 0, 0);
    let white = (255, 255, 255);
    let blue = (0, 0, 255);
    let img = image(2, 2, &[white, red, red, blue]);
    let (sim, colours) = Sim::from_image(img).ok().unwrap();
    assert_eq!(colours, vec![white, red, blue]);
    assert_eq!(sim.read_tab(), &vec![0, 1, 1, 2]);
    assert_eq!((sim.data.n, sim.data.d, sim.data.k), (2, 2, 3));
}

#[test]
fn from_image_rejects_a_non_square_picture() {
    let img = image(2, 1, &[(0, 0, 0), (1, 1, 1)]);
    assert_eq!(Sim::from_image(img).err(), Some(SimulationError::NonSquareImage));
}

#[test]
fn from_image_rejects_an_empty_picture() {
    let img = image(0, 0, &[]);
    assert_eq!(Sim::from_image(img).err(), Some(SimulationError::NoMaximum));
}

#[test]
fn from_image_accepts_256_colours_and_rejects_257() {
    let colours: Vec<(u8, u8, u8)> = (0..257u32).map(|i| ((i % 256) as u8, (i / 256) as u8, 0)).collect();
    let (sim, pal) = Sim::from_image(image(16, 16, &colours[..256])).ok().unwrap();
    assert_eq!(pal.len(), 256);
    assert_eq!(sim.data.k, 256);
    assert_eq!(sim.read_tab()[255], 255);
    let mut px = colours.clone();
    px.resize(289, (0, 0, 0));
    assert_eq!(Sim::from_image(image(17, 17, &px)).err(), Some(SimulationError::TooManyColors));
}

#[test]
fn from_image_bytes_decodes_a_png() {
    let mut img = image::RgbImage::new(2, 2);
    img.put_pixel(0, 0, image::Rgb([10, 20, 30]));
    img.put_pixel(1, 0, image::Rgb([40, 50, 60]));
    img.put_pixel(0, 1, image::Rgb([10, 20, 30]));
    img.put_pixel(1, 1, image::Rgb([70, 80, 90]));
    let mut bytes = std::io::Cursor::new(Vec::new());
    img.write_to(&mut bytes, image::ImageFormat::Png).unwrap();
    let bytes = bytes.into_inner();
    let (sim, colours) = Sim::from_image_bytes(&bytes, "png").unwrap().ok().unwrap();
    assert_eq!(colours, vec![(10, 20, 30), (40, 50, 60), (70, 80, 90)]);
    assert_eq!(sim.read_tab(), &vec![0, 1, 0, 2]);
}

#[test]
fn from_image_bytes_rejects_a_non_square_png() {
    let img = image::RgbImage::new(3, 2);
    let mut bytes = std::io::Cursor::new(Vec::new());
    img.write_to(&mut bytes, image::ImageFormat::Png).unwrap();
    let r = Sim::from_image_bytes(&bytes.into_inner(), "PNG").unwrap();
    assert_eq!(r.err(), Some(SimulationError::NonSquareImage));
}

#[test]
fn from_image_bytes_gives_none_for_text() {
    assert!(Sim::from_image_bytes(b"{\"d\": 2, \"tab\": [0]}", "json").is_none());
    assert!(Sim::from_image_bytes(b"{\"d\": 2, \"tab\": [0]}", "png").is_none());
}

#[test]
fn from_image_bytes_goes_by_the_extension() {
    let img = image::RgbImage::new(2, 2);
    let mut bytes = std::io::Cursor::new(Vec::new());
    img.write_to(&mut bytes, image::ImageFormat::Png).unwrap();
    let bytes = bytes.into_inner();
    assert!(Sim::from_image_bytes(&bytes, "json").is_none());
    assert!(Sim::from_image_bytes(&bytes, "").is_none());
    assert!(Sim::from_image_bytes(&bytes, "png").is_some());
}

#[test]
fn sum_pos_moved_back_is_the_start() {
    let n = 4;
    let dir = vec![1u8, 2, 0, 2];
    let opposite: Vec<u8> = dir.iter().map(|&v| if v == 1 { 2 } else if v == 2 { 1 } else { 0 }).collect();
    for pos in [vec![0u32, 0, 0, 0], vec![3, 3, 3, 3], vec![1, 2, 3, 0]] {
        let moved = SimulatorCPU::sum_pos(&dir, pos.clone(), n);
        assert_eq!(SimulatorCPU::sum_pos(&opposite, moved, n), pos);
    }
    assert_eq!(SimulatorCPU::sum_pos(&dir, vec![3, 0, 2, 1], n), vec![0, 3, 2, 0]);
}

#[test]
fn from_json_values_finds_the_side() {
    let colours = vec![vec![255, 255, 255], vec![255, 0, 0], vec![0, 255, 255, 7]];
    let tab: Vec<u8> = vec![0, 0, 1, 0, 0, 1, 0, 1, 0, 0, 2, 2, 0, 0, 0, 2, 0, 1, 1, 0, 0, 1, 1, 0, 1];
    let (sim, c) = Sim::from_json_values(2, tab.clone(), Some(colours)).ok().unwrap();
    assert_eq!((sim.data.n, sim.data.d, sim.data.k), (5, 2, 3));
    assert_eq!(sim.read_tab(), &tab);
    assert_eq!(c, Some(vec![(255, 255, 255), (255, 0, 0), (0, 255, 255)]));
}

#[test]
fn from_json_values_without_colours() {
    let (sim, c) = Sim::from_json_values(3, vec![1; 27], None).ok().unwrap();
    assert_eq!((sim.data.n, sim.data.d, sim.data.k), (3, 3, 2));
    assert_eq!(c, None);
}

#[test]
fn from_json_values_rejects_a_bad_size() {
    assert_eq!(Sim::from_json_values(2, vec![0; 26], None).err(), Some(SimulationError::BadTableSize));
    assert_eq!(Sim::from_json_values(0, vec![0; 2], None).err(), Some(SimulationError::BadTableSize));
}

#[test]
fn from_json_values_passes_on_setup_errors() {
    assert_eq!(Sim::from_json_values(2, vec![], None).err(), Some(SimulationError::NoMaximum));
}

#[test]
fn error_messages() {
    assert_eq!(SimulationError::NoMaximum.message(), "Impossible de trouver le max du tableau initial");
    assert_eq!(SimulationError::BadTableSize.message(), "Mauvais dimensionnement du tableau");
    assert_eq!(
        SimulationError::NonSquareImage.message(),
        "La hauteur et la largeur de l'image doivent être égales"
    );
}

#[test]
fn step_with_draws_follows_each_draw() {
    // Draw 0 is the next cell, draw 1 the previous one, wrapping around.
    let mut dev = SimulatorCPU::new(vec![5, 6, 7], 8, 3, 1);
    dev.step_with_draws(&vec![0, 0, 0]);
    assert_eq!(dev.read_tab(), &vec![6, 7, 5]);
    let mut dev = SimulatorCPU::new(vec![5, 6, 7], 8, 3, 1);
    dev.step_with_draws(&vec![1, 1, 1]);
    assert_eq!(dev.read_tab(), &vec![7, 5, 6]);
    let mut dev = SimulatorCPU::new(vec![5, 6, 7], 8, 3, 1);
    dev.step_with_draws(&vec![0, 1, 0]);
    assert_eq!(dev.read_tab(), &vec![6, 5, 5]);
}

#[test]
fn step_with_draws_in_dimension_2() {
    // 0 1 2 / 3 4 5 / 6 7 8: draws 2 and 3 move along the second axis (rows).
    let tab: Vec<u8> = (0..9).collect();
    let mut dev = SimulatorCPU::new(tab.clone(), 9, 3, 2);
    dev.step_with_draws(&vec![2; 9]);
    assert_eq!(dev.read_tab(), &vec![3, 4, 5, 6, 7, 8, 0, 1, 2]);
    let mut dev = SimulatorCPU::new(tab, 9, 3, 2);
    dev.step_with_draws(&vec![3; 9]);
    assert_eq!(dev.read_tab(), &vec![6, 7, 8, 0, 1, 2, 3, 4, 5]);
}

#[test]
fn step_with_draws_in_dimension_3() {
    // Draw 4 moves forward along the third axis: cell i takes cell i + 4 (mod 8).
    let tab: Vec<u8> = (0..8).collect();
    let mut dev = SimulatorCPU::new(tab, 8, 2, 3);
    dev.step_with_draws(&vec![4; 8]);
    assert_eq!(dev.read_tab(), &vec![4, 5, 6, 7, 0, 1, 2, 3]);
}

#[test]
fn data_getter_gives_the_dimensions() {
    let sim = Sim::new(vec![0; 9], 3, 2).ok().unwrap();
    let data = sim.data();
    assert_eq!((data.n, data.d, data.k), (3, 2, 1));
}
