use hello_fluid_simulator::field::{
    accumulate_wave_to_field, is_valid_shape, reflect_index, sample_height, HEIGHT_SCALE,
};
use hello_fluid_simulator::render::{palette_index, render};
use hello_fluid_simulator::simulation::{simulate_frame, Source};
use hello_fluid_simulator::source::{update_wave, BOUNDARY_LEFT, BOUNDARY_RIGHT, POSITION_SCALE};

const GRAYSCALE: [char; 9] = [' ', '▁', '▂', '▃', '▄', '▅', '▆', '▇', '█'];

fn raised_cosine_shape(len: usize) -> Vec<u64> {
    let last = (len - 1) as f64;
    (0..len)
        .map(|i| {
            let x = std::f64::consts::PI * i as f64 / last;
            (0.5 * (x.cos() + 1.0) * HEIGHT_SCALE as f64).round() as u64
        })
        .collect()
}

fn accumulated(position: i64, wave_length: i64, amplitude: u64, n: usize, shape: &Vec<u64>) -> Vec<u64> {
    let mut field = vec![0u64; n];
    accumulate_wave_to_field(position, wave_length, amplitude, shape, &mut field);
    field
}

#[test]
fn reflect_index_mirrors_out_of_range_indices() {
    assert_eq!(reflect_index(-1, 10), 0);
    assert_eq!(reflect_index(10, 10), 9);
    assert_eq!(reflect_index(-3, 10), 2);
    assert_eq!(reflect_index(4, 10), 4);
    assert_eq!(reflect_index(-10, 10), 9);
    assert_eq!(reflect_index(19, 10), 0);
}

#[test]
fn update_wave_moves_inside_domain() {
    let mut p = 1000;
    let mut v = 250;
    update_wave(2, &mut p, &mut v);
    assert_eq!((p, v), (1500, 250));
}

#[test]
fn update_wave_reflects_at_upper_bound() {
    let mut p = BOUNDARY_RIGHT - 100;
    let mut v = 300;
    update_wave(1, &mut p, &mut v);
    assert_eq!((p, v), (BOUNDARY_RIGHT - 300, -300));
}

#[test]
fn update_wave_reflects_at_lower_bound() {
    let mut p = BOUNDARY_LEFT + 40;
    let mut v = -50;
    update_wave(2, &mut p, &mut v);
    assert_eq!((p, v), (BOUNDARY_LEFT + 100, 50));
}

#[test]
fn update_wave_stays_in_bounds() {
    let width = BOUNDARY_RIGHT - BOUNDARY_LEFT;
    for &(p0, v0, dt) in &[
        (0, width, 1),
        (width, -width, 1),
        (width / 2, width / 3, 3),
        (width - 1, 7, 5),
        (1, -7, 5),
    ] {
        let mut p = p0;
        let mut v = v0;
        update_wave(dt, &mut p, &mut v);
        assert!(BOUNDARY_LEFT <= p && p <= BOUNDARY_RIGHT, "{} {} {}", p0, v0, dt);
    }
}

#[test]
fn update_wave_is_mirror_symmetric() {
    let eps = 1234;
    let v = 5000;
    let mut p_hi = BOUNDARY_RIGHT - eps;
    let mut v_hi = v;
    update_wave(1, &mut p_hi, &mut v_hi);
    let mut p_lo = BOUNDARY_LEFT + eps;
    let mut v_lo = -v;
    update_wave(1, &mut p_lo, &mut v_lo);
    assert_eq!(p_hi, BOUNDARY_RIGHT - 5000);
    assert_eq!(p_lo, BOUNDARY_LEFT + 5000);
    assert_eq!(p_hi, BOUNDARY_LEFT + BOUNDARY_RIGHT - p_lo);
    assert_eq!(v_hi, -v_lo);
}

#[test]
fn bump_stays_within_half_width() {
    let shape = raised_cosine_shape(1025);
    let wave_length = POSITION_SCALE * 2 / 5;
    let field = accumulated(POSITION_SCALE / 2, wave_length, HEIGHT_SCALE, 100, &shape);
    for (i, &h) in field.iter().enumerate() {
        if i < 40 || i > 59 {
            assert_eq!(h, 0, "index {}", i);
        }
        if h > 0 {
            // twice the distance to the centre, in units of one hundredth
            let twice_distance = (2 * i as i64 + 1 - 100).abs();
            assert!(twice_distance < 20, "index {}", i);
        }
    }
    assert!(field[45] > 0 && field[54] > 0);
}

#[test]
fn bump_peaks_at_amplitude() {
    let shape = raised_cosine_shape(1025);
    let amplitude = HEIGHT_SCALE;
    let field = accumulated(POSITION_SCALE / 2, POSITION_SCALE * 2 / 5, amplitude, 100, &shape);
    let tolerance = amplitude / 50;
    assert!(field[49] <= amplitude && field[49] + tolerance >= amplitude);
    assert!(field[50] <= amplitude && field[50] + tolerance >= amplitude);
    let max = *field.iter().max().unwrap();
    assert!(max == field[49] || max == field[50]);
}

#[test]
fn bump_is_zero_at_quarter_wave_and_full_at_centre() {
    let shape = raised_cosine_shape(1025);
    // centre 0.5625, quarter wave 0.125, samples centred at (i + 0.5) / 8
    let position = POSITION_SCALE / 16 * 9;
    let wave_length = POSITION_SCALE / 2;
    assert_eq!(sample_height(position, wave_length, 1000, 8, &shape, 3), 0);
    assert_eq!(sample_height(position, wave_length, 1000, 8, &shape, 5), 0);
    assert_eq!(sample_height(position, wave_length, 1000, 8, &shape, 4), 1000);
    let field = accumulated(position, wave_length, 1000, 8, &shape);
    assert_eq!(field, vec![0, 0, 0, 0, 1000, 0, 0, 0]);
}

#[test]
fn bump_reflects_at_field_edge() {
    let shape = raised_cosine_shape(1025);
    let n = 10;
    let wave_length = POSITION_SCALE;
    let mut field = vec![0u64; n];
    accumulate_wave_to_field(0, wave_length, 1000, &shape, &mut field);
    // sweep is -2 .. 2: index -1 lands on 0 and index -2 on 1
    let expect0 = sample_height(0, wave_length, 1000, n, &shape, 0)
        + sample_height(0, wave_length, 1000, n, &shape, -1);
    let expect1 = sample_height(0, wave_length, 1000, n, &shape, 1)
        + sample_height(0, wave_length, 1000, n, &shape, -2);
    assert_eq!(field[0], expect0);
    assert_eq!(field[1], expect1);
    assert_eq!(field[0], 2 * sample_height(0, wave_length, 1000, n, &shape, 0));
    assert!(field[2..].iter().all(|&h| h == 0));
}

#[test]
fn accumulation_order_does_not_matter() {
    let shape = raised_cosine_shape(257);
    let n = 80;
    let a = (POSITION_SCALE / 10, POSITION_SCALE * 4 / 5, 32768u64);
    let b = (POSITION_SCALE * 9 / 10, POSITION_SCALE * 6 / 5, 26214u64);
    let mut ab = vec![0u64; n];
    accumulate_wave_to_field(a.0, a.1, a.2, &shape, &mut ab);
    accumulate_wave_to_field(b.0, b.1, b.2, &shape, &mut ab);
    let mut ba = vec![0u64; n];
    accumulate_wave_to_field(b.0, b.1, b.2, &shape, &mut ba);
    accumulate_wave_to_field(a.0, a.1, a.2, &shape, &mut ba);
    assert_eq!(ab, ba);
    assert!(ab.iter().any(|&h| h > 0));
}

#[test]
fn coincident_sources_double_the_field() {
    let shape = raised_cosine_shape(1025);
    let n = 80;
    let single = accumulated(POSITION_SCALE / 2, POSITION_SCALE * 4 / 5, 32768, n, &shape);
    let mut double = single.clone();
    accumulate_wave_to_field(POSITION_SCALE / 2, POSITION_SCALE * 4 / 5, 32768, &shape, &mut double);
    for i in 0..n {
        assert_eq!(double[i], 2 * single[i]);
    }
    assert!(single.iter().any(|&h| h > 0));
}

#[test]
fn quantization_boundaries() {
    let k = GRAYSCALE.len();
    assert_eq!(palette_index(0, k), 0);
    assert_eq!(palette_index(7281, k), 0);
    assert_eq!(palette_index(7282, k), 1);
    assert_eq!(palette_index(58254, k), 7);
    assert_eq!(palette_index(58255, k), 8);
    assert_eq!(palette_index(HEIGHT_SCALE, k), 8);
    assert_eq!(palette_index(u64::MAX, k), 8);
    assert_eq!(palette_index(HEIGHT_SCALE / 2, k), 4);
    assert_eq!(palette_index(12345, 1), 0);
}

#[test]
fn render_maps_each_sample_to_a_glyph() {
    let palette = GRAYSCALE.to_vec();
    let line = render(&vec![0, HEIGHT_SCALE / 2, HEIGHT_SCALE, 3 * HEIGHT_SCALE], &palette);
    assert_eq!(line, vec![' ', '▄', '█', '█']);
    assert!(render(&vec![], &palette).is_empty());
}

#[test]
fn shape_validity() {
    assert!(is_valid_shape(&raised_cosine_shape(1025)));
    assert!(is_valid_shape(&vec![HEIGHT_SCALE, 0]));
    assert!(!is_valid_shape(&vec![0]));
    assert!(!is_valid_shape(&vec![HEIGHT_SCALE, 1]));
    assert!(!is_valid_shape(&vec![HEIGHT_SCALE + 1, 0]));
}

#[test]
fn source_checks() {
    let s = Source::new(0, 8738, 838_861, 32768);
    assert!(s.is_well_formed());
    assert!(s.has_single_reflection(1));
    assert!(!s.has_single_reflection(1000));
    assert!(!Source::new(-1, 0, 838_861, 32768).is_well_formed());
    assert!(!Source::new(0, 0, 0, 32768).is_well_formed());
    assert!(!Source::new(0, 0, 838_861, 0).is_well_formed());
}

#[test]
fn source_advance_matches_update_wave() {
    let mut s = Source::new(BOUNDARY_RIGHT - 10, 100, 838_861, 32768);
    s.advance(1);
    assert_eq!(s, Source::new(BOUNDARY_RIGHT - 100, -100, 838_861, 32768));
}

#[test]
fn simulate_frame_advances_and_superposes() {
    let shape = raised_cosine_shape(1025);
    let x = Source::new(0, 8738, 838_861, 32768);
    let y = Source::new(POSITION_SCALE, -4369, 1_258_291, 26214);
    let mut sources = vec![x, y];
    let mut field = vec![7u64; 80];
    simulate_frame(&mut sources, 1, &shape, &mut field);
    assert_eq!(sources[0].position, 8738);
    assert_eq!(sources[1].position, POSITION_SCALE - 4369);
    let mut expect = vec![0u64; 80];
    accumulate_wave_to_field(8738, 838_861, 32768, &shape, &mut expect);
    accumulate_wave_to_field(POSITION_SCALE - 4369, 1_258_291, 26214, &shape, &mut expect);
    assert_eq!(field, expect);
    assert_eq!(field[0], expect[0]);
    assert!(field[0] > 0 && field[79] > 0);
}
