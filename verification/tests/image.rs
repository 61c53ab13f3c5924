use arithmetic_code::colour::{colour_to_bytes, extract_colour, Colour, Hue};
use arithmetic_code::colour_dict::ColourDict;
use arithmetic_code::diagonal::{flatten_diagonal, restore_diagonal};
use arithmetic_code::entropy::count_total_occurences_from_bytes;
use arithmetic_code::predictor::{add_black, code_predictor_1, code_predictor_2, code_predictor_4,
    code_predictor_new, read_data};
use arithmetic_code::quantization::{quantize, vector_quantize};

fn c(b: u8, g: u8, r: u8) -> Colour {
    Colour { blue: b, green: g, red: r }
}

#[test]
fn colour_arithmetic_wraps() {
    let a = c(250, 10, 128);
    let b = c(10, 20, 200);
    assert_eq!(a.add(b), c(4, 30, 72));
    assert_eq!(b.sub(a), c(16, 10, 72));
    assert_eq!(a.div(2), c(125, 5, 64));
}

#[test]
fn colour_bytes_and_channels() {
    let v = vec![c(1, 2, 3), c(4, 5, 6)];
    assert_eq!(colour_to_bytes(&v), vec![1, 2, 3, 4, 5, 6]);
    assert_eq!(extract_colour(&v, &Hue::BLUE), vec![1, 4]);
    assert_eq!(extract_colour(&v, &Hue::GREEN), vec![2, 5]);
    assert_eq!(extract_colour(&v, &Hue::RED), vec![3, 6]);
}

#[test]
fn add_black_pads_left_and_top() {
    let mut v = vec![vec![c(9, 9, 9)]];
    add_black(&mut v);
    assert_eq!(v.len(), 2);
    assert_eq!(v[0], vec![c(0, 0, 0), c(0, 0, 0)]);
    assert_eq!(v[1], vec![c(0, 0, 0), c(9, 9, 9)]);
}

#[test]
fn predictors_on_small_array() {
    // one real row of two pixels behind the black border
    let mut v = vec![vec![c(10, 10, 10), c(30, 30, 30)]];
    add_black(&mut v);
    let p1 = code_predictor_1(&v);
    // first pixel predicts from black, second from the first
    assert_eq!(p1, vec![vec![c(10, 10, 10), c(20, 20, 20)]]);
    let p2 = code_predictor_2(&v);
    // the upper neighbours are all black
    assert_eq!(p2, vec![vec![c(10, 10, 10), c(30, 30, 30)]]);
    let p4 = code_predictor_4(&v);
    // up + left - corner = left for a black top row
    assert_eq!(p4, vec![vec![c(10, 10, 10), c(20, 20, 20)]]);
    let pn = code_predictor_new(&v);
    assert_eq!(pn[0].len(), 2);
}

#[test]
fn colour_dict_levels() {
    let d = ColourDict::new(2, 1, 0);
    assert_eq!(d.blue_values, vec![32, 96, 160, 224]);
    assert_eq!(d.green_values, vec![64, 192]);
    assert_eq!(d.red_values, vec![128]);
}

#[test]
fn quantize_snaps_to_levels() {
    let d = ColourDict::new(2, 2, 2);
    let q = quantize(&vec![c(10, 100, 250)], &d);
    assert_eq!(q, vec![c(32, 96, 224)]);
}

#[test]
fn vector_quantize_prefers_first_nearest() {
    let dict = vec![c(0, 0, 0), c(255, 255, 255)];
    let q = vector_quantize(&vec![c(10, 10, 10), c(200, 200, 200)], &dict);
    assert_eq!(q, vec![c(0, 0, 0), c(255, 255, 255)]);
    // an exact tie goes to the earlier dictionary entry
    let dict2 = vec![c(0, 0, 0), c(2, 0, 0)];
    let q2 = vector_quantize(&vec![c(1, 0, 0)], &dict2);
    assert_eq!(q2, vec![c(0, 0, 0)]);
}

#[test]
fn diagonal_scan_order() {
    let g = |n: u8| c(n, 0, 0);
    let grid = vec![
        vec![g(0), g(1), g(2)],
        vec![g(3), g(4), g(5)],
        vec![g(6), g(7), g(8)],
    ];
    let flat = flatten_diagonal(&grid);
    let blues: Vec<u8> = flat.iter().map(|p| p.blue).collect();
    assert_eq!(blues, vec![0, 3, 1, 2, 4, 6, 7, 5, 8]);
    let restored = restore_diagonal(&flat, 3, 3);
    assert_eq!(restored, grid);
}

#[test]
fn diagonal_restore_single_row() {
    let row = vec![c(1, 1, 1), c(2, 2, 2), c(3, 3, 3)];
    let grid = vec![row.clone()];
    let flat = flatten_diagonal(&grid);
    assert_eq!(flat, row);
    assert_eq!(restore_diagonal(&flat, 1, 3), grid);
}

#[test]
fn read_data_parses_pixels_bottom_up() {
    let mut bytes = vec![0u8; 18];
    bytes[12] = 2; // width
    bytes[14] = 2; // height
    // bottom row first in the file
    bytes.extend_from_slice(&[
        1, 1, 1, 2, 2, 2, // bottom row
        3, 3, 3, 4, 4, 4, // top row
    ]);
    let p = read_data(&bytes).expect("image should parse");
    assert_eq!(p, vec![
        vec![c(3, 3, 3), c(4, 4, 4)],
        vec![c(1, 1, 1), c(2, 2, 2)],
    ]);
    // truncated pixel data is rejected
    assert!(read_data(&bytes[..20].to_vec()).is_none());
}

#[test]
fn occurrence_counts() {
    let t = count_total_occurences_from_bytes(b"aab");
    assert_eq!(t.len(), 256);
    assert_eq!(t[b'a' as usize], 2);
    assert_eq!(t[b'b' as usize], 1);
    assert_eq!(t[0], 0);
}
