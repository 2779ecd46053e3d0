use minicourse::carve::carver::{dimensions_are_valid, narrow};
use minicourse::carve::grid::{CarveError, Image};
use minicourse::carve::trace::trace_seam;

fn image(pixels: &[u8], width: usize, height: usize) -> Image {
    Image::new(pixels.to_vec(), width, height).unwrap()
}

const BRIGHT_COLUMN: [u8; 9] = [0, 255, 0, 0, 255, 0, 0, 255, 0];
const BRIGHT_ROW: [u8; 9] = [0, 0, 0, 255, 255, 255, 0, 0, 0];
const MIXED: [u8; 16] = [10, 20, 30, 40, 50, 5, 70, 80, 90, 100, 3, 120, 200, 2, 150, 160];

#[test]
fn new_accepts_a_full_buffer() {
    let img = image(&[1, 2, 3, 4, 5, 6], 3, 2);
    assert_eq!(img.width(), 3);
    assert_eq!(img.height(), 2);
    assert_eq!(img.pixels(), &vec![1, 2, 3, 4, 5, 6]);
    assert_eq!(img.clone().into_pixels(), vec![1, 2, 3, 4, 5, 6]);
}

#[test]
fn new_rejects_bad_dimensions() {
    assert_eq!(Image::new(vec![], 0, 3).err(), Some(CarveError::InvalidDimensions));
    assert_eq!(Image::new(vec![], 3, 0).err(), Some(CarveError::InvalidDimensions));
    assert_eq!(Image::new(vec![1, 2, 3], 2, 2).err(), Some(CarveError::InvalidDimensions));
    assert_eq!(Image::new(vec![1, 2, 3, 4, 5], 2, 2).err(), Some(CarveError::InvalidDimensions));
    assert_eq!(
        Image::new(vec![0; 4], usize::MAX, 2).err(),
        Some(CarveError::InvalidDimensions)
    );
}

#[test]
fn dimensions_check_matches_the_buffer() {
    assert!(dimensions_are_valid(6, 3, 2));
    assert!(!dimensions_are_valid(6, 2, 2));
    assert!(!dimensions_are_valid(0, 0, 0));
    assert!(!dimensions_are_valid(0, usize::MAX, usize::MAX));
}

#[test]
fn get_reads_row_major() {
    let img = image(&[1, 2, 3, 4, 5, 6], 3, 2);
    assert_eq!(img.get(0, 0), 1);
    assert_eq!(img.get(2, 0), 3);
    assert_eq!(img.get(0, 1), 4);
    assert_eq!(img.get(2, 1), 6);
}

#[test]
fn set_changes_one_pixel() {
    let mut img = image(&[1, 2, 3, 4, 5, 6], 3, 2);
    img.set(1, 1, 9);
    assert_eq!(img.into_pixels(), vec![1, 2, 3, 4, 9, 6]);
}

#[test]
fn offset_stays_inside_the_grid() {
    let img = image(&[0; 6], 3, 2);
    assert_eq!(img.offset(1, 0, 1, 1), Some((2, 1)));
    assert_eq!(img.offset(1, 1, -1, -1), Some((0, 0)));
    assert_eq!(img.offset(0, 0, 0, 0), Some((0, 0)));
    assert_eq!(img.offset(0, 0, -1, 0), None);
    assert_eq!(img.offset(0, 0, 0, -1), None);
    assert_eq!(img.offset(2, 1, 1, 0), None);
    assert_eq!(img.offset(2, 1, 0, 1), None);
    assert_eq!(img.offset(2, 1, isize::MAX, isize::MIN), None);
    assert_eq!(img.offset(usize::MAX, usize::MAX, 1, 1), None);
    assert_eq!(img.offset(usize::MAX, 0, isize::MIN, 0), None);
}

#[test]
fn single_pixel_has_no_energy() {
    for v in [0u8, 1, 128, 255] {
        let img = image(&[v], 1, 1);
        assert_eq!(img.energy(0, 0), 0);
        assert_eq!(img.compute_initial_energy(), vec![0]);
    }
}

#[test]
fn energy_is_the_mean_contrast_with_existing_neighbours() {
    let img = image(&BRIGHT_COLUMN, 3, 3);
    assert_eq!(img.energy(0, 0), 170);
    assert_eq!(img.energy(1, 0), 204);
    assert_eq!(img.energy(0, 1), 153);
    assert_eq!(img.energy(1, 1), 191);
    assert_eq!(
        img.compute_initial_energy(),
        vec![170, 204, 170, 153, 191, 153, 170, 204, 170]
    );
    let two = image(&[10, 13], 2, 1);
    assert_eq!(two.compute_initial_energy(), vec![3, 3]);
    let rounded = image(&[0, 1, 0, 0], 2, 2);
    assert_eq!(rounded.compute_initial_energy(), vec![0, 1, 0, 0]);
}

#[test]
fn costs_accumulate_from_the_top() {
    let img = image(&BRIGHT_COLUMN, 3, 3);
    let mut energies = img.compute_initial_energy();
    img.propagate_energy(&mut energies);
    assert_eq!(energies, vec![170, 204, 170, 323, 361, 323, 493, 527, 493]);

    let img = image(&MIXED, 4, 4);
    let mut energies = img.compute_initial_energy();
    assert_eq!(
        energies,
        vec![18, 23, 27, 26, 41, 42, 42, 43, 66, 66, 83, 55, 136, 106, 77, 69]
    );
    img.propagate_energy(&mut energies);
    assert_eq!(
        energies,
        vec![18, 23, 27, 26, 59, 60, 65, 69, 125, 125, 143, 120, 261, 231, 197, 189]
    );
}

#[test]
fn top_row_costs_its_own_energy() {
    let img = image(&[0; 6], 3, 2);
    let mut costs = vec![5, 1, 7, 10, 10, 10];
    img.propagate_energy(&mut costs);
    assert_eq!(costs, vec![5, 1, 7, 11, 11, 11]);
}

#[test]
fn bright_column_is_never_carved() {
    let img = image(&BRIGHT_COLUMN, 3, 3);
    let mut energies = img.compute_initial_energy();
    img.propagate_energy(&mut energies);
    let seam = img.find_seam(&energies);
    assert_eq!(seam, vec![0, 0, 0]);
    assert!(seam.iter().all(|&x| x != 1));
    let out = img.carve().unwrap();
    assert_eq!(out.width(), 2);
    assert_eq!(out.height(), 3);
    assert_eq!(out.into_pixels(), vec![255, 0, 255, 0, 255, 0]);
}

#[test]
fn bright_row_loses_its_middle_column() {
    let img = image(&BRIGHT_ROW, 3, 3);
    let mut energies = img.compute_initial_energy();
    assert_eq!(energies, vec![170, 153, 170, 204, 191, 204, 170, 153, 170]);
    img.propagate_energy(&mut energies);
    assert_eq!(energies, vec![170, 153, 170, 357, 344, 357, 514, 497, 514]);
    assert_eq!(img.find_seam(&energies), vec![1, 1, 1]);
    assert_eq!(
        img.carve().unwrap().into_pixels(),
        vec![0, 0, 255, 255, 0, 0]
    );
}

#[test]
fn seam_is_listed_from_the_top_row_down() {
    let img = image(&MIXED, 4, 4);
    let mut energies = img.compute_initial_energy();
    img.propagate_energy(&mut energies);
    let seam = img.find_seam(&energies);
    assert_eq!(seam, vec![1, 2, 3, 3]);
    assert_eq!(
        img.remove_seam(&seam).unwrap().into_pixels(),
        vec![10, 30, 40, 50, 5, 80, 90, 100, 3, 200, 2, 150]
    );
}

#[test]
fn traced_seam_moves_at_most_one_column_per_row() {
    let pixels: Vec<u8> = (0..63u32).map(|i| ((i * 37 + i * i * 11) % 256) as u8).collect();
    let img = image(&pixels, 9, 7);
    let mut energies = img.compute_initial_energy();
    img.propagate_energy(&mut energies);
    let seam = img.find_seam(&energies);
    assert_eq!(seam.len(), 7);
    assert!(seam.iter().all(|&x| x < 9));
    for y in 0..6 {
        assert!(seam[y].abs_diff(seam[y + 1]) <= 1);
    }
}

#[test]
fn ties_go_to_the_leftmost_column() {
    let img = image(&[0; 9], 3, 3);
    let costs = vec![4, 4, 4, 4, 4, 4, 4, 4, 4];
    assert_eq!(img.find_seam(&costs), vec![0, 0, 0]);
    let costs = vec![9, 2, 2, 9, 9, 1, 9, 9, 1];
    assert_eq!(img.find_seam(&costs), vec![1, 2, 2]);
    let costs = vec![3, 3, 9, 9, 5, 5, 9, 9, 0];
    assert_eq!(img.find_seam(&costs), vec![0, 1, 2]);
}

#[test]
fn remove_seam_shifts_the_right_part_left() {
    let img = image(&[1, 2, 3, 4, 5, 6, 7, 8, 9], 3, 3);
    assert_eq!(
        img.remove_seam(&[0, 1, 2]).unwrap().into_pixels(),
        vec![2, 3, 4, 6, 7, 8]
    );
    assert_eq!(
        img.remove_seam(&[2, 2, 0]).unwrap().into_pixels(),
        vec![1, 2, 4, 5, 8, 9]
    );
    let pair = image(&[1, 2, 3, 4], 2, 2);
    let left = pair.remove_seam(&[1, 0]).unwrap();
    assert_eq!((left.width(), left.height()), (1, 2));
    assert_eq!(left.into_pixels(), vec![1, 4]);
}

#[test]
fn last_column_cannot_be_removed() {
    let column = image(&[5, 6, 7], 1, 3);
    assert_eq!(
        column.remove_seam(&[0, 0, 0]).err(),
        Some(CarveError::WidthExhausted)
    );
    assert_eq!(column.carve().err(), Some(CarveError::WidthExhausted));
    let mut scratch = Vec::new();
    assert_eq!(
        column.carve_reusing(&mut scratch).err(),
        Some(CarveError::WidthExhausted)
    );
    assert_eq!(column.into_pixels(), vec![5, 6, 7]);
    let pixel = image(&[9], 1, 1);
    assert_eq!(pixel.carve().err(), Some(CarveError::WidthExhausted));
}

#[test]
fn carve_takes_one_column_and_keeps_the_height() {
    let mut img = image(&MIXED, 4, 4);
    for left in [3usize, 2, 1] {
        assert!(img.is_valid());
        img = img.carve().unwrap();
        assert_eq!(img.width(), left);
        assert_eq!(img.height(), 4);
        assert_eq!(img.pixels().len(), left * 4);
    }
    assert!(img.is_valid());
    assert_eq!(img.carve().err(), Some(CarveError::WidthExhausted));
}

#[test]
fn carve_is_repeatable() {
    let a = image(&MIXED, 4, 4);
    let b = image(&MIXED, 4, 4);
    let once_a = a.carve().unwrap();
    let once_b = b.carve().unwrap();
    assert_eq!(once_a.pixels(), once_b.pixels());
    assert_eq!(
        once_a.carve().unwrap().into_pixels(),
        once_b.carve().unwrap().into_pixels()
    );
}

#[test]
fn wide_costs_are_the_costs_in_machine_words() {
    let images = [
        (&MIXED[..], 4, 4),
        (&BRIGHT_COLUMN[..], 3, 3),
        (&BRIGHT_ROW[..], 3, 3),
    ];
    for (pixels, w, h) in images {
        let img = image(pixels, w, h);
        let energies = img.compute_initial_energy();
        let wide = img.propagate_energy_wide(&energies);
        let mut words = energies.clone();
        img.propagate_energy(&mut words);
        let widened: Vec<u128> = words.iter().map(|&c| c as u128).collect();
        assert_eq!(wide, widened);
        assert_eq!(trace_seam(&wide, w, h), img.find_seam(&words));
    }
}

#[test]
fn wide_costs_of_a_known_image() {
    let img = image(&BRIGHT_COLUMN, 3, 3);
    let wide = img.propagate_energy_wide(&img.compute_initial_energy());
    assert_eq!(wide, vec![170, 204, 170, 323, 361, 323, 493, 527, 493]);
    assert_eq!(trace_seam(&wide, 3, 3), vec![0, 0, 0]);
}

#[test]
fn trace_seam_compares_beyond_machine_words() {
    let big = u128::MAX - 10;
    let costs: Vec<u128> = vec![big, big + 1, big + 2, big + 5, big + 3, big + 4];
    assert_eq!(trace_seam(&costs, 3, 2), vec![0, 1]);
    let costs: Vec<u128> = vec![big + 1, big, big + 2, big + 5, big + 5, big + 4];
    assert_eq!(trace_seam(&costs, 3, 2), vec![1, 2]);
}

#[test]
fn narrow_shrinks_the_width_and_keeps_the_height() {
    for k in 0..4 {
        let (out, w, h) = narrow(&MIXED, 4, 4, k).unwrap();
        assert_eq!(w, 4 - k);
        assert_eq!(h, 4);
        assert_eq!(out.len(), w * h);
    }
    let (out, w, h) = narrow(&MIXED, 4, 4, 2).unwrap();
    assert_eq!((w, h), (2, 4));
    assert_eq!(out, vec![30, 40, 5, 80, 90, 3, 200, 150]);
    let (out, w, h) = narrow(&BRIGHT_COLUMN, 3, 3, 2).unwrap();
    assert_eq!((w, h), (1, 3));
    assert_eq!(out, vec![0, 0, 0]);
}

#[test]
fn narrow_by_nothing_returns_the_input() {
    let (out, w, h) = narrow(&MIXED, 4, 4, 0).unwrap();
    assert_eq!(out, MIXED.to_vec());
    assert_eq!((w, h), (4, 4));
    let (out, w, h) = narrow(&[7], 1, 1, 0).unwrap();
    assert_eq!(out, vec![7]);
    assert_eq!((w, h), (1, 1));
}

#[test]
fn narrow_is_repeatable() {
    let pixels: Vec<u8> = (0..120u32).map(|i| ((i * 53 + 17) % 251) as u8).collect();
    let first = narrow(&pixels, 12, 10, 5);
    let second = narrow(&pixels, 12, 10, 5);
    assert!(first.is_ok());
    assert_eq!(first, second);
}

#[test]
fn flat_image_stays_flat() {
    let flat = [7u8; 12];
    let img = image(&flat, 4, 3);
    let mut energies = img.compute_initial_energy();
    assert_eq!(energies, vec![0; 12]);
    img.propagate_energy(&mut energies);
    assert_eq!(energies, vec![0; 12]);
    assert_eq!(img.find_seam(&energies), vec![0, 0, 0]);
    let (out, w, h) = narrow(&flat, 4, 3, 1).unwrap();
    assert_eq!((w, h), (3, 3));
    assert_eq!(out, vec![7; 9]);
}

#[test]
fn narrow_rejects_invalid_dimensions() {
    assert_eq!(narrow(&[], 0, 3, 0), Err(CarveError::InvalidDimensions));
    assert_eq!(narrow(&[], 3, 0, 0), Err(CarveError::InvalidDimensions));
    assert_eq!(narrow(&[1, 2, 3], 2, 2, 1), Err(CarveError::InvalidDimensions));
    assert_eq!(narrow(&[1, 2, 3, 4, 5], 2, 2, 1), Err(CarveError::InvalidDimensions));
    assert_eq!(narrow(&[1, 2, 3], 2, 2, 5), Err(CarveError::InvalidDimensions));
}

#[test]
fn narrow_rejects_too_many_seams() {
    assert_eq!(narrow(&[1, 2, 3, 4], 2, 2, 2), Err(CarveError::WidthExhausted));
    assert_eq!(narrow(&[1, 2, 3, 4], 2, 2, 3), Err(CarveError::WidthExhausted));
    assert_eq!(narrow(&[1], 1, 1, 1), Err(CarveError::WidthExhausted));
    assert!(narrow(&[1, 2, 3, 4], 2, 2, 1).is_ok());
}

#[test]
fn carve_after_carve_matches_narrow() {
    let img = image(&MIXED, 4, 4);
    let twice = img.carve().unwrap().carve().unwrap();
    let (out, w, h) = narrow(&MIXED, 4, 4, 2).unwrap();
    assert_eq!(twice.width(), w);
    assert_eq!(twice.height(), h);
    assert_eq!(twice.into_pixels(), out);
}

#[test]
fn scratch_buffer_is_overwritten() {
    let img = image(&MIXED, 4, 4);
    let mut scratch = vec![9999; 40];
    let out = img.carve_reusing(&mut scratch);
    assert_eq!(
        out.unwrap().into_pixels(),
        vec![10, 30, 40, 50, 5, 80, 90, 100, 3, 200, 2, 150]
    );
    let mut energies = vec![1, 2, 3];
    img.fill_energy(&mut energies);
    assert_eq!(
        energies,
        vec![18, 23, 27, 26, 41, 42, 42, 43, 66, 66, 83, 55, 136, 106, 77, 69]
    );
}
