use asciimusic::image::{get_affinity, round_to_affinity, Error, Image, Payload, Pixel, Superpixel};
use asciimusic::image::Superpixel::{Black, Ignore, Value, White};

/// Deterministic xorshift generator standing in for random input.
struct Noise(u64);

impl Noise {
    fn next_u8(&mut self) -> u8 {
        self.0 ^= self.0 << 13;
        self.0 ^= self.0 >> 7;
        self.0 ^= self.0 << 17;
        (self.0 >> 24) as u8
    }
}

fn noise_image(dimensions: (u32, u32), seed: u64) -> Image {
    let mut noise = Noise(seed);
    let pixels: Vec<Pixel> = (0..dimensions.0 as usize * dimensions.1 as usize)
        .map(|_| Pixel { r: noise.next_u8(), g: noise.next_u8(), b: noise.next_u8(), a: noise.next_u8() })
        .collect();
    Image::new(dimensions, pixels)
}

fn flat_image(dimensions: (u32, u32)) -> Image {
    let pixels = vec![Pixel { r: 128, g: 128, b: 128, a: 255 }; dimensions.0 as usize * dimensions.1 as usize];
    Image::new(dimensions, pixels)
}

#[test]
fn affinity_rounding() {
    assert_eq!(round_to_affinity(0, 0), 0);
    assert_eq!(round_to_affinity(1, 0), 24);
    assert_eq!(round_to_affinity(2, 0), 40);
    assert_eq!(round_to_affinity(3, 0), 56);

    assert_eq!(round_to_affinity(0, 64), 72);
    assert_eq!(round_to_affinity(1, 64), 88);
    assert_eq!(round_to_affinity(2, 64), 40);
    assert_eq!(round_to_affinity(3, 64), 56);

    assert_eq!(round_to_affinity(0, 128), 136);
    assert_eq!(round_to_affinity(1, 128), 152);
    assert_eq!(round_to_affinity(2, 128), 104);
    assert_eq!(round_to_affinity(3, 128), 120);

    assert_eq!(round_to_affinity(0, 192), 200);
    assert_eq!(round_to_affinity(1, 192), 216);
    assert_eq!(round_to_affinity(2, 192), 168);
    assert_eq!(round_to_affinity(3, 192), 184);

    assert_eq!(round_to_affinity(0, 255), 200);
    assert_eq!(round_to_affinity(1, 255), 216);
    assert_eq!(round_to_affinity(2, 255), 232);
    assert_eq!(round_to_affinity(3, 255), 255);
}

#[test]
fn payload_roundtrip() {
    let mut origin_image = noise_image((100, 100), 0x9e37_79b9_7f4a_7c15);
    let mut noise = Noise(12345);
    let data: Vec<u8> = (0..1000).map(|_| noise.next_u8()).collect();
    let payload = Payload::new(&data);

    origin_image.bake_payload(&payload);
    let read_data = origin_image
        .read_payload()
        .expect("Could not read payload")
        .data()
        .expect("Could not read data");
    assert_eq!(data, read_data);
}

#[test]
fn rows_and_columns() {
    let payload = Payload::from_cells(
        4,
        vec![
            Black, White, Black, Value(0),
            White, White, Black, Value(1),
            Black, Black, Black, Value(2),
            Value(6), Value(5), Value(4), Value(3),
        ],
    )
    .unwrap();

    let rows = payload.rows();
    assert_eq!(vec![Black, White, Black, Value(0)], rows[0]);
    assert_eq!(vec![White, White, Black, Value(1)], rows[1]);
    assert_eq!(vec![Black, Black, Black, Value(2)], rows[2]);
    assert_eq!(vec![Value(6), Value(5), Value(4), Value(3)], rows[3]);
    assert!(matches!(rows.get(4), None));

    let columns = payload.columns();
    assert_eq!(vec![Black, White, Black, Value(6)], columns[0]);
    assert_eq!(vec![White, White, Black, Value(5)], columns[1]);
    assert_eq!(vec![Black, Black, Black, Value(4)], columns[2]);
    assert_eq!(vec![Value(0), Value(1), Value(2), Value(3)], columns[3]);
    assert!(matches!(columns.get(4), None));
}

#[test]
fn unwrapped_payload() {
    let mut payload = Payload::from_cells(4, (0..16).map(Value).collect()).unwrap();

    let expected = vec![
        Value(0),
        Value(1), Value(5), Value(4),
        Value(2), Value(6), Value(10), Value(9), Value(8),
        Value(3), Value(7), Value(11), Value(15), Value(14), Value(13), Value(12),
    ];
    assert_eq!(expected, payload.unwrapped_payload());

    let handed_back: Vec<Superpixel> = (0..16).map(|k| payload.unwrapped_payload_mut(k, Ignore)).collect();
    assert_eq!(expected, handed_back);
    assert_eq!(vec![Ignore; 16], payload.unwrapped_payload());
}

#[test]
fn concrete_three_bytes_round_trip() {
    let data = vec![0xFF, 0x00, 0xAB];
    let payload = Payload::new(&data);
    // 9 target cells and 8 symbols for the 5 prefixed bytes fit a 5x5 grid.
    assert_eq!(payload.width(), 5);
    let spiral = payload.unwrapped_payload();
    // [0x00, 0x03, 0xFF] and [0x00, 0xAB, 0x00] as 6-bit symbols.
    let symbols: Vec<Superpixel> = [0, 0, 15, 63, 0, 10, 44, 0].iter().map(|v| Superpixel::Value(*v)).collect();
    assert_eq!(&spiral[9..17], &symbols[..]);
    assert_eq!(payload.data().unwrap(), data);

    let mut image = flat_image((50, 50));
    image.bake_payload(&payload);
    let read = image.read_payload().unwrap();
    assert_eq!(read.data().unwrap(), data);
}

#[test]
fn empty_payload_round_trip() {
    let payload = Payload::new(&[]);
    assert_eq!(payload.width(), 4);
    assert_eq!(payload.data().unwrap(), Vec::<u8>::new());
    let mut image = noise_image((40, 40), 7);
    image.bake_payload(&payload);
    assert_eq!(image.read_payload().unwrap().data().unwrap(), Vec::<u8>::new());
}

#[test]
fn uneven_image_round_trip() {
    let data: Vec<u8> = (0..200u32).map(|i| (i * 37 % 256) as u8).collect();
    let payload = Payload::new(&data);
    let mut image = noise_image((173, 175), 99);
    image.bake_payload(&payload);
    assert_eq!(image.read_payload().unwrap().data().unwrap(), data);
}

#[test]
fn target_pattern_is_always_present() {
    for data in [vec![], vec![1u8], vec![0xFF; 100], (0..=255u8).collect::<Vec<u8>>()] {
        let payload = Payload::new(&data);
        let rows = payload.rows();
        assert_eq!(&rows[0][..3], &[Black, White, Black]);
        assert_eq!(&rows[1][..3], &[White, White, Black]);
        assert_eq!(&rows[2][..3], &[Black, Black, Black]);
    }
}

#[test]
fn corrupted_target_is_detected() {
    let data = vec![1, 2, 3, 4, 5];
    let payload = Payload::new(&data);
    for row in 0..3 {
        for column in 0..3 {
            let mut image = flat_image((60, 60));
            let mut corrupted = payload.clone();
            let cell = payload.get_superpixel(column, row);
            let flipped = if cell == Superpixel::Black { Superpixel::White } else { Superpixel::Black };
            corrupted.get_superpixel_mut(column, row, flipped);
            image.bake_payload(&corrupted);
            let result = image.read_payload();
            assert_eq!(result.unwrap_err(), Error::NoTargetFound, "cell ({}, {})", column, row);
        }
    }
}

#[test]
fn corrupted_cell_in_target_interior_gives_no_target() {
    let payload = Payload::new(&[9, 9, 9]);
    let mut image = flat_image((50, 50));
    let mut corrupted = payload.clone();
    corrupted.get_superpixel_mut(1, 1, Superpixel::Value(5));
    image.bake_payload(&corrupted);
    assert_eq!(image.read_payload().unwrap_err(), Error::NoTargetFound);
}

#[test]
fn blank_image_has_no_target() {
    let image = flat_image((20, 20));
    assert_eq!(image.superpixel_width(), Err(Error::NoTargetFound));
    assert_eq!(image.superpixel_height(), Err(Error::NoTargetFound));
    assert_eq!(image.read_payload().unwrap_err(), Error::NoTargetFound);
}

#[test]
fn superpixel_size_from_target() {
    let payload = Payload::new(&[1, 2, 3]);
    let mut image = flat_image((50, 35));
    image.bake_payload(&payload);
    assert_eq!(image.superpixel_width(), Ok(10));
    assert_eq!(image.superpixel_height(), Ok(7));
}

#[test]
fn non_square_grid_is_refused() {
    let payload = Payload::new(&[1, 2, 3]);
    // 5 superpixels across, but the rest of the height holds 7 rows of them.
    let mut image = flat_image((50, 50));
    image.bake_payload(&payload);
    let mut pixels = image.pixels().to_vec();
    pixels.extend(vec![Pixel { r: 128, g: 128, b: 128, a: 255 }; 50 * 20]);
    let taller = Image::new((50, 70), pixels);
    assert_eq!(taller.read_payload().unwrap_err(), Error::SuperpixelGridNotSquare);
}

#[test]
fn wrong_cell_count_is_refused() {
    assert_eq!(Payload::from_cells(3, vec![Superpixel::Ignore; 8]).unwrap_err(), Error::InvalidDimensions);
}

#[test]
fn too_small_grid_has_no_data() {
    let grid = vec![Black, White, Black, White, White, Black, Black, Black, Black];
    let payload = Payload::from_cells(3, grid).unwrap();
    assert_eq!(payload.data().unwrap_err(), Error::InvalidDimensions);
}

#[test]
fn declared_length_past_the_data_is_refused() {
    let mut payload = Payload::new(&[1, 2, 3]);
    // The first symbol after the target holds the top six bits of the length.
    payload.unwrapped_payload_mut(9, Superpixel::Value(63));
    assert_eq!(
        payload.data().unwrap_err(),
        Error::InvalidLength { encoded: 0xFC03, available: 10 }
    );
}

#[test]
fn pixel_value_reads_back_baked_value() {
    let mut noise = Noise(4242);
    for value in 0..64u8 {
        for _ in 0..20 {
            let pixel = Pixel { r: noise.next_u8(), g: noise.next_u8(), b: noise.next_u8(), a: noise.next_u8() };
            let read = pixel.with_value(value).value();
            let number = match read {
                Superpixel::Black => 0,
                Superpixel::White => 63,
                Superpixel::Value(v) => v,
                Superpixel::Ignore => panic!("pixels never read as Ignore"),
            };
            assert_eq!(number, value);
        }
    }
}

#[test]
fn with_value_keeps_alpha_above_floor() {
    let pixel = Pixel { r: 10, g: 200, b: 90, a: 3 };
    let baked = pixel.with_value(0b10_01_11);
    assert_eq!(baked, Pixel { r: 40, g: 216, b: 120, a: 25 });
    assert_eq!(Pixel { r: 1, g: 2, b: 3, a: 200 }.with_value(0).a, 200);
}

#[test]
fn pixel_classification() {
    assert_eq!(Pixel { r: 0, g: 15, b: 3, a: 0 }.value(), Superpixel::Black);
    assert_eq!(Pixel { r: 240, g: 255, b: 250, a: 0 }.value(), Superpixel::White);
    assert_eq!(Pixel { r: 16, g: 15, b: 3, a: 0 }.value(), Superpixel::Value(0b01_00_00));
    assert_eq!(Pixel { r: 239, g: 255, b: 255, a: 0 }.value(), Superpixel::Value(0b10_11_11));
    assert_eq!(get_affinity(0), 0);
    assert_eq!(get_affinity(95), 1);
    assert_eq!(get_affinity(175), 2);
    assert_eq!(get_affinity(255), 3);
}

#[test]
fn majority_vote_tolerates_noise() {
    let data = vec![42u8; 30];
    let payload = Payload::new(&data);
    let mut image = noise_image((120, 120), 5);
    image.bake_payload(&payload);
    let side = payload.width() as usize;
    let block = 120 / side;
    // Spoil one pixel in every superpixel block past the target.
    let mut pixels = image.pixels().to_vec();
    for y in 0..side {
        for x in 0..side {
            if x >= 3 || y >= 3 {
                let i = (y * block + 1) * 120 + x * block + 1;
                pixels[i] = Pixel { r: 100, g: 100, b: 100, a: 255 };
            }
        }
    }
    let spoiled = Image::new((120, 120), pixels);
    assert_eq!(spoiled.read_payload().unwrap().data().unwrap(), data);
}

#[test]
fn grid_accessors_clamp_to_last() {
    let mut payload = Payload::from_cells(3, (0..9).map(Value).collect()).unwrap();
    assert_eq!(payload.get_superpixel(7, 1), Value(5));
    assert_eq!(payload.get_superpixel(0, 9), Value(6));
    assert_eq!(payload.get_superpixel_mut(9, 9, Black), Value(8));
    assert_eq!(payload.get_superpixel(2, 2), Black);
    payload.rows_mut(0, &vec![White, White, White]);
    payload.column_mut(5, &vec![Ignore, Ignore, Ignore]);
    assert_eq!(payload.rows(), vec![vec![White, White, Ignore], vec![Value(3), Value(4), Ignore], vec![Value(6), Value(7), Ignore]]);
}

#[test]
fn baking_follows_the_grid() {
    let payload = Payload::from_cells(2, vec![Black, White, Ignore, Value(63)]).unwrap();
    let mut image = flat_image((5, 4));
    image.bake_payload(&payload);
    let pixels = image.pixels();
    let black = Pixel { r: 0, g: 0, b: 0, a: 255 };
    let white = Pixel { r: 255, g: 255, b: 255, a: 255 };
    let gray = Pixel { r: 128, g: 128, b: 128, a: 255 };
    // Superpixels are 2x2; the last column of pixels belongs to the right-hand superpixels.
    assert_eq!(&pixels[0..5], &[black, black, white, white, white]);
    assert_eq!(&pixels[10..15], &[gray, gray, pixels[12], pixels[12], pixels[12]]);
    assert_eq!(pixels[12], Pixel { r: 120, g: 120, b: 120, a: 255 });
    assert_eq!(image.dimensions(), (5, 4));
}

#[test]
fn superpixel_size_is_offset_from_first_light_pixel() {
    let white = Pixel { r: 255, g: 255, b: 255, a: 255 };
    let gray = Pixel { r: 128, g: 128, b: 128, a: 255 };
    let black = Pixel { r: 0, g: 0, b: 0, a: 255 };
    let image = Image::new((5, 1), vec![gray, white, gray, gray, black]);
    assert_eq!(image.superpixel_width(), Ok(3));
    let column = Image::new((1, 5), vec![white, gray, gray, black, gray]);
    assert_eq!(column.superpixel_height(), Ok(3));
    let no_dark = Image::new((3, 1), vec![black, white, gray]);
    assert_eq!(no_dark.superpixel_width(), Err(Error::NoTargetFound));
}

#[test]
fn grid_without_target_has_no_data() {
    let grid = Payload::from_cells(4, vec![Value(0); 16]).unwrap();
    assert_eq!(grid.data().unwrap_err(), Error::NoTargetFound);
}

#[test]
fn flipping_a_target_cell_loses_the_data() {
    let payload = Payload::new(&[7, 8, 9]);
    for row in 0..3 {
        for column in 0..3 {
            let mut flipped = payload.clone();
            let cell = payload.get_superpixel(column, row);
            let other = if cell == Black { White } else { Black };
            flipped.get_superpixel_mut(column, row, other);
            assert_eq!(flipped.data().unwrap_err(), Error::NoTargetFound);
        }
    }
    assert_eq!(payload.data().unwrap(), vec![7, 8, 9]);
}

#[test]
fn payloads_and_images_compare_by_contents() {
    let a = Payload::new(&[1, 2]);
    let mut b = Payload::new(&[1, 2]);
    assert_eq!(a, b);
    b.get_superpixel_mut(3, 3, Black);
    assert_ne!(a, b);
    let small = flat_image((2, 2));
    assert_eq!(small, flat_image((2, 2)));
    assert!(flat_image((1, 4)) < flat_image((2, 2)));
    assert!(Pixel { r: 1, g: 0, b: 0, a: 0 } > Pixel { r: 0, g: 255, b: 255, a: 255 });
}
