use atlasbuilder::inputimage::InputImage;
use atlasbuilder::outputdebug::{draw_rect, draw_rect_colored, write_pixel};
use atlasbuilder::outputimage::OutputImage;
use atlasbuilder::parse_input_filenames::{is_image_ext_folded, is_image_file};
use atlasbuilder::shapes::Rect;

#[test]
fn add_image() {
    let input_vec = vec![
        0, 0, 0, 0, 0, 0, 0, 0, 0, 0, 0, 0, 0, 0, 0, 0, 0, 0, 0, 0, 1, 1, 1, 1, 1, 1, 1, 1, 1, 1,
        1, 1, 1, 1, 1, 1, 1, 1, 1, 1, 0, 0, 0, 0, 0, 0, 0, 0, 0, 0, 0, 0, 0, 0, 0, 0, 0, 0, 0, 0,
        0, 0, 0, 0, 0, 0, 0, 0, 0, 0, 0, 0, 0, 0, 0, 0, 0, 0, 0, 0, 0, 0, 0, 0, 0, 0, 0, 0, 0, 0,
        0, 0, 0, 0, 0, 0, 0, 0, 0, 0,
    ];
    let mut output_image = OutputImage::new(5, 5);
    let input_image = InputImage {
        name: "test.png".to_string(),
        w: 5,
        h: 5,
        vw: 5,
        vh: 5,
        vx: 0,
        vy: 0,
        data: input_vec.clone(),
    };
    output_image.add_input(&input_image, 0, 0, false);
    for x in 0..(5 * 5 * 4) {
        let pixel = x / 4;
        assert_eq!(
            output_image.data[x],
            input_vec[x],
            "Test {}x{}",
            pixel / 5,
            pixel % 5
        );
    }
}

#[test]
fn add_rotated_image() {
    let input_vec = vec![
        0, 0, 0, 0, 0, 0, 0, 0, 0, 0, 0, 0, 0, 0, 0, 0, 0, 0, 0, 0, 1, 1, 1, 1, 1, 1, 1, 1, 1, 1,
        1, 1, 1, 1, 1, 1, 1, 1, 1, 1, 0, 0, 0, 0, 0, 0, 0, 0, 0, 0, 0, 0, 0, 0, 0, 0, 0, 0, 0, 0,
        0, 0, 0, 0, 0, 0, 0, 0, 0, 0, 0, 0, 0, 0, 0, 0, 0, 0, 0, 0, 0, 0, 0, 0, 0, 0, 0, 0, 0, 0,
        0, 0, 0, 0, 0, 0, 0, 0, 0, 0,
    ];

    let rotated_vec = vec![
        0, 0, 0, 0, 1, 1, 1, 1, 0, 0, 0, 0, 0, 0, 0, 0, 0, 0, 0, 0, 0, 0, 0, 0, 1, 1, 1, 1, 0, 0,
        0, 0, 0, 0, 0, 0, 0, 0, 0, 0, 0, 0, 0, 0, 1, 1, 1, 1, 0, 0, 0, 0, 0, 0, 0, 0, 0, 0, 0, 0,
        0, 0, 0, 0, 1, 1, 1, 1, 0, 0, 0, 0, 0, 0, 0, 0, 0, 0, 0, 0, 0, 0, 0, 0, 1, 1, 1, 1, 0, 0,
        0, 0, 0, 0, 0, 0, 0, 0, 0, 0,
    ];
    let mut output_image = OutputImage::new(5, 5);
    let input_image = InputImage {
        name: "test.png".to_string(),
        w: 5,
        h: 5,
        vw: 5,
        vh: 5,
        vx: 0,
        vy: 0,
        data: input_vec,
    };
    output_image.add_input(&input_image, 0, 0, true);
    for x in 0..rotated_vec.len() {
        let pixel = x / 4;
        assert_eq!(
            output_image.data[x],
            rotated_vec[x],
            "Test {}x{}",
            pixel / 5,
            pixel % 5
        );
    }
}

fn image_from_alpha(w: i32, h: i32, opaque: &[(i32, i32)]) -> InputImage {
    let mut data = vec![0u8; (w * h * 4) as usize];
    for &(x, y) in opaque {
        data[((y * w + x) * 4 + 3) as usize] = 255;
    }
    InputImage {
        name: String::from("test.png"),
        data,
        w,
        h,
        vx: 0,
        vy: 0,
        vw: w,
        vh: h,
    }
}

#[test]
fn trim_finds_opaque_bounds() {
    // opaque pixels at (2,1) and (5,4) in an 8x6 image
    let mut img = image_from_alpha(8, 6, &[(2, 1), (5, 4)]);
    img.trim();
    assert_eq!(img.vx, 2);
    assert_eq!(img.vy, 1);
    assert_eq!(img.vw, 3);
    assert_eq!(img.vh, 3);
}

#[test]
fn trim_fully_transparent_is_zero() {
    let mut img = image_from_alpha(4, 4, &[]);
    img.trim();
    assert_eq!(img.vx, 0);
    assert_eq!(img.vy, 0);
    assert_eq!(img.vw, 0);
    assert_eq!(img.vh, 0);
}

#[test]
fn trim_single_column() {
    // one opaque column at x == 3, rows 0..5
    let mut img = image_from_alpha(8, 5, &[(3, 0), (3, 1), (3, 2), (3, 3), (3, 4)]);
    img.trim();
    assert_eq!(img.vx, 3);
    assert_eq!(img.vy, 0);
    assert_eq!(img.vw, 0);
    assert_eq!(img.vh, 4);
}

#[test]
fn write_pixel_sets_rgba() {
    let mut data = vec![0u8; 4 * 4 * 4];
    write_pixel(&mut data, 1, 2, 4, 10, 20, 30);
    let pos = ((1 + 2 * 4) * 4) as usize;
    assert_eq!(&data[pos..pos + 4], &[10, 20, 30, 255]);
    // neighbours untouched
    assert_eq!(data[pos - 1], 0);
    assert_eq!(data[pos + 4], 0);
}

#[test]
fn draw_rect_colored_paints_border_only() {
    let pitch = 10;
    let mut data = vec![0u8; (pitch * 10 * 4) as usize];
    let rect = Rect { x: 2, y: 2, w: 6, h: 6 };
    draw_rect_colored(&mut data, pitch, &rect, 9, 8, 7);
    let pixel = |x: i32, y: i32| -> [u8; 4] {
        let p = ((x + y * pitch) * 4) as usize;
        [data[p], data[p + 1], data[p + 2], data[p + 3]]
    };
    // corners and edges carry the colour, two pixels thick
    assert_eq!(pixel(2, 2), [9, 8, 7, 255]);
    assert_eq!(pixel(7, 7), [9, 8, 7, 255]);
    assert_eq!(pixel(4, 3), [9, 8, 7, 255]);
    assert_eq!(pixel(3, 4), [9, 8, 7, 255]);
    // the interior stays untouched
    assert_eq!(pixel(4, 4), [0, 0, 0, 0]);
    assert_eq!(pixel(5, 5), [0, 0, 0, 0]);
    // outside stays untouched
    assert_eq!(pixel(0, 0), [0, 0, 0, 0]);
    assert_eq!(pixel(9, 9), [0, 0, 0, 0]);
}

#[test]
fn draw_rect_random_color_is_opaque_on_border() {
    let pitch = 8;
    let mut data = vec![0u8; (pitch * 8 * 4) as usize];
    let rect = Rect { x: 1, y: 1, w: 5, h: 5 };
    draw_rect(&mut data, pitch, &rect);
    let alpha = |x: i32, y: i32| data[((x + y * pitch) * 4 + 3) as usize];
    assert_eq!(alpha(1, 1), 255);
    assert_eq!(alpha(5, 5), 255);
    assert_eq!(alpha(3, 3), 0);
    assert_eq!(alpha(0, 0), 0);
}

#[test]
fn image_extensions_fold_case() {
    assert!(is_image_file("png"));
    assert!(is_image_file("PNG"));
    assert!(is_image_file("jpg"));
    assert!(is_image_file("JPEG"));
    assert!(is_image_file("JpG"));
    assert!(!is_image_file("gif"));
    assert!(!is_image_file("txt"));
    assert!(!is_image_file(""));
    assert!(!is_image_file("pngx"));
}

#[test]
fn folded_extension_check_is_exact() {
    assert!(is_image_ext_folded("png"));
    assert!(is_image_ext_folded("jpg"));
    assert!(is_image_ext_folded("jpeg"));
    // the folded check itself is case-sensitive
    assert!(!is_image_ext_folded("PNG"));
    assert!(!is_image_ext_folded("bmp"));
}
