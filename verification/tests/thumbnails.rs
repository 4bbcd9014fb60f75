use cce_notifier::preamble::{read_preamble, Preamble};
use cce_notifier::scaling::{thumbnail_size, THUMB_MAX_H, THUMB_MAX_W};
use cce_notifier::thumbnail::{load_thumbnail, thumbnail, ColorType, Frame};

/// A PNG file with one image.
fn png_file(
    width: u32,
    height: u32,
    color: png::ColorType,
    depth: png::BitDepth,
    palette: Option<Vec<u8>>,
    data: &[u8],
) -> Vec<u8> {
    let mut file: Vec<u8> = Vec::new();
    {
        let mut encoder = png::Encoder::new(&mut file, width, height);
        encoder.set_color(color);
        encoder.set_depth(depth);
        if let Some(p) = palette {
            encoder.set_palette(p);
        }
        let mut writer = encoder.write_header().unwrap();
        writer.write_image_data(data).unwrap();
    }
    file
}

/// A chunk of a PNG file, with its checksum.
fn chunk(kind: &[u8; 4], data: &[u8]) -> Vec<u8> {
    let mut sum = u32::MAX;
    for byte in kind.iter().chain(data) {
        sum ^= *byte as u32;
        for _ in 0..8 {
            sum = (sum >> 1) ^ if sum & 1 == 1 { 0xedb8_8320 } else { 0 };
        }
    }
    let mut chunk = (data.len() as u32).to_be_bytes().to_vec();
    chunk.extend(kind);
    chunk.extend(data);
    chunk.extend((!sum).to_be_bytes());
    chunk
}

/// The data of a header, with samples of eight bits.
fn header(width: u32, height: u32, color: u8, interlaced: bool) -> Vec<u8> {
    let mut data = width.to_be_bytes().to_vec();
    data.extend(height.to_be_bytes());
    data.extend([8, color, 0, 0, interlaced as u8]);
    data
}

/// The data of a frame's control chunk.
fn frame_control(width: u32, height: u32) -> Vec<u8> {
    let mut data = 0u32.to_be_bytes().to_vec();
    data.extend(width.to_be_bytes());
    data.extend(height.to_be_bytes());
    data.extend([0; 14]);
    data
}

/// A PNG file of these chunks, followed by image data that is not compressed.
fn by_hand(chunks: &[Vec<u8>], rows: &[u8]) -> Vec<u8> {
    let mut file = vec![137, 80, 78, 71, 13, 10, 26, 10];
    file.extend(chunks.concat());
    let (mut a, mut b) = (1u32, 0u32);
    for byte in rows {
        a = (a + *byte as u32) % 65_521;
        b = (b + a) % 65_521;
    }
    let len = rows.len() as u16;
    let mut data = vec![0x78, 0x01, 1];
    data.extend(len.to_le_bytes());
    data.extend((!len).to_le_bytes());
    data.extend(rows);
    data.extend((b << 16 | a).to_be_bytes());
    file.extend(chunk(b"IDAT", &data));
    file.extend(chunk(b"IEND", &[]));
    file
}

/// The size by the machine's own single-precision arithmetic.
fn size_by_floats(w: u32, h: u32) -> (u32, u32) {
    let (w, h) = (w as usize, h as usize);
    let scale = (100.0f32 / w as f32).min(76.0f32 / h as f32).min(1.0);
    (
        ((w as f32 * scale) as usize).max(1) as u32,
        ((h as f32 * scale) as usize).max(1) as u32,
    )
}

fn sides() -> Vec<u32> {
    let mut sides: Vec<u32> = (1..=400).collect();
    sides.extend([
        1023, 1024, 1080, 1440, 1920, 2160, 2560, 3840, 4096, 7680, 65_535, 65_537, 1_000_003,
        16_777_215, 16_777_217, 16_777_219, 2_147_483_647, 4_294_967_295,
    ]);
    sides
}

#[test]
fn sizes_match_the_machine() {
    for w in sides() {
        for h in sides() {
            assert_eq!(thumbnail_size(w, h), size_by_floats(w, h), "{w} x {h}");
        }
    }
}

#[test]
fn thumbnails_fit_and_are_never_larger() {
    for w in sides() {
        for h in sides() {
            let (tw, th) = thumbnail_size(w, h);
            assert!(1 <= tw && tw <= THUMB_MAX_W && tw <= w, "{w} x {h}");
            assert!(1 <= th && th <= THUMB_MAX_H && th <= h, "{w} x {h}");
        }
    }
}

#[test]
fn images_in_the_box_keep_their_size() {
    for w in 1..=100 {
        for h in 1..=76 {
            assert_eq!(thumbnail_size(w, h), (w, h));
        }
    }
}

#[test]
fn aspect_is_kept() {
    for w in sides() {
        for h in sides() {
            let (tw, th) = thumbnail_size(w, h);
            let (tw, th, w, h) = (tw as u128, th as u128, w as u128, h as u128);
            if tw > 1 {
                assert!(0x20_0000 * (tw * h) <= 0x20_0001 * ((th + 1) * w), "{w} x {h}");
            }
            if th > 1 {
                assert!(0x20_0000 * (th * w) <= 0x20_0001 * ((tw + 1) * h), "{w} x {h}");
            }
        }
    }
}

#[test]
fn screenshot_sizes() {
    assert_eq!(thumbnail_size(1920, 1080), (100, 56));
    assert_eq!(thumbnail_size(1080, 1920), (42, 76));
    assert_eq!(thumbnail_size(101, 1), (100, 1));
    assert_eq!(thumbnail_size(5000, 1), (100, 1));
}

#[test]
fn rgba_image_is_shown_as_it_is() {
    let data = [1u8, 2, 3, 4, 5, 6, 7, 8, 9, 10, 11, 12, 13, 14, 15, 16];
    let file = png_file(2, 2, png::ColorType::Rgba, png::BitDepth::Eight, None, &data);
    assert_eq!(load_thumbnail(&file), Some((data.to_vec(), 2, 2)));
}

#[test]
fn rgb_image_becomes_opaque() {
    let data = [1u8, 2, 3, 4, 5, 6];
    let file = png_file(2, 1, png::ColorType::Rgb, png::BitDepth::Eight, None, &data);
    assert_eq!(load_thumbnail(&file), Some((vec![1, 2, 3, 255, 4, 5, 6, 255], 2, 1)));
}

#[test]
fn gray_image_has_three_equal_colors() {
    let file = png_file(1, 2, png::ColorType::Grayscale, png::BitDepth::Eight, None, &[7, 200]);
    assert_eq!(
        load_thumbnail(&file),
        Some((vec![7, 7, 7, 255, 200, 200, 200, 255], 1, 2))
    );
}

#[test]
fn gray_image_with_alpha_keeps_it() {
    let data = [7u8, 9, 200, 0];
    let file =
        png_file(2, 1, png::ColorType::GrayscaleAlpha, png::BitDepth::Eight, None, &data);
    assert_eq!(load_thumbnail(&file), Some((vec![7, 7, 7, 9, 200, 200, 200, 0], 2, 1)));
}

#[test]
fn palettes_are_expanded() {
    let palette = vec![10u8, 20, 30, 40, 50, 60];
    let file =
        png_file(2, 1, png::ColorType::Indexed, png::BitDepth::Eight, Some(palette), &[1, 0]);
    assert_eq!(load_thumbnail(&file), Some((vec![40, 50, 60, 255, 10, 20, 30, 255], 2, 1)));
}

#[test]
fn samples_are_brought_to_eight_bits() {
    // Sixteen bits lose their lower half; one bit is spread out.
    let file =
        png_file(1, 1, png::ColorType::Rgb, png::BitDepth::Sixteen, None, &[1, 99, 2, 99, 3, 99]);
    assert_eq!(load_thumbnail(&file), Some((vec![1, 2, 3, 255], 1, 1)));
    let file =
        png_file(2, 1, png::ColorType::Grayscale, png::BitDepth::One, None, &[0b0100_0000]);
    assert_eq!(load_thumbnail(&file), Some((vec![0, 0, 0, 255, 255, 255, 255, 255], 2, 1)));
}

#[test]
fn larger_image_is_sampled() {
    // Every pixel tells its place.
    let (w, h) = (250u32, 190u32);
    let mut data: Vec<u8> = Vec::new();
    for y in 0..h {
        for x in 0..w {
            data.extend([x as u8, y as u8, (x / 2) as u8, 77]);
        }
    }
    let file = png_file(w, h, png::ColorType::Rgba, png::BitDepth::Eight, None, &data);
    let (pixels, tw, th) = load_thumbnail(&file).unwrap();
    assert_eq!((tw, th), (100, 76));
    assert_eq!(pixels.len(), 100 * 76 * 4);
    for ty in 0..th {
        for tx in 0..tw {
            let (x, y) = (tx * w / tw, ty * h / th);
            let i = ((ty * tw + tx) * 4) as usize;
            assert_eq!(&pixels[i..i + 4], &[x as u8, y as u8, (x / 2) as u8, 77]);
        }
    }
}

#[test]
fn what_is_not_a_png_has_no_thumbnail() {
    assert_eq!(load_thumbnail(&[]), None);
    assert_eq!(load_thumbnail(b"plain text that is longer than a header"), None);
    let whole = png_file(2, 2, png::ColorType::Grayscale, png::BitDepth::Eight, None, &[1, 2, 3, 4]);
    assert!(load_thumbnail(&whole).is_some());
    assert_eq!(load_thumbnail(&whole[..whole.len() / 2]), None);
    let mut damaged = whole.clone();
    damaged[0] = b'X';
    assert_eq!(load_thumbnail(&damaged), None);
}

#[test]
fn image_beyond_memory_has_no_thumbnail() {
    let mut file =
        png_file(2, 2, png::ColorType::Rgba, png::BitDepth::Eight, None, &[0; 16]);
    for i in 16..24 {
        file[i] = 0xff;
    }
    assert_eq!(load_thumbnail(&file), None);
}

#[test]
fn palette_of_an_indexed_image_is_whole() {
    let file = |palette: usize| {
        let chunks = [chunk(b"IHDR", &header(1, 1, 3, false)), chunk(b"PLTE", &vec![9; palette])];
        by_hand(&chunks, &[0, 0])
    };
    for palette in [3, 6, 765, 768] {
        assert_eq!(load_thumbnail(&file(palette)), Some((vec![9, 9, 9, 255], 1, 1)), "{palette}");
    }
    for palette in [0, 1, 2, 4, 5, 7, 767, 769, 770, 771, 3000] {
        assert_eq!(load_thumbnail(&file(palette)), None, "{palette}");
    }
}

#[test]
fn palette_of_another_image_is_of_no_account() {
    for palette in [1, 4, 771] {
        let chunks = [chunk(b"IHDR", &header(1, 1, 2, false)), chunk(b"PLTE", &vec![9; palette])];
        let file = by_hand(&chunks, &[0, 1, 2, 3]);
        assert_eq!(load_thumbnail(&file), Some((vec![1, 2, 3, 255], 1, 1)), "{palette}");
    }
}

#[test]
fn empty_header_is_passed_over() {
    let empty = || chunk(b"IHDR", &[]);
    let file = by_hand(&[empty(), empty(), chunk(b"IHDR", &header(1, 1, 0, false))], &[0, 7]);
    assert_eq!(load_thumbnail(&file), Some((vec![7, 7, 7, 255], 1, 1)));
    // The size of the header that counts is beyond memory.
    let chunks = [
        empty(),
        chunk(b"IHDR", &header(0x7fff_ffff, u32::MAX, 6, false)),
        chunk(b"acTL", &[0, 0, 0, 1, 0, 0, 0, 0]),
        chunk(b"fcTL", &frame_control(1, 1)),
    ];
    assert_eq!(load_thumbnail(&by_hand(&chunks, &[0, 1, 2, 3, 4])), None);
    // So is that of a header which an empty one follows, in a file that is cut
    // off within its image data.
    let chunks = [chunk(b"IHDR", &header(0x7fff_ffff, u32::MAX, 6, false)), empty()];
    let file = by_hand(&chunks, &[0]);
    assert_eq!(load_thumbnail(&file[..file.len() - 24]), None);
}

#[test]
fn first_frame_of_an_animation_is_shown() {
    let chunks = |frames: u32, frame: Option<(u32, u32)>| {
        let mut chunks = vec![chunk(b"IHDR", &header(2, 1, 0, false))];
        let mut control = frames.to_be_bytes().to_vec();
        control.extend([0; 4]);
        chunks.push(chunk(b"acTL", &control));
        if let Some((w, h)) = frame {
            chunks.push(chunk(b"fcTL", &frame_control(w, h)));
        }
        chunks
    };
    let one = by_hand(&chunks(u32::MAX, Some((1, 1))), &[0, 7]);
    assert_eq!(load_thumbnail(&one), Some((vec![7, 7, 7, 255], 1, 1)));
    let both = by_hand(&chunks(3, None), &[0, 7, 8]);
    assert_eq!(load_thumbnail(&both), Some((vec![7, 7, 7, 255, 8, 8, 8, 255], 2, 1)));
    // The image is one more frame than the animation has.
    let most = by_hand(&chunks(u32::MAX, None), &[0, 7, 8]);
    assert_eq!(load_thumbnail(&most).is_some(), usize::MAX as u128 > u32::MAX as u128);
}

#[test]
fn transparent_level_is_seen_through() {
    let chunks = [chunk(b"IHDR", &header(2, 1, 0, false)), chunk(b"tRNS", &[0, 8])];
    let file = by_hand(&chunks, &[0, 7, 8]);
    assert_eq!(load_thumbnail(&file), Some((vec![7, 7, 7, 255, 8, 8, 8, 0], 2, 1)));
}

#[test]
fn interlaced_image_is_put_together() {
    let file = by_hand(&[chunk(b"IHDR", &header(2, 2, 0, true))], &[0, 1, 0, 2, 0, 3, 4]);
    let pixels = [1u8, 2, 3, 4].iter().flat_map(|&g| [g, g, g, 255]).collect();
    assert_eq!(load_thumbnail(&file), Some((pixels, 2, 2)));
}

#[test]
fn preamble_is_read_up_to_the_image_data() {
    let chunks = [
        chunk(b"IHDR", &header(70_000, 3, 3, true)),
        chunk(b"gAMA", &[0, 0, 0, 1]),
        chunk(b"PLTE", &[1; 9]),
        chunk(b"tRNS", &[]),
        chunk(b"acTL", &[0, 0, 1, 2, 0, 0, 0, 0]),
        chunk(b"fcTL", &frame_control(5, 2)),
    ];
    let mut file = by_hand(&chunks, &[0]);
    let expected = Preamble {
        width: 70_000,
        height: 3,
        color: 3,
        interlaced: true,
        palette: 9,
        transparent: false,
        frames: 0x102,
        frame: Some((5, 2)),
    };
    assert_eq!(read_preamble(&file), Some(expected));
    // What comes later does not count.
    file.extend(chunk(b"tRNS", &[1]));
    assert_eq!(read_preamble(&file), Some(expected));
    assert_eq!(read_preamble(&[]), None);
    assert_eq!(read_preamble(&file[..60]), None);
}

#[test]
fn limits_of_decoding() {
    let gray = Preamble {
        width: u32::MAX,
        height: 0x8000_0000,
        color: 0,
        interlaced: false,
        palette: 0,
        transparent: false,
        frames: 0,
        frame: None,
    };
    let pixels = gray.width as u128 * gray.height as u128;
    for (color, transparent, bytes) in [
        (0, false, 1),
        (0, true, 2),
        (2, false, 3),
        (2, true, 4),
        (3, false, 3),
        (3, true, 4),
        (4, false, 2),
        (6, false, 4),
    ] {
        let whole = Preamble { color, transparent, ..gray };
        assert_eq!(whole.can_be_decoded(), bytes * pixels <= isize::MAX as u128);
        // A quarter of it fits in any case where addresses have 64 bits.
        let part = Preamble { height: gray.height / 4, ..whole };
        assert_eq!(part.can_be_decoded(), bytes * (pixels / 4) <= isize::MAX as u128);
    }
    // Interlaced, the place of the last pixel is counted in bits.
    let tall = Preamble { height: 0x2000_0000, interlaced: true, ..gray };
    assert_eq!(
        tall.can_be_decoded(),
        8 * (tall.width as u128 * tall.height as u128 - 1) <= usize::MAX as u128
    );
    let taller = Preamble { height: 0x2000_0002, ..tall };
    assert!(!taller.can_be_decoded());
    let small = Preamble { frame: Some((1, 1)), ..taller };
    assert_eq!(
        small.can_be_decoded(),
        taller.width as u128 * taller.height as u128 <= isize::MAX as u128
    );
}

#[test]
fn frames_by_hand() {
    let gray = Frame { width: 1, height: 1, color_type: ColorType::Grayscale, data: vec![9, 8] };
    assert_eq!(thumbnail(&gray), Some((vec![9, 9, 9, 255], 1, 1)));
    let indexed = Frame { width: 1, height: 1, color_type: ColorType::Indexed, data: vec![0] };
    assert_eq!(thumbnail(&indexed), None);
    let tall = Frame {
        width: 1,
        height: 152,
        color_type: ColorType::Rgb,
        data: (0..456).map(|i| (i / 3) as u8).collect(),
    };
    let (pixels, tw, th) = thumbnail(&tall).unwrap();
    assert_eq!((tw, th), (1, 76));
    for ty in 0..76usize {
        let level = (2 * ty) as u8;
        assert_eq!(&pixels[4 * ty..4 * ty + 4], &[level, level, level, 255]);
    }
}
