use ppm_canvas::canvas::Canvas;
use ppm_canvas::color::Color;
use ppm_canvas::header::{PPMHeader, PPMHeaderReader};
use ppm_canvas::ppm::PPMReader;

#[test]
fn constructing_the_ppm_header() {
    let c = Canvas::new(5, 3);
    let mut ppm_reader = PPMReader::new(&c);
    let buf = ppm_reader.read_to_end();
    let st = String::from_utf8(buf).unwrap();
    let expected = "P3\n5 3\n255\n";
    assert_eq!(&st[..expected.len()], expected);
    println!("{st}")
}

#[test]
fn constructing_the_ppm_pixel_data() {
    let mut c = Canvas::new(5, 3);

    let c1 = Color::new(1500, 0, 0);
    c.write_pixel((0, 0), c1);

    let c2 = Color::new(0, 500, 0);
    c.write_pixel((2, 1), c2);

    let c3 = Color::new(-500, 0, 1000);
    c.write_pixel((4, 2), c3);

    let mut ppm_reader = PPMReader::new(&c);
    let buf = ppm_reader.read_to_end();

    let st = String::from_utf8(buf).unwrap();
    let expected = "P3\n5 3\n255\n\
255 0 0 0 0 0 0 0 0 0 0 0 0 0 0\n\
0 0 0 0 0 0 0 128 0 0 0 0 0 0 0\n\
0 0 0 0 0 0 0 0 0 0 0 0 0 0 255\n";
    assert_eq!(&st[..expected.len()], expected);
    println!("{st}")
}

#[test]
fn splitting_long_lines_in_ppm_files() {
    let mut c = Canvas::new(10, 2);
    for x in 0..10 {
        for y in 0..2 {
            c.write_pixel((x, y), Color::new(1000, 800, 600));
        }
    }

    let mut ppm_reader = PPMReader::new(&c);
    let buf = ppm_reader.read_to_end();

    let st = String::from_utf8(buf).unwrap();
    let expected = "P3\n10 2\n255\n\
255 204 153 255 204 153 255 204 153 255 204 153 255 204 153 255 204\n\
153 255 204 153 255 204 153 255 204 153 255 204 153\n\
255 204 153 255 204 153 255 204 153 255 204 153 255 204 153 255 204\n\
153 255 204 153 255 204 153 255 204 153 255 204 153\n";
    assert_eq!(&st[..expected.len()], expected);
}

#[test]
fn ppm_files_are_terminated_by_a_newline_character() {
    let c = Canvas::new(5, 3);
    let mut ppm_reader = PPMReader::new(&c);
    let buf = ppm_reader.read_to_end();
    let st = String::from_utf8(buf).unwrap();
    println!("{st:?}");
    assert_eq!(
        st.into_bytes()
            .as_slice()
            .iter()
            .filter(|byte| *byte != &0_u8)
            .last()
            .unwrap(),
        &b'\n'
    );
}

#[test]
fn header_reader_emits_fields_in_order() {
    let header = PPMHeader {
        magic: [b'P', b'3', b'\n'],
        width: 5,
        height: 3,
        color_scale: 255,
    };
    let mut reader = PPMHeaderReader::new(&header);
    let buf = reader.read_to_end();
    assert_eq!(buf, b"P3\n5 3\n255\n".to_vec());
    assert!(reader.done());
    assert_eq!(reader.read_to_end(), Vec::<u8>::new());
}

#[test]
fn header_reader_resumes_across_partial_reads() {
    let header = PPMHeader {
        magic: [b'P', b'3', b'\n'],
        width: 640,
        height: 480,
        color_scale: 255,
    };
    let mut reader = PPMHeaderReader::new(&header);
    let mut collected: Vec<u8> = Vec::new();
    loop {
        let chunk = reader.read(2);
        if chunk.is_empty() {
            break;
        }
        assert!(chunk.len() <= 2);
        collected.extend(chunk);
    }
    assert_eq!(collected, b"P3\n640 480\n255\n".to_vec());
}

#[test]
fn default_header_has_magic_and_scale() {
    let h = PPMHeader::default();
    assert_eq!(h.magic, [b'P', b'3', b'\n']);
    assert_eq!(h.width, 0);
    assert_eq!(h.height, 0);
    assert_eq!(h.color_scale, 255);
}

#[test]
fn image_reader_hands_out_successive_chunks() {
    let c = Canvas::new(5, 3);
    let mut whole_reader = PPMReader::new(&c);
    let whole = whole_reader.read_to_end();

    let mut chunked = PPMReader::new(&c);
    let mut collected: Vec<u8> = Vec::new();
    loop {
        let chunk = chunked.read(7);
        if chunk.is_empty() {
            break;
        }
        assert!(chunk.len() <= 7);
        collected.extend(chunk);
    }
    assert_eq!(collected, whole);
    assert_eq!(chunked.read(7), Vec::<u8>::new());
}

#[test]
fn a_line_of_exactly_seventy_characters_is_not_split() {
    let mut c = Canvas::new(6, 1);
    for x in 0..5 {
        c.write_pixel((x, 0), Color::new(1000, 1000, 1000));
    }
    // 98 thousandths quantizes to level 25, a two-digit token.
    c.write_pixel((5, 0), Color::new(1000, 1000, 98));

    let mut ppm_reader = PPMReader::new(&c);
    let buf = ppm_reader.read_to_end();
    let st = String::from_utf8(buf).unwrap();
    let body: Vec<&str> = st.lines().skip(3).collect();
    assert_eq!(
        body,
        vec!["255 255 255 255 255 255 255 255 255 255 255 255 255 255 255 255 255 25"]
    );
    assert_eq!(body[0].len(), 70);
}

#[test]
fn a_very_long_row_wraps_into_several_lines() {
    let c = Canvas::new(24, 1);
    let mut ppm_reader = PPMReader::new(&c);
    let buf = ppm_reader.read_to_end();
    let st = String::from_utf8(buf).unwrap();
    let lines: Vec<&str> = st.lines().collect();
    let thirty_five_zeros = "0 ".repeat(34) + "0";
    assert_eq!(lines.len(), 6);
    assert_eq!(lines[3], thirty_five_zeros);
    assert_eq!(lines[4], thirty_five_zeros);
    assert_eq!(lines[5], "0 0");
    for line in &lines {
        assert!(line.len() <= 70);
    }
}

#[test]
fn no_encoded_line_exceeds_seventy_characters() {
    let mut c = Canvas::new(13, 4);
    for x in 0..13 {
        for y in 0..4 {
            c.write_pixel((x, y), Color::new(1000, 999, 998));
        }
    }
    let mut ppm_reader = PPMReader::new(&c);
    let buf = ppm_reader.read_to_end();
    let st = String::from_utf8(buf).unwrap();
    for line in st.lines() {
        assert!(line.len() <= 70);
    }
    for line in st.lines().skip(3) {
        for token in line.split(' ') {
            assert!(!token.is_empty());
            assert!(token.bytes().all(|b| b.is_ascii_digit()));
        }
    }
}
