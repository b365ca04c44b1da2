use coolled1248::colors::CoolLEDColors;
use coolled1248::coolled::{CoolLEDWriter, PayloadType, MAX_FRAME_SIZE};
use coolled1248::font::Font;

/// A full font table that is dark but for the glyphs given: each one is the
/// lit columns of a character and the byte of the glyph at which they start.
fn font_table(glyphs: &[(char, &[u8], usize)]) -> Vec<u8> {
    let mut table: Vec<u8> = vec![0u8; 65536 * 32];
    for (c, columns, start) in glyphs {
        let at: usize = (*c as usize) * 32 + start;
        table[at..at + columns.len()].copy_from_slice(columns);
    }
    table
}

/// The glyphs of the letters of "Testing", as the display's font draws them.
fn testing_font() -> Vec<u8> {
    font_table(&[
        ('T', &[32, 0, 32, 0, 32, 0, 63, 252, 32, 0, 32, 0, 32, 0], 2),
        ('e', &[0, 248, 1, 68, 2, 68, 2, 68, 2, 68, 1, 68, 0, 200], 2),
        ('s', &[1, 136, 2, 68, 2, 68, 2, 36, 2, 36, 2, 36, 1, 24], 2),
        ('t', &[2, 0, 2, 0, 63, 248, 2, 4, 2, 4, 2, 4, 0, 8], 4),
        ('i', &[2, 4, 2, 4, 51, 252, 0, 4, 0, 4], 6),
        ('n', &[2, 0, 1, 252, 2, 0, 2, 0, 2, 0, 2, 0, 1, 252], 2),
        ('g', &[1, 226, 2, 17, 2, 17, 2, 17, 2, 17, 1, 254, 2, 0], 0),
    ])
}

/// Reads escaped bytes back.
fn unescape(bytes: &[u8]) -> Vec<u8> {
    let mut out: Vec<u8> = Vec::new();
    let mut i: usize = 0;
    while i < bytes.len() {
        if bytes[i] == 2 && i + 1 < bytes.len() {
            out.push(bytes[i + 1] ^ 4);
            i += 2;
        } else {
            out.push(bytes[i]);
            i += 1;
        }
    }
    out
}

fn xor_fold(bytes: &[u8]) -> u8 {
    let mut sum: u8 = 0;
    for b in bytes {
        sum ^= *b;
    }
    sum
}

/// All the frames of a writer, each made in a buffer of its own.
fn all_frames(writer: &mut CoolLEDWriter) -> Vec<Vec<u8>> {
    let count: usize = writer.get_packets_count();
    let mut frames: Vec<Vec<u8>> = Vec::new();
    for idx in 0..count {
        let mut buffer: [u8; MAX_FRAME_SIZE] = [0; MAX_FRAME_SIZE];
        let wrote: usize = writer.generate_packet(idx, &mut buffer);
        frames.push(buffer[..wrote].to_vec());
    }
    frames
}

/// Checks a frame against what every frame has to be, and hands back its
/// body and what its header says: whole size, index.
fn check_frame(frame: &[u8], content_type: u8) -> (Vec<u8>, usize, usize) {
    assert!(frame.len() >= 12);
    assert_eq!(frame[0], 0x01);
    assert_eq!(frame[frame.len() - 1], 0x03);
    for b in &frame[1..frame.len() - 1] {
        assert_ne!(*b, 0x01);
        assert_ne!(*b, 0x03);
    }
    let inner: Vec<u8> = unescape(&frame[3..frame.len() - 1]);
    assert_eq!((frame[1] as usize) * 256 + frame[2] as usize, inner.len());
    assert_eq!(inner[0], content_type);
    let packet: &[u8] = &inner[1..];
    assert_eq!(packet[0], 0);
    let body_len: usize = packet[5] as usize;
    assert_eq!(packet.len(), body_len + 7);
    assert_eq!(packet[packet.len() - 1], xor_fold(&packet[..packet.len() - 1]));
    (
        packet[6..6 + body_len].to_vec(),
        (packet[1] as usize) * 256 + packet[2] as usize,
        (packet[3] as usize) * 256 + packet[4] as usize,
    )
}

#[test]
fn testing_hardcoded_packet_result() {
    const PHRASE: &str = "Testing";
    let colors: [CoolLEDColors; PHRASE.len()] = [CoolLEDColors::Red; PHRASE.len()];

    let expected: Vec<Vec<u8>> = vec![
        vec![
            1, 0, 136, 2, 6, 0, 2, 5, 175, 0, 0, 128, 0, 0, 0, 0, 0, 0, 0, 0, 0, 0, 0, 0, 0, 0,
            0, 0, 0, 0, 0, 0, 0, 0, 0, 0, 0, 0, 0, 0, 0, 0, 0, 0, 0, 0, 0, 0, 0, 0, 0, 0, 0, 0,
            0, 0, 0, 0, 0, 0, 0, 0, 0, 0, 0, 0, 0, 0, 0, 0, 0, 0, 0, 0, 0, 0, 0, 0, 0, 0, 0, 0,
            0, 0, 0, 0, 0, 0, 0, 0, 0, 0, 0, 0, 0, 0, 0, 0, 0, 0, 0, 0, 0, 0, 0, 0, 0, 0, 0, 0,
            0, 0, 0, 0, 0, 0, 0, 2, 5, 68, 32, 0, 32, 0, 32, 0, 63, 252, 32, 0, 32, 0, 32, 0,
            0, 0, 0, 248, 2, 5, 68, 2, 6, 23, 3,
        ],
        vec![
            1, 0, 136, 2, 6, 0, 2, 5, 175, 0, 2, 5, 128, 68, 2, 6, 68, 2, 6, 68, 2, 5, 68, 0,
            200, 0, 0, 2, 5, 136, 2, 6, 68, 2, 6, 68, 2, 6, 36, 2, 6, 36, 2, 6, 36, 2, 5, 24,
            0, 0, 2, 6, 0, 2, 6, 0, 63, 248, 2, 6, 4, 2, 6, 4, 2, 6, 4, 0, 8, 0, 0, 2, 6, 4, 2,
            6, 4, 51, 252, 0, 4, 0, 4, 0, 0, 2, 6, 0, 2, 5, 252, 2, 6, 0, 2, 6, 0, 2, 6, 0, 2,
            6, 0, 2, 5, 252, 0, 0, 2, 5, 226, 2, 6, 17, 2, 6, 17, 2, 6, 17, 2, 6, 17, 2, 5,
            254, 2, 6, 0, 0, 0, 0, 0, 0, 0, 0, 0, 0, 0, 0, 0, 0, 0, 0, 0, 0, 0, 0, 0, 0, 0, 0,
            0, 0, 0, 0, 0, 0, 0, 0, 0, 0, 0, 0, 0, 0, 0, 0, 0, 0, 0, 0, 74, 3,
        ],
        vec![
            1, 0, 136, 2, 6, 0, 2, 5, 175, 0, 2, 6, 128, 0, 0, 0, 0, 0, 0, 0, 0, 0, 0, 0, 0, 0,
            0, 0, 0, 0, 0, 0, 0, 0, 0, 0, 0, 0, 0, 0, 0, 0, 0, 0, 0, 0, 0, 0, 0, 0, 0, 0, 0, 0,
            0, 0, 0, 0, 0, 0, 0, 0, 0, 0, 0, 0, 0, 0, 0, 0, 0, 0, 0, 0, 0, 0, 0, 0, 0, 0, 0, 0,
            0, 0, 0, 0, 0, 0, 0, 0, 0, 0, 0, 0, 0, 0, 0, 0, 0, 0, 0, 0, 0, 0, 0, 0, 0, 0, 0, 0,
            0, 0, 0, 0, 0, 0, 0, 0, 0, 0, 0, 0, 0, 0, 0, 0, 0, 0, 0, 0, 0, 0, 0, 0, 0, 0, 0, 0,
            0, 0, 0, 44, 3,
        ],
        vec![
            1, 0, 55, 2, 6, 0, 2, 5, 175, 0, 2, 7, 47, 0, 0, 0, 0, 0, 0, 0, 0, 0, 0, 0, 0, 0,
            0, 0, 0, 0, 0, 0, 0, 0, 0, 0, 0, 0, 0, 0, 0, 0, 0, 0, 0, 0, 0, 0, 0, 0, 0, 0, 0, 0,
            0, 0, 0, 0, 0, 0, 130, 3,
        ],
    ];

    let table: Vec<u8> = testing_font();
    let mut c = CoolLEDWriter::new(PayloadType::Text(&PHRASE, &colors), Font::Full(&table));
    let mut buffer: [u8; 255] = [0; 255];
    let quantity_packets: usize = c.get_packets_count();
    println!("packets = {}", quantity_packets);
    assert_eq!(quantity_packets, 4);
    let mut count: usize = 0;
    let mut total_written: usize = 0;
    for idx in 0..quantity_packets {
        let wrote: usize = c.generate_packet(idx, &mut buffer);
        let packet_data: &[u8] = &buffer[..wrote];

        assert_eq!(&expected[idx], packet_data);
        println!(
            "packet size :{}/{} - {} bytes - data {:?}",
            count + 1,
            quantity_packets,
            packet_data.len(),
            packet_data,
        );
        total_written += packet_data.len();
        count += 1;
        buffer.fill(0);
    }
    println!("|total : {}", total_written);
}

#[test]
fn testing_first_length_and_last_checksum() {
    let colors: [CoolLEDColors; 7] = [CoolLEDColors::Red; 7];
    let table: Vec<u8> = testing_font();
    let mut writer = CoolLEDWriter::new(PayloadType::Text("Testing", &colors), Font::Full(&table));
    let frames: Vec<Vec<u8>> = all_frames(&mut writer);
    assert_eq!(frames.len(), 4);
    assert_eq!(frames[0][1], 0x00);
    assert_eq!(frames[0][2], 0x88);
    let last: &Vec<u8> = &frames[3];
    assert_eq!(last[12], 0x2F);
    assert_eq!(last[last.len() - 2], 0x82);
    assert_eq!(last[last.len() - 1], 0x03);
}

#[test]
fn every_frame_is_well_formed() {
    let colors: [CoolLEDColors; 3] =
        [CoolLEDColors::Yellow, CoolLEDColors::Cyan, CoolLEDColors::White];
    let table: Vec<u8> = testing_font();
    let image: Vec<u8> = (0..700).map(|i: u32| (i % 7) as u8).collect();
    let payloads: Vec<(PayloadType, u8)> = vec![
        (PayloadType::Text("Testing, testing", &colors), 2),
        (PayloadType::Image(&image), 3),
        (PayloadType::Animation(&image, 5), 4),
    ];
    for (payload, content_type) in payloads {
        let mut writer = CoolLEDWriter::new(payload, Font::Full(&table));
        let count: usize = writer.get_packets_count();
        let frames: Vec<Vec<u8>> = all_frames(&mut writer);
        assert_eq!(frames.len(), count);
        let mut whole: usize = 0;
        for (idx, frame) in frames.iter().enumerate() {
            let (body, announced, index) = check_frame(frame, content_type);
            assert_eq!(index, idx);
            if idx == 0 {
                assert_eq!(body.len(), 128);
                whole = announced;
            } else {
                assert_eq!(announced, whole);
            }
        }
        assert_eq!(count, (whole + 127) / 128);
    }
}

#[test]
fn frames_carry_the_picture() {
    let image: Vec<u8> = (0..1000).map(|i: u32| ((i * 37 + 11) % 256) as u8).collect();
    let table: Vec<u8> = vec![0u8; 65536 * 32];
    let mut writer = CoolLEDWriter::new(PayloadType::Image(&image), Font::Full(&table));
    assert_eq!(writer.get_packets_count(), 9);
    let mut carried: Vec<u8> = Vec::new();
    for (idx, frame) in all_frames(&mut writer).iter().enumerate() {
        let (body, whole, _) = check_frame(frame, 3);
        assert_eq!(whole, 1026);
        if idx == 0 {
            assert_eq!(&body[..24], &[0u8; 24]);
            assert_eq!(&body[24..26], &[0x03, 0xE8]);
            carried.extend_from_slice(&body[26..]);
        } else {
            carried.extend_from_slice(&body);
        }
    }
    assert_eq!(carried, image);
}

#[test]
fn packets_in_any_order_and_again() {
    let image: Vec<u8> = (0..400).map(|i: u32| (i % 5) as u8).collect();
    let table: Vec<u8> = vec![0u8; 65536 * 32];
    let mut writer = CoolLEDWriter::new(PayloadType::Animation(&image, 3), Font::Full(&table));
    let forward: Vec<Vec<u8>> = all_frames(&mut writer);
    assert_eq!(forward.len(), 4);
    for idx in [3usize, 1, 0, 2, 2, 0] {
        assert_eq!(writer.get_packets_count(), 4);
        let mut first: [u8; MAX_FRAME_SIZE] = [0; MAX_FRAME_SIZE];
        let mut second: [u8; MAX_FRAME_SIZE] = [0; MAX_FRAME_SIZE];
        let wrote: usize = writer.generate_packet(idx, &mut first);
        let again: usize = writer.generate_packet(idx, &mut second);
        assert_eq!(wrote, again);
        assert_eq!(first, second);
        assert_eq!(&first[..wrote], &forward[idx][..]);
    }
}

#[test]
fn what_lies_behind_the_frame_stays() {
    let image: [u8; 10] = [0, 1, 2, 3, 4, 5, 6, 7, 8, 9];
    let table: Vec<u8> = vec![0u8; 65536 * 32];
    let mut writer = CoolLEDWriter::new(PayloadType::Image(&image), Font::Full(&table));
    let mut buffer: [u8; 200] = [0xAA; 200];
    let wrote: usize = writer.generate_packet(0, &mut buffer);
    assert_eq!(wrote, 144);
    assert_eq!(&buffer[144..], &[0xAAu8; 56]);
    // The first body is full whatever the buffer held: zero where the data ends.
    assert_eq!(&buffer[50..142], &[0u8; 92]);
}

#[test]
fn small_picture_with_control_bytes() {
    let image: [u8; 10] = [0, 1, 2, 3, 4, 5, 6, 7, 8, 9];
    let table: Vec<u8> = vec![0u8; 65536 * 32];
    let mut writer = CoolLEDWriter::new(PayloadType::Image(&image), Font::Full(&table));
    assert_eq!(writer.get_packets_count(), 1);
    let mut expected: Vec<u8> = vec![1, 0, 136, 2, 7, 0, 0, 36, 0, 0, 128];
    expected.extend_from_slice(&[0u8; 24]);
    expected.extend_from_slice(&[0, 10, 0, 2, 5, 2, 6, 2, 7, 4, 5, 6, 7, 8, 9]);
    expected.extend_from_slice(&[0u8; 92]);
    expected.extend_from_slice(&[175, 3]);
    assert_eq!(all_frames(&mut writer), vec![expected]);
}

#[test]
fn packet_count_at_the_edges() {
    let table: Vec<u8> = vec![0u8; 65536 * 32];
    let data: Vec<u8> = vec![9u8; 300];
    let cases: [(usize, usize); 6] = [(0, 1), (1, 1), (102, 1), (103, 2), (230, 2), (231, 3)];
    for (len, count) in cases {
        let writer = CoolLEDWriter::new(PayloadType::Image(&data[..len]), Font::Full(&table));
        assert_eq!(writer.get_packets_count(), count);
    }
    let cases: [(usize, usize); 4] = [(0, 1), (101, 1), (102, 2), (229, 2)];
    for (len, count) in cases {
        let payload = PayloadType::Animation(&data[..len], 1);
        let writer = CoolLEDWriter::new(payload, Font::Full(&table));
        assert_eq!(writer.get_packets_count(), count);
    }
    let colors: [CoolLEDColors; 0] = [];
    let writer = CoolLEDWriter::new(PayloadType::Text("", &colors), Font::Full(&table));
    assert_eq!(writer.get_packets_count(), 1);
}

#[test]
fn empty_payloads_send_their_header() {
    let table: Vec<u8> = vec![0u8; 65536 * 32];
    let mut writer = CoolLEDWriter::new(PayloadType::Image(&[]), Font::Full(&table));
    let frames: Vec<Vec<u8>> = all_frames(&mut writer);
    assert_eq!(frames.len(), 1);
    let (body, whole, index) = check_frame(&frames[0], 3);
    assert_eq!((whole, index), (26, 0));
    assert_eq!(body, vec![0u8; 128]);
    assert_eq!(frames[0][frames[0].len() - 2], 154);

    let colors: [CoolLEDColors; 0] = [];
    let mut writer = CoolLEDWriter::new(PayloadType::Text("", &colors), Font::Full(&table));
    let frames: Vec<Vec<u8>> = all_frames(&mut writer);
    assert_eq!(frames.len(), 1);
    let (body, whole, index) = check_frame(&frames[0], 2);
    assert_eq!((whole, index), (107, 0));
    assert_eq!(body, vec![0u8; 128]);
    assert_eq!(frames[0].len(), 141);
    assert_eq!(frames[0][frames[0].len() - 2], 235);
}

#[test]
fn second_packet_of_a_picture() {
    let data: Vec<u8> = (0..103).map(|i: u32| ((7 * i + 5) % 251) as u8).collect();
    let table: Vec<u8> = vec![0u8; 65536 * 32];
    let mut writer = CoolLEDWriter::new(PayloadType::Image(&data), Font::Full(&table));
    let frames: Vec<Vec<u8>> = all_frames(&mut writer);
    assert_eq!(frames.len(), 2);
    assert_eq!(frames[0].len(), 141);
    assert_eq!(frames[1], vec![1, 0, 9, 2, 7, 0, 0, 129, 0, 2, 5, 2, 5, 217, 88, 3]);
}

#[test]
fn animation_header_and_second_packet() {
    let data: Vec<u8> = (0..130).map(|i: u32| ((i * 3) % 256) as u8).collect();
    let table: Vec<u8> = vec![0u8; 65536 * 32];
    let mut writer = CoolLEDWriter::new(PayloadType::Animation(&data, 2), Font::Full(&table));
    let frames: Vec<Vec<u8>> = all_frames(&mut writer);
    assert_eq!(frames.len(), 2);
    let (body, whole, _) = check_frame(&frames[0], 4);
    assert_eq!(whole, 157);
    assert_eq!(&body[..24], &[0u8; 24]);
    // Two pictures, speed 500, and then the data.
    assert_eq!(&body[24..30], &[2, 1, 244, 0, 3, 6]);
    assert_eq!(&body[27..], &data[..101]);
    assert_eq!(
        frames[1],
        vec![
            1, 0, 37, 4, 0, 0, 157, 0, 2, 5, 29, 47, 50, 53, 56, 59, 62, 65, 68, 71, 74, 77, 80,
            83, 86, 89, 92, 95, 98, 101, 104, 107, 110, 113, 116, 119, 122, 125, 128, 131, 194, 3,
        ]
    );
}

#[test]
fn number_of_pictures_is_sent_as_one_byte() {
    let data: [u8; 4] = [1, 2, 3, 4];
    let table: Vec<u8> = vec![0u8; 65536 * 32];
    let mut writer = CoolLEDWriter::new(PayloadType::Animation(&data, 258), Font::Full(&table));
    let frames: Vec<Vec<u8>> = all_frames(&mut writer);
    let (body, _, _) = check_frame(&frames[0], 4);
    assert_eq!(&body[24..31], &[2, 1, 244, 1, 2, 3, 4]);
}

#[test]
fn a_frame_can_be_longer_than_255_bytes() {
    let data: Vec<u8> = vec![1u8; 300];
    let table: Vec<u8> = vec![0u8; 65536 * 32];
    let mut writer = CoolLEDWriter::new(PayloadType::Image(&data), Font::Full(&table));
    let lengths: Vec<usize> = all_frames(&mut writer).iter().map(|f| f.len()).collect();
    assert_eq!(lengths, vec![245, 271, 156]);
    for frame in all_frames(&mut writer) {
        check_frame(&frame, 3);
        assert!(frame.len() <= MAX_FRAME_SIZE);
    }
}

#[test]
fn text_of_two_colours() {
    // A yellow character of two columns and a blue one of one column.
    let table: Vec<u8> =
        font_table(&[('A', &[0x10, 0x20, 0x30, 0x40], 6), ('B', &[0xFF, 0x01], 30)]);
    let colors: [CoolLEDColors; 2] = [CoolLEDColors::Yellow, CoolLEDColors::Blue];
    let mut writer = CoolLEDWriter::new(PayloadType::Text("AB", &colors), Font::Full(&table));
    // Announced: three passes of 6 + 4 bytes, behind a header of 107.
    assert_eq!(writer.get_packets_count(), 2);
    let frames: Vec<Vec<u8>> = all_frames(&mut writer);
    let (first, whole, _) = check_frame(&frames[0], 2);
    assert_eq!(whole, 137);
    assert_eq!(&first[..105], &[0u8; 105]);
    assert_eq!(&first[105..107], &[0, 30]);
    // Red pass: the yellow character, the blue one dark.
    let mut start: Vec<u8> = vec![16, 32, 48, 64, 0, 0];
    start.extend_from_slice(&[0u8; 15]);
    assert_eq!(&first[107..], &start[..]);
    // The dark character goes on, then the green pass starts.
    assert_eq!(
        frames[1],
        vec![1, 0, 17, 2, 6, 0, 0, 137, 0, 2, 5, 9, 0, 16, 32, 48, 64, 0, 0, 0, 0, 193, 3]
    );
}

#[test]
fn colours_are_taken_in_turn() {
    // One colour for three characters: all of them have it.
    let table: Vec<u8> = font_table(&[('x', &[0x01, 0x80], 10)]);
    let colors: [CoolLEDColors; 1] = [CoolLEDColors::Green];
    let mut writer = CoolLEDWriter::new(PayloadType::Text("xxx", &colors), Font::Full(&table));
    // Each pass announces 3 * 4 bytes; the red pass is dark and 48 bytes long.
    let frames: Vec<Vec<u8>> = all_frames(&mut writer);
    assert_eq!(frames.len(), 2);
    let (first, whole, _) = check_frame(&frames[0], 2);
    assert_eq!(whole, 107 + 36);
    assert_eq!(&first[107..], &[0u8; 21]);
    let (second, _, _) = check_frame(&frames[1], 2);
    assert_eq!(second, vec![0u8; 15]);
}

#[test]
fn custom_font_and_a_character_it_lacks() {
    let mut table: Vec<u8> = vec![0u8; 64];
    table[4] = 0x11;
    table[5] = 0x22;
    table[32 + 8] = 0x33;
    table[32 + 11] = 0x44;
    let colors: [CoolLEDColors; 1] = [CoolLEDColors::White];
    // 'b' has the second glyph, 'z' is not listed and gets the first.
    let mut writer =
        CoolLEDWriter::new(PayloadType::Text("bz", &colors), Font::Custom(&table, "ab"));
    let frames: Vec<Vec<u8>> = all_frames(&mut writer);
    assert_eq!(frames.len(), 2);
    let (first, whole, _) = check_frame(&frames[0], 2);
    assert_eq!(whole, 107 + 3 * (6 + 4));
    assert_eq!(
        &first[105..],
        &[
            0, 30, 0x33, 0, 0, 0x44, 0, 0, 0x11, 0x22, 0, 0, 0x33, 0, 0, 0x44, 0, 0, 0x11, 0x22,
            0, 0, 0x33,
        ]
    );
    let (second, _, _) = check_frame(&frames[1], 2);
    assert_eq!(second, vec![0, 0, 0x44, 0, 0, 0x11, 0x22, 0, 0]);
}

#[test]
fn content_type_of_each_payload() {
    let colors: [CoolLEDColors; 1] = [CoolLEDColors::Red];
    assert_eq!(PayloadType::Text("a", &colors).get_content_type(), 2);
    assert_eq!(PayloadType::Image(&[1, 2]).get_content_type(), 3);
    assert_eq!(PayloadType::Animation(&[1, 2], 1).get_content_type(), 4);
}

#[test]
fn a_wide_dark_character_ends_the_stream_early() {
    // One red character, lit in all sixteen columns: 34 bytes in the red
    // pass, 16 in each of the other two, and three times 34 announced.
    let glyph: Vec<u8> = (1..=32).collect();
    let table: Vec<u8> = font_table(&[('W', &glyph, 0)]);
    let colors: [CoolLEDColors; 1] = [CoolLEDColors::Red];
    let mut writer = CoolLEDWriter::new(PayloadType::Text("W", &colors), Font::Full(&table));
    let frames: Vec<Vec<u8>> = all_frames(&mut writer);
    assert_eq!(frames.len(), 2);
    let (first, whole, _) = check_frame(&frames[0], 2);
    assert_eq!(whole, 107 + 102);
    assert_eq!(
        &first[105..],
        &[0, 102, 1, 2, 3, 4, 5, 6, 7, 8, 9, 10, 11, 12, 13, 14, 15, 16, 17, 18, 19, 20, 21]
    );
    let mut rest: Vec<u8> = vec![1, 0, 53, 2, 6, 0, 0, 209, 0, 2, 5, 45];
    rest.extend_from_slice(&[22, 23, 24, 25, 26, 27, 28, 29, 30, 31, 32]);
    rest.extend_from_slice(&[0u8; 34]);
    rest.extend_from_slice(&[220, 3]);
    assert_eq!(frames[1], rest);
}

#[test]
fn a_writer_is_made_only_of_what_fits() {
    let full: Vec<u8> = vec![0u8; 65536 * 32];
    let short: Vec<u8> = vec![0u8; 65536 * 32 - 1];
    let colors: [CoolLEDColors; 1] = [CoolLEDColors::Pink];
    let none: [CoolLEDColors; 0] = [];
    let data: [u8; 3] = [1, 2, 3];

    assert!(CoolLEDWriter::try_new(PayloadType::Image(&data), Font::Full(&full)).is_some());
    assert!(CoolLEDWriter::try_new(PayloadType::Image(&data), Font::Full(&short)).is_none());
    assert!(CoolLEDWriter::try_new(PayloadType::Animation(&data, 1), Font::Full(&full)).is_some());
    assert!(CoolLEDWriter::try_new(PayloadType::Text("ab", &colors), Font::Full(&full)).is_some());
    assert!(CoolLEDWriter::try_new(PayloadType::Text("ab", &none), Font::Full(&full)).is_none());
    assert!(CoolLEDWriter::try_new(PayloadType::Text("", &none), Font::Full(&full)).is_some());

    let two: Vec<u8> = vec![0u8; 64];
    assert!(Font::Custom(&two, "ab").is_wf());
    assert!(Font::Custom(&two, "").is_wf());
    assert!(!Font::Custom(&two, "abc").is_wf());
    assert!(!Font::Custom(&two[..31], "").is_wf());
    let text = PayloadType::Text("ba", &colors);
    assert!(CoolLEDWriter::try_new(text, Font::Custom(&two, "ab")).is_some());
    let text = PayloadType::Text("ba", &colors);
    assert!(CoolLEDWriter::try_new(text, Font::Custom(&two, "abc")).is_none());

    let mut writer = CoolLEDWriter::try_new(PayloadType::Image(&data), Font::Full(&full)).unwrap();
    assert_eq!(writer.get_packets_count(), 1);
    assert_eq!(all_frames(&mut writer)[0].len(), 145);
}

#[test]
fn a_frame_is_written_only_where_it_fits() {
    let data: Vec<u8> = vec![1u8; 300];
    let table: Vec<u8> = vec![0u8; 65536 * 32];
    let mut writer = CoolLEDWriter::new(PayloadType::Image(&data), Font::Full(&table));
    let frames: Vec<Vec<u8>> = all_frames(&mut writer);

    // The second frame takes 271 bytes.
    let mut small: [u8; 255] = [0x77; 255];
    assert_eq!(writer.try_generate_packet(1, &mut small), None);
    assert_eq!(small, [0x77u8; 255]);
    let mut exact: [u8; 271] = [0x77; 271];
    assert_eq!(writer.try_generate_packet(1, &mut exact), Some(271));
    assert_eq!(&exact[..], &frames[1][..]);
    let mut short: [u8; 270] = [0x77; 270];
    assert_eq!(writer.try_generate_packet(1, &mut short), None);
    assert_eq!(short, [0x77u8; 270]);

    // The first and the third fit in 255 bytes, and there is no fourth.
    assert_eq!(writer.try_generate_packet(0, &mut small), Some(245));
    assert_eq!(&small[..245], &frames[0][..]);
    assert_eq!(&small[245..], &[0x77u8; 10]);
    assert_eq!(writer.try_generate_packet(2, &mut small), Some(156));
    assert_eq!(&small[..156], &frames[2][..]);
    let mut large: [u8; 300] = [0x55; 300];
    assert_eq!(writer.try_generate_packet(3, &mut large), None);
    assert_eq!(large, [0x55u8; 300]);
    assert_eq!(writer.try_generate_packet(usize::MAX, &mut large), None);
}
