use hexdump::render::{dump, DisplayConfig};

fn cfg_default() -> DisplayConfig {
    DisplayConfig { group: 2, little_endian: false, limit: None, column: 16, seek_offset: 0 }
}

fn text_of(out: Vec<u8>) -> String {
    String::from_utf8(out).unwrap()
}

#[test]
fn empty_input_no_rows() {
    let cfg = cfg_default();
    let out = dump(&vec![], &cfg);
    assert_eq!(out, Vec::<u8>::new());
}

#[test]
fn single_full_row_zero_offset() {
    let cfg = cfg_default();
    let data: Vec<u8> = b"0123456789:;<=>?".to_vec();
    assert_eq!(data.len(), 16);
    let out = text_of(dump(&data, &cfg));
    assert_eq!(
        out,
        "00000000: 3031 3233 3435 3637 3839 3a3b 3c3d 3e3f  0123456789:;<=>?\n"
    );
    assert_eq!(out.matches('\n').count(), 1);
}

#[test]
fn real_pairs_match_bytes_remaining() {
    // 20 bytes over 16-byte rows: the second row shows exactly
    // min(16, 4) = 4 pairs drawn from real bytes, the rest zero placeholders.
    let cfg = cfg_default();
    let data: Vec<u8> = b"ABCDEFGHIJKLMNOPQRST".to_vec();
    let out = text_of(dump(&data, &cfg));
    assert_eq!(
        out,
        "00000000: 4142 4344 4546 4748 494a 4b4c 4d4e 4f50  ABCDEFGHIJKLMNOP\n\
         00000010: 5152 5354 0000 0000 0000 0000 0000 0000  QRST............\n"
    );
}

#[test]
fn little_endian_groups_reversed() {
    let cfg = DisplayConfig {
        group: 4,
        little_endian: true,
        limit: None,
        column: 8,
        seek_offset: 0,
    };
    let data: Vec<u8> = vec![0x00, 0x11, 0x22, 0x33, 0x44, 0x55, 0x66, 0x77];
    let out = text_of(dump(&data, &cfg));
    assert_eq!(out, "00000000: 33221100 77665544  ..\"3DUfw\n");
}

#[test]
fn text_sidebar_printables_and_dots() {
    let cfg = cfg_default();
    let data: Vec<u8> = b"Hello".to_vec();
    let out = text_of(dump(&data, &cfg));
    assert_eq!(
        out,
        "00000000: 4865 6c6c 6f00 0000 0000 0000 0000 0000  Hello...........\n"
    );
}

#[test]
fn limit_cuts_hex_and_text_asymmetrically() {
    // limit 5: the hex field stops after the fifth byte; the text sidebar
    // stops one byte earlier, after index 4 is refused.
    let cfg = DisplayConfig {
        group: 2,
        little_endian: false,
        limit: Some(5),
        column: 16,
        seek_offset: 0,
    };
    let data: Vec<u8> = b"ABCDEFGH".to_vec();
    let out = text_of(dump(&data, &cfg));
    assert_eq!(out, "00000000: 4142 4344 45 ABCD\n");
}

#[test]
fn limit_one_empty_text_sidebar() {
    let cfg = DisplayConfig {
        group: 2,
        little_endian: false,
        limit: Some(1),
        column: 16,
        seek_offset: 0,
    };
    let data: Vec<u8> = b"AB".to_vec();
    let out = text_of(dump(&data, &cfg));
    assert_eq!(out, "00000000: 41 \n");
}

#[test]
fn limit_zero_no_rows() {
    let cfg = DisplayConfig {
        group: 2,
        little_endian: false,
        limit: Some(0),
        column: 16,
        seek_offset: 0,
    };
    let data: Vec<u8> = b"ABC".to_vec();
    let out = dump(&data, &cfg);
    assert_eq!(out, Vec::<u8>::new());
}

#[test]
fn seek_offset_sets_first_row_offset() {
    let cfg = DisplayConfig {
        group: 2,
        little_endian: false,
        limit: None,
        column: 16,
        seek_offset: 5,
    };
    let data: Vec<u8> = b"XY".to_vec();
    let out = text_of(dump(&data, &cfg));
    assert_eq!(
        out,
        "00000005: 5859 0000 0000 0000 0000 0000 0000 0000  XY..............\n"
    );
}

#[test]
fn seek_paths_agree_on_same_logical_input() {
    // Whether the bytes before the seek position were skipped by seeking or
    // read and discarded, the engine sees the same post-seek bytes and must
    // print the same rows.
    let cfg = DisplayConfig {
        group: 2,
        little_endian: false,
        limit: None,
        column: 16,
        seek_offset: 3,
    };
    let whole: Vec<u8> = b"xyzHello".to_vec();
    let discarded: Vec<u8> = whole[3..].to_vec();
    let seeked: Vec<u8> = b"Hello".to_vec();
    assert_eq!(dump(&discarded, &cfg), dump(&seeked, &cfg));
    let out = text_of(dump(&seeked, &cfg));
    assert!(out.starts_with("00000003: "));
}

#[test]
fn offset_wider_than_eight_digits() {
    let cfg = DisplayConfig {
        group: 2,
        little_endian: false,
        limit: None,
        column: 16,
        seek_offset: 0x1_0000_0000,
    };
    let data: Vec<u8> = b"A".to_vec();
    let out = text_of(dump(&data, &cfg));
    assert_eq!(
        out,
        "100000000: 4100 0000 0000 0000 0000 0000 0000 0000  A...............\n"
    );
}

#[test]
fn auto_group_spans_whole_row() {
    let cfg = DisplayConfig {
        group: 0,
        little_endian: false,
        limit: None,
        column: 4,
        seek_offset: 0,
    };
    let data: Vec<u8> = vec![0xde, 0xad, 0xbe, 0xef];
    let out = text_of(dump(&data, &cfg));
    assert_eq!(out, "00000000: deadbeef  ....\n");
}

#[test]
fn auto_group_little_endian_reverses_row() {
    let cfg = DisplayConfig {
        group: 0,
        little_endian: true,
        limit: None,
        column: 4,
        seek_offset: 0,
    };
    let data: Vec<u8> = vec![0x01, 0x02, 0x03, 0x04];
    let out = text_of(dump(&data, &cfg));
    assert_eq!(out, "00000000: 04030201  ....\n");
}

#[test]
fn column_zero_no_rows() {
    let cfg = DisplayConfig {
        group: 2,
        little_endian: false,
        limit: None,
        column: 0,
        seek_offset: 0,
    };
    let data: Vec<u8> = b"ABC".to_vec();
    assert_eq!(dump(&data, &cfg), Vec::<u8>::new());
}

#[test]
fn group_not_dividing_column_pads_tail() {
    // column 10 with groups of 4: the last group reads past the row and
    // shows placeholders for the two slots beyond it.
    let cfg = DisplayConfig {
        group: 4,
        little_endian: false,
        limit: None,
        column: 10,
        seek_offset: 0,
    };
    let data: Vec<u8> = b"ABCDEFGHIJ".to_vec();
    let out = text_of(dump(&data, &cfg));
    assert_eq!(out, "00000000: 41424344 45464748 494a0000  ABCDEFGHIJ\n");
}
