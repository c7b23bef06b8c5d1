use nest::codec::{decode, encode, encode_programs, decode_programs, FloatingWindow, ParseError, Program, Workspace};

fn roundtrip(line: &str) -> String {
    let p = decode(line).expect("line should decode");
    encode(&p)
}

#[test]
fn decode_full_line() {
    let p = decode("firefox:[1;100,2;200]&[10;20;300;400]").unwrap();
    assert_eq!(p.class, "firefox");
    assert_eq!(p.workspaces.len(), 2);
    assert_eq!(p.workspaces[0], Workspace { workspace_id: 1, timestamp: 100 });
    assert_eq!(p.workspaces[1], Workspace { workspace_id: 2, timestamp: 200 });
    assert_eq!(p.floating_window, Some(FloatingWindow { at: (10, 20), size: (300, 400) }));
    assert!(!p.moved);
    assert!(!p.float_moved);
}

#[test]
fn round_trip_full_line() {
    let line = "firefox:[1;100,2;200]&[10;20;300;400]";
    assert_eq!(roundtrip(line), line);
}

#[test]
fn round_trip_empty_history_and_geometry() {
    let line = "firefox:[]&[]";
    assert_eq!(roundtrip(line), line);
}

#[test]
fn round_trip_negative_numbers() {
    let line = "kitty:[-3;-1000]&[-1;-2;-3;-4]";
    assert_eq!(roundtrip(line), line);
}

#[test]
fn round_trip_empty_class() {
    let line = ":[7;1]&[]";
    assert_eq!(roundtrip(line), line);
}

#[test]
fn round_trip_extreme_values() {
    let line = "x:[2147483647;9223372036854775807,-2147483648;-9223372036854775808]&[32767;-32768;1;0]";
    assert_eq!(roundtrip(line), line);
}

#[test]
fn decode_without_colon_is_format_error() {
    assert_eq!(decode("nocolon").unwrap_err(), ParseError::InvalidFormat);
}

#[test]
fn decode_without_ampersand_is_format_error() {
    assert_eq!(decode("a:[1;2]").unwrap_err(), ParseError::InvalidFormat);
}

#[test]
fn decode_unbracketed_history_is_format_error() {
    assert_eq!(decode("a:1;2&[]").unwrap_err(), ParseError::InvalidFormat);
}

#[test]
fn decode_one_field_item_is_format_error() {
    assert_eq!(decode("a:[1]&[]").unwrap_err(), ParseError::InvalidFormat);
}

#[test]
fn decode_three_field_item_is_format_error() {
    assert_eq!(decode("a:[1;2;3]&[]").unwrap_err(), ParseError::InvalidFormat);
}

#[test]
fn decode_non_numeric_field_is_int_error() {
    assert_eq!(decode("a:[x;2]&[]").unwrap_err(), ParseError::InvalidInt);
}

#[test]
fn decode_overflowing_workspace_id_is_int_error() {
    assert_eq!(decode("a:[99999999999;1]&[]").unwrap_err(), ParseError::InvalidInt);
}

#[test]
fn decode_overflowing_timestamp_is_int_error() {
    assert_eq!(decode("a:[1;99999999999999999999]&[]").unwrap_err(), ParseError::InvalidInt);
}

#[test]
fn malformed_geometry_reads_as_none() {
    // three fields instead of four
    let p = decode("a:[]&[1;2;3]").unwrap();
    assert_eq!(p.floating_window, None);
    // a field out of the i16 range
    let p = decode("a:[]&[1;2;3;99999]").unwrap();
    assert_eq!(p.floating_window, None);
    // not bracketed
    let p = decode("a:[]&1;2;3;4").unwrap();
    assert_eq!(p.floating_window, None);
}

#[test]
fn lenient_number_parse_normalises_on_encode() {
    // a leading zero is read, but re-encoding writes the canonical form
    let p = decode("a:[01;2]&[]").unwrap();
    assert_eq!(p.workspaces[0], Workspace { workspace_id: 1, timestamp: 2 });
    assert_eq!(encode(&p), "a:[1;2]&[]");
}

#[test]
fn encode_ignores_suppression_flags() {
    let p = Program {
        class: String::from("term"),
        workspaces: vec![Workspace { workspace_id: 4, timestamp: 9 }],
        floating_window: None,
        moved: true,
        float_moved: true,
    };
    assert_eq!(encode(&p), "term:[4;9]&[]");
}

#[test]
fn file_round_trip() {
    let programs = vec![
        Program {
            class: String::from("firefox"),
            workspaces: vec![Workspace { workspace_id: 1, timestamp: 100 }],
            floating_window: None,
            moved: false,
            float_moved: false,
        },
        Program {
            class: String::from("kitty"),
            workspaces: vec![],
            floating_window: Some(FloatingWindow { at: (5, 6), size: (70, 80) }),
            moved: false,
            float_moved: false,
        },
    ];
    let content = encode_programs(&programs);
    assert_eq!(content, "firefox:[1;100]&[]\nkitty:[]&[5;6;70;80]\n");
    let back = decode_programs(&content).unwrap();
    assert_eq!(back.len(), 2);
    assert_eq!(back[0].class, "firefox");
    assert_eq!(back[1].class, "kitty");
    assert_eq!(back[1].floating_window, Some(FloatingWindow { at: (5, 6), size: (70, 80) }));
}

#[test]
fn empty_file_reads_as_no_records() {
    assert!(decode_programs("").unwrap().is_empty());
}

#[test]
fn damaged_file_aborts_the_load() {
    let r = decode_programs("firefox:[1;100]&[]\nbroken\n");
    assert_eq!(r.unwrap_err(), ParseError::InvalidFormat);
}
