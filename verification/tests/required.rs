//! The entity codecs and the identifier allocator, exercised on concrete
//! values: every decode case, its serialized form, and the allocator's
//! deterministic choices.

use bitsy_parser::colour::Colour;
use bitsy_parser::dialogue::Dialogue;
use bitsy_parser::ending::Ending;
use bitsy_parser::exit::{Exit, Transition};
use bitsy_parser::position::Position;
use bitsy_parser::{new_unique_id, optional_data_line, segments_from_str, to_base36, try_id};

#[test]
fn colour_from_string() {
    assert_eq!(
        Colour::from("0,255,0").unwrap(),
        Colour { red: 0, green: 255, blue: 0 }
    );
}

#[test]
fn colour_to_string() {
    assert_eq!(
        Colour { red: 22, green: 33, blue: 44 }.to_string(),
        "22,33,44".to_string()
    );
}

#[test]
fn colour_missing_value() {
    assert!(Colour::from("0,0").is_err());
}

#[test]
fn colour_ambiguous_value() {
    assert!(Colour::from("0,0,").is_err());
}

#[test]
fn colour_extraneous_value() {
    assert!(Colour::from("0,0,0,0").is_err());
}

#[test]
fn colour_from_hex() {
    let output = Colour::from_hex("#ffff00").unwrap();
    let expected = Colour { red: 255, green: 255, blue: 0 };
    assert_eq!(output, expected);
}

#[test]
fn colour_from_hex_upper() {
    let output = Colour::from_hex("#ABCDEF").unwrap();
    let expected = Colour { red: 171, green: 205, blue: 239 };
    assert_eq!(output, expected);
}

#[test]
fn position_from_str() {
    assert_eq!(Position::from_str("4,12").unwrap(), Position { x: 4, y: 12 });
}

#[test]
fn position_from_malformed_str() {
    assert!(Position::from_str("14,-1").is_err())
}

#[test]
fn position_to_string() {
    assert_eq!(Position { x: 4, y: 12 }.to_string(), "4,12".to_string())
}

#[test]
fn exit_from_string() {
    assert_eq!(
        Exit::from_str("a 12,13").unwrap(),
        Exit {
            room_id: "a".to_string(),
            position: Position { x: 12, y: 13 },
            effect: Transition::Instant
        }
    );
}

#[test]
fn exit_from_string_with_fx() {
    assert_eq!(
        Exit::from_str("a 12,13 FX slide_u").unwrap(),
        Exit {
            room_id: "a".to_string(),
            position: Position { x: 12, y: 13 },
            effect: Transition::SlideUp
        }
    );
}

#[test]
fn exit_to_string() {
    assert_eq!(
        Exit {
            room_id: "8".to_string(),
            position: Position { x: 5, y: 6 },
            effect: Transition::Instant
        }
        .to_string(),
        "8 5,6".to_string()
    );
}

#[test]
fn exit_to_string_with_fx() {
    assert_eq!(
        Exit {
            room_id: "8".to_string(),
            position: Position { x: 5, y: 6 },
            effect: Transition::FadeToWhite
        }
        .to_string(),
        "8 5,6 FX fade_w".to_string()
    );
}

#[test]
fn lib_test_to_base36() {
    assert_eq!(to_base36(37), "11");
}

#[test]
fn lib_test_optional_data_line() {
    let output = optional_data_line("NAME", Some("door".to_string()));
    assert_eq!(output, "\nNAME door");
}

#[test]
fn lib_string_to_segments() {
    let expected = vec![
        "\"\"\"\nthe first segment is a long bit of text\n\n\nit contains empty lines\n\n\"\"\"".to_string(),
        "this is a new segment\nthis is still the second segment\nblah\nblah".to_string(),
        "DLG SEGMENT_3\n\"\"\"\nthis is a short \"long\" bit of text\n\"\"\"".to_string(),
        "this is the last segment".to_string(),
    ];
    let input = expected.join("\n\n");
    let output = segments_from_str(&input);
    assert_eq!(output, expected);
}

#[test]
fn segments_string_to_segments() {
    // the document reader consumes segments front to back; reading them in
    // reverse matches popping from the back of a reversed list
    let forward = vec![
        "\"\"\"\nthe first segment is a long bit of text\n\n\nit contains empty lines\n\n\"\"\"".to_string(),
        "this is a new segment\nthis is still the second segment\nblah\nblah".to_string(),
        "DLG SEGMENT_3\n\"\"\"\nthis is a short \"long\" bit of text\n\"\"\"".to_string(),
        "this is the last segment".to_string(),
    ];
    let input = forward.join("\n\n");
    let mut output = segments_from_str(&input);
    output.reverse();

    let expected = vec![
        "this is the last segment".to_string(),
        "DLG SEGMENT_3\n\"\"\"\nthis is a short \"long\" bit of text\n\"\"\"".to_string(),
        "this is a new segment\nthis is still the second segment\nblah\nblah".to_string(),
        "\"\"\"\nthe first segment is a long bit of text\n\n\nit contains empty lines\n\n\"\"\"".to_string(),
    ];
    assert_eq!(output, expected);
}

#[test]
fn lib_test_try_id() {
    // does a conflict generate a new ID?
    assert_eq!(try_id(&["0".to_string(), "1".to_string()], "1"), "2");
    // with no conflict, does the ID remain the same?
    assert_eq!(try_id(&["0".to_string(), "1".to_string()], "3"), "3");
}

#[test]
fn lib_test_new_unique_id() {
    // start
    assert_eq!(new_unique_id(&["1".to_string(), "z".to_string()]), "0".to_string());
    // middle
    assert_eq!(new_unique_id(&["0".to_string(), "2".to_string()]), "1".to_string());
    // end
    assert_eq!(new_unique_id(&["0".to_string(), "1".to_string()]), "2".to_string());
    // check sorting
    assert_eq!(new_unique_id(&["1".to_string(), "0".to_string()]), "2".to_string());
    // check deduplication
    assert_eq!(
        new_unique_id(&["0".to_string(), "0".to_string(), "1".to_string()]),
        "2".to_string()
    );
}

#[test]
fn dialogue_from_str() {
    let output =
        Dialogue::from_str("DLG h\nhello\nNAME not a dialogue name\nNAME a dialogue name").unwrap();

    let expected = Dialogue {
        id: "h".to_string(),
        contents: "hello\nNAME not a dialogue name".to_string(),
        name: Some("a dialogue name".to_string()),
    };

    assert_eq!(output, expected);
}

#[test]
fn dialogue_to_string() {
    let output = Dialogue {
        id: "y".to_string(),
        contents: "This is a bit of dialogue,\nblah blah\nblah blah".to_string(),
        name: Some("a dialogue name".to_string()),
    }
    .to_string();

    let expected = "DLG y\nThis is a bit of dialogue,\nblah blah\nblah blah\nNAME a dialogue name";

    assert_eq!(output, expected);
}

#[test]
fn ending_from_string() {
    assert_eq!(
        Ending::from_str("END a\nThis is a long line of dialogue. Blah blah blah").unwrap(),
        Ending {
            id: "a".to_string(),
            dialogue: "This is a long line of dialogue. Blah blah blah".to_string()
        }
    );
}

#[test]
fn ending_to_string() {
    assert_eq!(
        Ending {
            id: "7".to_string(),
            dialogue: "This is another long ending. So long, farewell, etc.".to_string()
        }
        .to_string(),
        "END 7\nThis is another long ending. So long, farewell, etc.".to_string()
    );
}
