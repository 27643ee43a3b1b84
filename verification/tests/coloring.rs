//! The color utilities: the name hash, the packed-integer split, and the
//! two textual conversions.

use banban::board::Board;
use banban::coloring::int_to_rgb;
use banban::coloring::rgb_int_to_string;
use banban::coloring::rgb_string_to_int;
use banban::coloring::string_to_color;
use banban::commands::CreateTagInput;
use banban::commands::UpdateTagColorInput;
use banban::errors::AppError;

#[test]
fn string_to_color_exact_values() {
    assert_eq!(string_to_color("abc"), 0x2f59c0);
    assert_eq!(string_to_color("urgent"), 0xf00964);
    assert_eq!(string_to_color("a"), 0xe02acf);
    assert_eq!(string_to_color(""), 0);
}

#[test]
fn int_to_rgb_masks_each_byte() {
    assert_eq!(int_to_rgb(0x123456), (0x120000, 0x3400, 0x56));
    assert_eq!(int_to_rgb(0xffffff), (0xff0000, 0xff00, 0xff));
    assert_eq!(int_to_rgb(0), (0, 0, 0));
}

#[test]
fn rgb_string_to_int_parses_hex() {
    assert_eq!(rgb_string_to_int("ff00ff").unwrap(), 0xff00ff);
    assert_eq!(rgb_string_to_int("FF00FF").unwrap(), 0xff00ff);
    assert_eq!(rgb_string_to_int("0").unwrap(), 0);
    assert_eq!(rgb_string_to_int("+10").unwrap(), 16);
    assert_eq!(rgb_string_to_int("-10").unwrap(), -16);
    assert_eq!(rgb_string_to_int("7fffffff").unwrap(), i32::MAX);
    assert_eq!(rgb_string_to_int("-80000000").unwrap(), i32::MIN);
}

#[test]
fn rgb_string_to_int_rejects_bad_input() {
    assert_eq!(rgb_string_to_int("").unwrap_err(), AppError::InvalidColor);
    assert_eq!(rgb_string_to_int("+").unwrap_err(), AppError::InvalidColor);
    assert_eq!(rgb_string_to_int("xyz").unwrap_err(), AppError::InvalidColor);
    assert_eq!(rgb_string_to_int("12 4").unwrap_err(), AppError::InvalidColor);
    assert_eq!(rgb_string_to_int("80000000").unwrap_err(), AppError::InvalidColor);
    assert_eq!(rgb_string_to_int("-80000001").unwrap_err(), AppError::InvalidColor);
}

#[test]
fn rgb_int_to_string_pads_on_the_right() {
    assert_eq!(rgb_int_to_string(0xabcdef), "#ABCDEF");
    assert_eq!(rgb_int_to_string(0), "#000000");
    // a one-digit byte keeps its digit first and pads with a zero
    assert_eq!(rgb_int_to_string(0x0a141e), "#A0141E");
    assert_eq!(rgb_int_to_string(0x010203), "#102030");
}

#[test]
fn hex_round_trip_for_two_digit_bytes() {
    for color in [0x102030, 0xaabbcc, 0xffffff, 0x994422] {
        let text = rgb_int_to_string(color);
        assert_eq!(rgb_string_to_int(&text[1..]).unwrap(), color);
    }
}

#[test]
fn created_tag_is_colored_by_its_name() {
    let mut b = Board::new();
    let tag = b
        .create_tag(CreateTagInput {
            tag_name: "urgent".to_string(),
            category_id: None,
        })
        .unwrap();
    assert_eq!(tag.color, 0xf00964);
}

#[test]
fn update_tag_color_parses_and_stores() {
    let mut b = Board::new();
    b.create_tag(CreateTagInput {
        tag_name: "t".to_string(),
        category_id: None,
    })
    .unwrap();

    b.update_tag_color(UpdateTagColorInput {
        category_tag_id: 1,
        color: "ff00ff".to_string(),
    })
    .unwrap();
    assert_eq!(b.find_tag_by_id(1).unwrap().color, 0xff00ff);

    let bad = b.update_tag_color(UpdateTagColorInput {
        category_tag_id: 1,
        color: "not hex".to_string(),
    });
    assert_eq!(bad.unwrap_err(), AppError::InvalidColor);
    assert_eq!(b.find_tag_by_id(1).unwrap().color, 0xff00ff);
}

#[test]
fn error_messages_name_the_failure() {
    assert_eq!(AppError::RowNotFound.message(), "row not found");
    assert_eq!(AppError::InvalidOrdinal.message(), "ordinal out of range");
    assert_eq!(AppError::InvalidColor.message(), "invalid color");
}
