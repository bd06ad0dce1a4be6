use yolo_labels::number::{parse_decimal, parse_small_int};
use yolo_labels::text::split_chars;
use yolo_labels::{Decimal, Label, LabelError, Labels, Unnormaliser};

const LINE: &str = "-1 0.603856 0.368098 0.048642 0.075372";

fn value(d: Decimal) -> f32 {
    d.mantissa as f32 * 10f32.powi(d.exponent as i32)
}

fn within(a: f32, b: f32, c: f32) {
    assert!(a < b);
    assert!(b < c);
}

fn dec(s: &str) -> Option<Decimal> {
    parse_decimal(&s.chars().collect())
}

#[test]
fn label_from_string() {
    let label = Label::parse(LINE).unwrap();
    assert_eq!(label.label_index, -1);
    within(0.603756, value(label.x_centre), 0.603956);
    within(0.367098, value(label.y_centre), 0.369098);
    within(0.048542, value(label.width), 0.048742);
    within(0.075362, value(label.height), 0.075382);
}

#[test]
fn labels_from_string() {
    let labels_string = "-1 0.603856 0.368098 0.048642 0.075372\n\
                         -1 0.603856 0.368098 0.048642 0.075372";
    let labels = Labels::parse(labels_string).unwrap();
    assert_eq!(labels.len(), 2);
}

#[test]
fn try_iterating_labels() {
    let labels_string = "-1 0.603856 0.368098 0.048642 0.075372\n\
                         -1 0.603856 0.368098 0.048642 0.075372";
    let labels = Labels::parse(labels_string).unwrap();
    for label in labels.iter() {
        assert_eq!(label.label_index, -1);
    }
}

#[test]
fn five_fields_read_exactly() {
    let label = Label::parse(LINE).unwrap();
    assert_eq!(label.x_centre, Decimal { mantissa: 603856, exponent: -6 });
    assert_eq!(label.y_centre, Decimal { mantissa: 368098, exponent: -6 });
    assert_eq!(label.width, Decimal { mantissa: 48642, exponent: -6 });
    assert_eq!(label.height, Decimal { mantissa: 75372, exponent: -6 });
    assert_eq!(label.probability, None);
    assert_eq!(label.object_id, None);
}

#[test]
fn six_and_seven_fields() {
    let six = Label::parse("3 0.5 0.5 0.25 0.25 0.9").unwrap();
    assert_eq!(six.label_index, 3);
    assert_eq!(six.probability, Some(Decimal { mantissa: 9, exponent: -1 }));
    assert_eq!(six.object_id, None);
    let seven = Label::parse("3 0.5 0.5 0.25 0.25 0.9 -7").unwrap();
    assert_eq!(seven.probability, Some(Decimal { mantissa: 9, exponent: -1 }));
    assert_eq!(seven.object_id, Some(-7));
}

#[test]
fn extra_fields_ignored() {
    let seven = Label::parse("3 0.5 0.5 0.25 0.25 0.9 7").unwrap();
    let nine = Label::parse("3 0.5 0.5 0.25 0.25 0.9 7 junk more").unwrap();
    assert_eq!(seven, nine);
}

#[test]
fn too_few_fields() {
    assert_eq!(Label::parse("-1 0.6 0.3 0.04"), Err(LabelError::TooFewFields));
    assert_eq!(Label::parse(""), Err(LabelError::TooFewFields));
}

#[test]
fn non_numeric_field() {
    assert_eq!(
        Label::parse("-1 0.6 abc 0.04 0.07"),
        Err(LabelError::BadField { index: 2 })
    );
    assert_eq!(
        Label::parse("x 0.6 0.3 0.04 0.07"),
        Err(LabelError::BadField { index: 0 })
    );
    assert_eq!(
        Label::parse("1 0.6 0.3 0.04 0.07 0.5 z"),
        Err(LabelError::BadField { index: 6 })
    );
}

#[test]
fn doubled_space_is_an_empty_field() {
    assert_eq!(
        Label::parse("-1  0.6 0.3 0.04 0.07"),
        Err(LabelError::BadField { index: 1 })
    );
}

#[test]
fn carriage_return_breaks_last_field() {
    assert_eq!(
        Labels::parse("-1 0.6 0.3 0.04 0.07\r\n-1 0.6 0.3 0.04 0.07").err(),
        Some(LabelError::BadField { index: 4 })
    );
}

#[test]
fn class_index_range() {
    assert_eq!(Label::parse("-128 0 0 0 0").unwrap().label_index, -128);
    assert_eq!(Label::parse("+127 0 0 0 0").unwrap().label_index, 127);
    assert_eq!(Label::parse("128 0 0 0 0"), Err(LabelError::BadField { index: 0 }));
    assert_eq!(Label::parse("- 0 0 0 0"), Err(LabelError::BadField { index: 0 }));
}

#[test]
fn small_int_text() {
    let read = |s: &str| parse_small_int(&s.chars().collect());
    assert_eq!(read("0"), Some(0));
    assert_eq!(read("-0"), Some(0));
    assert_eq!(read("42"), Some(42));
    assert_eq!(read("-129"), None);
    assert_eq!(read(""), None);
    assert_eq!(read("+"), None);
    assert_eq!(read("1.0"), None);
}

#[test]
fn decimal_text_forms() {
    assert_eq!(dec("1e-05"), Some(Decimal { mantissa: 1, exponent: -5 }));
    assert_eq!(dec(".5"), Some(Decimal { mantissa: 5, exponent: -1 }));
    assert_eq!(dec("1."), Some(Decimal { mantissa: 1, exponent: 0 }));
    assert_eq!(dec("+2.5E+3"), Some(Decimal { mantissa: 25, exponent: 2 }));
    assert_eq!(dec("-0.125"), Some(Decimal { mantissa: -125, exponent: -3 }));
    assert_eq!(dec("7"), Some(Decimal { mantissa: 7, exponent: 0 }));
}

#[test]
fn decimal_text_rejected() {
    assert_eq!(dec(""), None);
    assert_eq!(dec("."), None);
    assert_eq!(dec("1e"), None);
    assert_eq!(dec("e5"), None);
    assert_eq!(dec("1.2.3"), None);
    assert_eq!(dec("nan"), None);
    assert_eq!(dec("0.5x"), None);
}

#[test]
fn decimal_long_text() {
    assert_eq!(
        dec("9223372036854775807"),
        Some(Decimal { mantissa: 922337203685477580, exponent: 1 })
    );
    assert_eq!(
        dec("999999999999999999"),
        Some(Decimal { mantissa: 999999999999999999, exponent: 0 })
    );
    assert_eq!(
        dec("0.10000000000000000000"),
        Some(Decimal { mantissa: 100000000000000000, exponent: -18 })
    );
    assert_eq!(
        dec("0.000000000000000000000001234"),
        Some(Decimal { mantissa: 1234, exponent: -27 })
    );
    assert_eq!(dec("1e2147483648"), Some(Decimal { mantissa: 1, exponent: 2147483648 }));
    assert_eq!(
        dec("1e99999999999999999999"),
        Some(Decimal { mantissa: 1, exponent: 1_000_000_000_000_000_000 })
    );
    assert_eq!(
        dec("-5e-99999999999999999999"),
        Some(Decimal { mantissa: -5, exponent: -1_000_000_000_000_000_000 })
    );
}

#[test]
fn long_fields_still_parse() {
    let label = Label::parse("2 0.10000000000000000000 0.5 0.12345678901234567 0.25 0.99999999999999999999 4")
        .unwrap();
    within(0.0999, value(label.x_centre), 0.1001);
    assert_eq!(label.width, Decimal { mantissa: 12345678901234567, exponent: -17 });
    assert_eq!(
        label.probability,
        Some(Decimal { mantissa: 999999999999999999, exponent: -18 })
    );
    assert_eq!(label.object_id, Some(4));
    assert!(label.can_unnormalise_for((u32::MAX, u32::MAX)));
    let pixels = label.unnormalise((2000, 1300));
    assert_eq!(pixels.width, Decimal { mantissa: 24691357802469134000, exponent: -17 });
}

#[test]
fn collection_keeps_line_order() {
    let text = "0 0.1 0.1 0.1 0.1\n1 0.2 0.2 0.2 0.2\n2 0.3 0.3 0.3 0.3";
    let labels = Labels::parse(text).unwrap();
    assert_eq!(labels.len(), 3);
    let classes: Vec<i8> = labels.iter().map(|l| l.label_index).collect();
    assert_eq!(classes, vec![0, 1, 2]);
    assert_eq!(labels.as_slice()[1], Label::parse("1 0.2 0.2 0.2 0.2").unwrap());
}

#[test]
fn empty_text_is_malformed() {
    assert_eq!(Labels::parse("").err(), Some(LabelError::TooFewFields));
    assert_eq!(
        Labels::parse("0 0.1 0.1 0.1 0.1\n").err(),
        Some(LabelError::TooFewFields)
    );
}

#[test]
fn first_bad_line_gives_the_error() {
    let text = "0 0.1 0.1 0.1 0.1\n1 0.2 q 0.2 0.2\n2 0.3";
    assert_eq!(Labels::parse(text).err(), Some(LabelError::BadField { index: 2 }));
}

#[test]
fn unnormalise_scales_box() {
    let label = Label::parse("5 0.5 0.25 0.125 0.1 0.75 3").unwrap();
    assert!(label.can_unnormalise_for((640, 480)));
    let pixels = label.unnormalise((640, 480));
    assert_eq!(pixels.x_centre, Decimal { mantissa: 3200, exponent: -1 });
    assert_eq!(pixels.y_centre, Decimal { mantissa: 12000, exponent: -2 });
    assert_eq!(pixels.width, Decimal { mantissa: 80000, exponent: -3 });
    assert_eq!(pixels.height, Decimal { mantissa: 480, exponent: -1 });
    assert_eq!(pixels.label_index, 5);
    assert_eq!(pixels.probability, label.probability);
    assert_eq!(pixels.object_id, Some(3));
    assert_eq!(label.x_centre, Decimal { mantissa: 5, exponent: -1 });
}

#[test]
fn unnormalise_to_zero_dimensions() {
    let label = Label::parse(LINE).unwrap();
    let pixels = label.unnormalise((0, 0));
    assert_eq!(pixels.x_centre.mantissa, 0);
    assert_eq!(pixels.y_centre.mantissa, 0);
    assert_eq!(pixels.width.mantissa, 0);
    assert_eq!(pixels.height.mantissa, 0);
}

#[test]
fn unnormalise_overflow_is_reported() {
    let mut label = Label::parse("0 0.5 0 0 0").unwrap();
    label.x_centre = Decimal { mantissa: i128::MAX, exponent: 0 };
    assert!(!label.can_unnormalise_for((2, 1)));
    assert!(label.can_unnormalise_for((1, 1)));
    let labels = Labels::parse("0 9223372036854775807 0 0 0").unwrap();
    assert!(labels.can_unnormalise_for((u32::MAX, u32::MAX)));
}

#[test]
fn scale_decimal() {
    let d = Decimal { mantissa: -48642, exponent: -6 };
    assert_eq!(d.scale(2000), Decimal { mantissa: -97284000, exponent: -6 });
}

#[test]
fn round_trip_two_lines() {
    let text = format!("{}\n{}", LINE, LINE);
    let labels = Labels::parse(&text).unwrap();
    assert_eq!(labels.len(), 2);
    assert!(labels.can_unnormalise_for((2000, 1300)));
    let pixels = labels.unnormalise((2000, 1300));
    assert_eq!(pixels.len(), 2);
    for label in pixels.iter() {
        assert_eq!(label.width, Decimal { mantissa: 97284000, exponent: -6 });
        within(97.27, value(label.width), 97.29);
        within(478.52, value(label.y_centre), 478.53);
    }
    assert_eq!(labels.len(), 2);
    assert_eq!(labels.as_slice()[0].width, Decimal { mantissa: 48642, exponent: -6 });
}

#[test]
fn traversals_agree() {
    let labels = Labels::parse("0 0.1 0.1 0.1 0.1\n1 0.2 0.2 0.2 0.2").unwrap();
    let first: Vec<Label> = labels.iter().copied().collect();
    let second: Vec<Label> = labels.iter().copied().collect();
    assert_eq!(first, second);
    assert_eq!(first.len(), 2);
    assert_eq!(first[1].label_index, 1);
}

#[test]
fn split_on_separator() {
    let parts = split_chars(&"a  b".chars().collect(), ' ');
    assert_eq!(parts, vec![vec!['a'], vec![], vec!['b']]);
    let none = split_chars(&Vec::new(), ' ');
    assert_eq!(none, vec![Vec::<char>::new()]);
}
