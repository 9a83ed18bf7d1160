use std::cmp::Ordering;
use zen_build::model::PinDoc;
use zen_build::pins::{is_input_pin, is_output_pin, natural_cmp, split_pins};

fn pin(name: &str) -> PinDoc {
    PinDoc { name: name.as_bytes().to_vec(), net: None }
}

fn names(pins: &[PinDoc]) -> Vec<String> {
    pins.iter().map(|p| String::from_utf8(p.name.clone()).unwrap()).collect()
}

#[test]
fn natural_order_compares_digit_runs_by_value() {
    assert_eq!(natural_cmp(b"P2", b"P10"), Ordering::Less);
    assert_eq!(natural_cmp(b"P10", b"P2"), Ordering::Greater);
    assert_eq!(natural_cmp(b"p2", b"P2"), Ordering::Greater);
    assert_eq!(natural_cmp(b"P2", b"P2"), Ordering::Equal);
    assert_eq!(natural_cmp(b"a", b"B"), Ordering::Less);
    assert_eq!(natural_cmp(b"P02", b"P2"), Ordering::Greater);
}

#[test]
fn natural_order_is_antisymmetric_on_examples() {
    let samples: [&[u8]; 7] = [b"P1", b"P10", b"p1", b"GND", b"gnd", b"x99999999999999999999999", b"x1"];
    for a in samples.iter() {
        assert_eq!(natural_cmp(a, a), Ordering::Equal);
        for b in samples.iter() {
            assert_eq!(natural_cmp(a, b), natural_cmp(b, a).reverse());
        }
    }
}

#[test]
fn oversized_digit_runs_read_as_the_largest_value() {
    // Both runs overflow u64 and read equal; the longer string sorts last.
    assert_eq!(natural_cmp(b"x99999999999999999999999", b"x88888888888888888888888"), Ordering::Greater);
    assert_eq!(natural_cmp(b"x99999999999999999999", b"x18446744073709551615"), Ordering::Greater);
}

#[test]
fn two_pin_components_lean_by_name() {
    let (left, right) = split_pins(&[pin("K"), pin("A")]);
    assert_eq!(names(&left), vec!["A"]);
    assert_eq!(names(&right), vec!["K"]);
    let (left, right) = split_pins(&[pin("OUT"), pin("X")]);
    assert_eq!(names(&left), vec!["X"]);
    assert_eq!(names(&right), vec!["OUT"]);
}

#[test]
fn other_components_halve_in_natural_order() {
    let (left, right) = split_pins(&[pin("P10"), pin("P2"), pin("P1")]);
    assert_eq!(names(&left), vec!["P1", "P2"]);
    assert_eq!(names(&right), vec!["P10"]);
    let (left, right) = split_pins(&[]);
    assert!(left.is_empty() && right.is_empty());
    let (left, right) = split_pins(&[pin("D"), pin("C"), pin("B"), pin("A")]);
    assert_eq!(names(&left), vec!["A", "B"]);
    assert_eq!(names(&right), vec!["C", "D"]);
}

#[test]
fn signal_direction_by_name() {
    assert!(is_output_pin(b"OUT"));
    assert!(is_output_pin(b"Drain"));
    assert!(is_output_pin(b"K"));
    assert!(!is_output_pin(b"k"));
    assert!(is_input_pin(b"VIN"));
    assert!(is_input_pin(b"gate"));
    assert!(!is_input_pin(b"vin"));
    assert!(!is_input_pin(b"OUT"));
}
