use zen_build::glyph::{map_pins, pin_key, resolve_variant, symbol_class, MapStrategy, Orient};
use zen_build::model::PinDoc;

fn names(list: &[&str]) -> Vec<Vec<u8>> {
    list.iter().map(|s| s.as_bytes().to_vec()).collect()
}

#[test]
fn horz_only_bases_resolve_via_axis_fallback() {
    // The symbol table ships zener diodes on the two axes only.
    let known = names(&["zener_diode_horz", "zener_diode_vert", "boxresistor_right", "boxresistor_up"]);
    let name = resolve_variant(b"zener_diode", Orient::Right, &known).unwrap();
    assert_eq!(name, b"zener_diode_horz".to_vec());
    let name = resolve_variant(b"zener_diode", Orient::Up, &known).unwrap();
    assert_eq!(name, b"zener_diode_vert".to_vec());
    assert!(resolve_variant(b"no_such_symbol", Orient::Right, &known).is_none());
}

#[test]
fn direction_variant_wins_over_the_axis() {
    let known = names(&["fuse_right", "fuse_horz", "fuse_vert"]);
    assert_eq!(resolve_variant(b"fuse", Orient::Right, &known).unwrap(), b"fuse_right".to_vec());
    assert_eq!(resolve_variant(b"fuse", Orient::Left, &known).unwrap(), b"fuse_horz".to_vec());
    assert_eq!(resolve_variant(b"fuse", Orient::Down, &known).unwrap(), b"fuse_vert".to_vec());
}

#[test]
fn orientation_suffixes() {
    assert_eq!(Orient::Right.suffix(), b"right".to_vec());
    assert_eq!(Orient::Up.suffix(), b"up".to_vec());
    assert_eq!(Orient::Left.suffix(), b"left".to_vec());
    assert_eq!(Orient::Down.suffix(), b"down".to_vec());
}

#[test]
fn pin_keys_normalize_roles() {
    assert_eq!(pin_key(b" C "), b"collector".to_vec());
    assert_eq!(pin_key(b"Gate"), b"gate".to_vec());
    assert_eq!(pin_key(b"IN+"), b"inp1".to_vec());
    assert_eq!(pin_key(b"-"), b"inp2".to_vec());
    assert_eq!(pin_key(b"OUTPUT"), b"out".to_vec());
    assert_eq!(pin_key(b"\tVcc\n"), b"vcc".to_vec());
}

fn pins(list: &[&str]) -> Vec<PinDoc> {
    list.iter().map(|n| PinDoc { name: n.as_bytes().to_vec(), net: None }).collect()
}

fn ports(list: &[&[&str]]) -> Vec<Vec<Vec<u8>>> {
    list.iter().map(|labels| names(labels)).collect()
}

#[test]
fn labeled_symbols_map_pins_and_fall_back_safely() {
    // Semantic pin names map onto the transistor glyph.
    let known = names(&["npn_bipolar_transistor_right", "npn_bipolar_transistor_up"]);
    let name = resolve_variant(b"npn_bipolar_transistor", Orient::Right, &known).unwrap();
    assert_eq!(name, b"npn_bipolar_transistor_right".to_vec());
    let glyph_ports = ports(&[&["1", "collector"], &["2", "emitter"], &["3", "base"]]);
    let class = symbol_class(Some(b"npn"), 3);
    let (base, strategy) = class.symbol.unwrap();
    assert_eq!(base, b"npn_bipolar_transistor".to_vec());
    assert_eq!(strategy, MapStrategy::Labeled);
    let map = map_pins(strategy, &pins(&["C", "B", "E"]), &glyph_ports).unwrap();
    assert_eq!(map.len(), 3);
    assert_eq!(map, vec![0, 2, 1]);

    // Unmappable pin names never render a wrong glyph.
    assert!(map_pins(strategy, &pins(&["X", "Y", "Z"]), &glyph_ports).is_none());
}

#[test]
fn two_pins_go_to_ports_one_and_two() {
    // Ports listed in the variant's own order: "2" first.
    let glyph_ports = ports(&[&["2", "right"], &["1", "left"]]);
    let map = map_pins(MapStrategy::TwoPin, &pins(&["P2", "P1"]), &glyph_ports).unwrap();
    // P1 sorts left, goes to port "1" (second port); P2 to port "2".
    assert_eq!(map, vec![0, 1]);
    // A pin count that differs from the port count is a chip.
    assert!(map_pins(MapStrategy::TwoPin, &pins(&["P1"]), &glyph_ports).is_none());
    // A missing port label is a chip.
    let unlabeled = ports(&[&["a"], &["b"]]);
    assert!(map_pins(MapStrategy::TwoPin, &pins(&["P1", "P2"]), &unlabeled).is_none());
}

#[test]
fn two_pins_on_one_port_fall_back() {
    let glyph_ports = ports(&[&["collector"], &["base"], &["emitter"]]);
    assert!(map_pins(MapStrategy::Labeled, &pins(&["C", "collector", "E"]), &glyph_ports).is_none());
    assert!(map_pins(MapStrategy::Labeled, &pins(&["C", "B"]), &glyph_ports).is_none());
}

#[test]
fn component_classes() {
    let r = symbol_class(Some(b"resistor"), 2);
    assert_eq!(r.symbol.unwrap(), (b"boxresistor".to_vec(), MapStrategy::TwoPin));
    assert_eq!(r.ftype, b"simple_resistor".to_vec());
    assert_eq!(r.numeric, Some(b"resistance".to_vec()));
    let led = symbol_class(Some(b"led"), 2);
    assert_eq!(led.symbol.unwrap(), (b"led".to_vec(), MapStrategy::TwoPin));
    assert_eq!(led.numeric, None);
    let tvs = symbol_class(Some(b"tvs"), 2);
    assert_eq!(tvs.symbol.unwrap().0, b"zener_diode".to_vec());
    // Pin-count mismatches and unknown types are chips.
    let odd = symbol_class(Some(b"resistor"), 3);
    assert!(odd.symbol.is_none());
    assert_eq!(odd.ftype, b"simple_chip".to_vec());
    assert!(symbol_class(Some(b"widget"), 2).symbol.is_none());
    assert!(symbol_class(None, 2).symbol.is_none());
    let amp = symbol_class(Some(b"opamp"), 5);
    assert_eq!(amp.symbol.unwrap(), (b"opamp_with_power".to_vec(), MapStrategy::Labeled));
}
