use zen_build::names::child_path;
use zen_build::text::{apply_edits, TextEdit};
use zen_build::writers::{migrate_net_position_keys, migrate_position_keys};
use zen_build::scaffold::{install_request, AddComponentRequest};

fn edit(start: usize, end: usize, text: &str) -> TextEdit {
    TextEdit { start, end, text: text.as_bytes().to_vec() }
}

#[test]
fn no_edits_keep_the_text() {
    assert_eq!(apply_edits(b"abc\n", vec![]), Some(b"abc\n".to_vec()));
}

#[test]
fn one_edit_replaces_its_span_only() {
    assert_eq!(apply_edits(b"R1 = Resistor()", vec![edit(0, 2, "R2")]), Some(b"R2 = Resistor()".to_vec()));
}

#[test]
fn two_edits_commute_and_overlaps_are_refused() {
    let a = apply_edits(b"0123456789", vec![edit(1, 2, "x"), edit(5, 7, "yy")]);
    let b = apply_edits(b"0123456789", vec![edit(5, 7, "yy"), edit(1, 2, "x")]);
    assert_eq!(a, Some(b"0x234yy789".to_vec()));
    assert_eq!(a, b);
    assert_eq!(apply_edits(b"0123456789", vec![edit(1, 5, "x"), edit(3, 7, "y")]), None);
}

#[test]
fn migrated_keys_migrate_back() {
    let keys = vec![b"LED".to_vec(), b"LED.D".to_vec(), b"LEDX".to_vec(), b"R1".to_vec()];
    let moved = migrate_position_keys(&keys, b"LED", b"STATUS");
    assert_eq!(
        moved,
        vec![(b"LED".to_vec(), b"STATUS".to_vec()), (b"LED.D".to_vec(), b"STATUS.D".to_vec())]
    );
    let new_keys: Vec<Vec<u8>> = moved.iter().map(|(_, n)| n.clone()).collect();
    let back = migrate_position_keys(&new_keys, b"STATUS", b"LED");
    let restored: Vec<Vec<u8>> = back.iter().map(|(_, n)| n.clone()).collect();
    assert_eq!(restored, vec![b"LED".to_vec(), b"LED.D".to_vec()]);
}

#[test]
fn child_paths_join_with_a_dot() {
    assert_eq!(child_path(b"root.power", b"C1"), b"root.power.C1".to_vec());
}

#[test]
fn net_keys_migrate_only_with_numeric_suffixes() {
    let keys = vec![b"VCC".to_vec(), b"VCC.2".to_vec(), b"VCC.R".to_vec(), b"VCC.".to_vec(), b"VCCX.1".to_vec()];
    let moved = migrate_net_position_keys(&keys, b"VCC", b"V3V3");
    assert_eq!(
        moved,
        vec![
            (b"VCC".to_vec(), b"V3V3".to_vec()),
            (b"VCC.2".to_vec(), b"V3V3.2".to_vec()),
            (b"VCC.".to_vec(), b"V3V3.".to_vec()),
        ]
    );
}

#[test]
fn add_request_becomes_an_install_request() {
    let req = AddComponentRequest {
        name: b"LDO".to_vec(),
        mpn: Some(b"AP2112K".to_vec()),
        lcsc: Some(b"C51118".to_vec()),
        overwrite: true,
        ..AddComponentRequest::default()
    };
    let ir = install_request(&req, b"(kicad_symbol_lib)".to_vec(), None);
    assert_eq!(ir.name, b"LDO".to_vec());
    assert_eq!(ir.symbol_kicad_sym, b"(kicad_symbol_lib)".to_vec());
    assert_eq!(ir.mpn, Some(b"AP2112K".to_vec()));
    assert_eq!(ir.lcsc, Some(b"C51118".to_vec()));
    assert_eq!(ir.manufacturer, None);
    assert!(ir.footprint_kicad_mod.is_none());
    assert!(ir.extra_assets.is_empty() && ir.provenance.is_empty() && ir.assets.is_empty());
    assert!(ir.overwrite);
}
