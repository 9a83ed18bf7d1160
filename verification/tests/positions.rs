use zen_build::model::{InstanceDoc, InstanceKind, SchematicDoc};
use zen_build::positions::{check_moves, content_hash_of, digest_hex, position_keys};

fn b(s: &str) -> Vec<u8> {
    s.as_bytes().to_vec()
}

fn text(v: &[u8]) -> String {
    String::from_utf8(v.to_vec()).unwrap()
}

#[test]
fn content_hash_is_hex_sha256() {
    assert_eq!(
        text(&content_hash_of(b"")),
        "e3b0c44298fc1c149afbf4c8996fb92427ae41e4649b934ca495991b7852b855"
    );
    assert_eq!(
        text(&content_hash_of(b"abc")),
        "ba7816bf8f01cfea414140de5dae2223b00361a396177a9cb410ff61f20015ad"
    );
    assert_eq!(content_hash_of(b"abc"), content_hash_of(b"abc"));
    assert_ne!(content_hash_of(b"abc"), content_hash_of(b"abd"));
    assert_eq!(text(&digest_hex(&[0x00, 0x0f, 0xa5, 0xff])), "000fa5ff");
}

fn inst(path: &str, kind: InstanceKind) -> InstanceDoc {
    InstanceDoc {
        path: b(path),
        kind,
        type_label: b("T"),
        source_file: None,
        refdes: None,
        text_attributes: vec![],
        children: vec![],
        pins: vec![],
    }
}

fn sch() -> SchematicDoc {
    SchematicDoc {
        root_module: b("top"),
        instances: vec![
            inst("root", InstanceKind::Module),
            inst("root.DIV", InstanceKind::Module),
            inst("root.DIV.R1", InstanceKind::Component),
            inst("root.LED", InstanceKind::Component),
        ],
        nets: vec![],
        by_refdes: vec![],
    }
}

#[test]
fn moving_a_module_is_rejected() {
    let s = sch();
    assert!(text(&check_moves(&s, &vec![b("root")]).err().unwrap()).contains("not a component"));
    assert!(check_moves(&s, &vec![b("root.LED"), b("root.DIV.R1")]).is_ok());
    assert_eq!(
        text(&check_moves(&s, &vec![b("root.LED"), b("root.DIV")]).err().unwrap()),
        "root.DIV is a Module, not a component — positions are per component; move its component descendants instead"
    );
    assert_eq!(text(&check_moves(&s, &vec![b("root.NOPE")]).err().unwrap()), "no such instance: root.NOPE");
}

#[test]
fn position_keys_strip_the_root() {
    let keys = position_keys(&sch()).unwrap();
    assert_eq!(keys, vec![(b("root.DIV.R1"), b("DIV.R1")), (b("root.LED"), b("LED"))]);
    let mut odd = sch();
    odd.instances.push(inst("other.X", InstanceKind::Component));
    assert_eq!(text(&position_keys(&odd).err().unwrap()), "component path outside root: other.X");
}
