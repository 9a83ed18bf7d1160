use zen_build::glyph::Orient;
use zen_build::model::{InstanceDoc, InstanceKind, NetDoc, PinDoc, SchematicDoc};
use zen_build::rails::{drawable_children, net_kind, rail_role, signal_pin, vertical_orient, RailRole};

fn b(s: &str) -> Vec<u8> {
    s.as_bytes().to_vec()
}

fn net(name: &str, kind: &str) -> NetDoc {
    NetDoc { name: b(name), kind: b(kind), ports: vec![] }
}

fn pin(name: &str, net: Option<&str>) -> PinDoc {
    PinDoc { name: b(name), net: net.map(b) }
}

fn inst(path: &str, kind: InstanceKind, pins: Vec<PinDoc>) -> InstanceDoc {
    InstanceDoc {
        path: b(path),
        kind,
        type_label: b("T"),
        source_file: None,
        refdes: None,
        text_attributes: vec![],
        children: vec![],
        pins,
    }
}

fn sch(instances: Vec<InstanceDoc>) -> SchematicDoc {
    SchematicDoc {
        root_module: b("top"),
        instances,
        nets: vec![net("VCC", "Power"), net("GND", "Ground"), net("SIG", "Net"), net("OUT", "Net")],
        by_refdes: vec![],
    }
}

fn two_pin(a: Option<&str>, c: Option<&str>) -> InstanceDoc {
    inst("root.R1", InstanceKind::Component, vec![pin("P1", a), pin("P2", c)])
}

#[test]
fn rail_roles_follow_the_nets_touched() {
    let s = sch(vec![]);
    assert_eq!(rail_role(&s, &two_pin(Some("VCC"), Some("GND"))), RailRole::Decoupler);
    assert_eq!(rail_role(&s, &two_pin(Some("SIG"), Some("VCC"))), RailRole::PullUp);
    assert_eq!(rail_role(&s, &two_pin(Some("GND"), Some("SIG"))), RailRole::PullDown);
    assert_eq!(rail_role(&s, &two_pin(Some("SIG"), Some("OUT"))), RailRole::Flow);
    assert_eq!(rail_role(&s, &two_pin(None, Some("NOPE"))), RailRole::Flow);
    let three = inst("root.U1", InstanceKind::Component, vec![pin("1", Some("VCC")), pin("2", Some("GND")), pin("3", None)]);
    assert_eq!(rail_role(&s, &three), RailRole::Flow);
}

#[test]
fn rail_pins_face_their_rails() {
    let s = sch(vec![]);
    // P1 splits left; the Down variant draws it at the top.
    let pull_up = two_pin(Some("VCC"), Some("SIG"));
    assert_eq!(vertical_orient(&s, &pull_up, RailRole::PullUp), Orient::Down);
    let pull_up_flipped = two_pin(Some("SIG"), Some("VCC"));
    assert_eq!(vertical_orient(&s, &pull_up_flipped, RailRole::PullUp), Orient::Up);
    let pull_down = two_pin(Some("SIG"), Some("GND"));
    assert_eq!(vertical_orient(&s, &pull_down, RailRole::PullDown), Orient::Down);
    let pull_down_flipped = two_pin(Some("GND"), Some("SIG"));
    assert_eq!(vertical_orient(&s, &pull_down_flipped, RailRole::PullDown), Orient::Up);
    let decoupler = two_pin(Some("VCC"), Some("GND"));
    assert_eq!(vertical_orient(&s, &decoupler, RailRole::Decoupler), Orient::Down);
    assert_eq!(vertical_orient(&s, &decoupler, RailRole::Flow), Orient::Right);
    let empty = inst("root.X", InstanceKind::Component, vec![]);
    assert_eq!(vertical_orient(&s, &empty, RailRole::PullUp), Orient::Right);
}

#[test]
fn signal_pin_skips_rail_pins() {
    let s = sch(vec![]);
    let pins = vec![pin("P1", Some("VCC")), pin("P2", Some("SIG"))];
    assert_eq!(signal_pin(&s, &pins), Some(1));
    let unconnected = vec![pin("P1", Some("GND")), pin("P2", None)];
    assert_eq!(signal_pin(&s, &unconnected), Some(1));
    let rails = vec![pin("P1", Some("GND")), pin("P2", Some("VCC"))];
    assert_eq!(signal_pin(&s, &rails), None);
    assert_eq!(net_kind(&s, Some(b"GND")), Some(b("Ground")));
    assert_eq!(net_kind(&s, Some(b"MISSING")), None);
    assert_eq!(net_kind(&s, None), None);
}

#[test]
fn components_come_first_in_natural_order() {
    let mut root = inst("root", InstanceKind::Module, vec![]);
    root.children = vec![
        (b("sub"), b("root.sub")),
        (b("R10"), b("root.R10")),
        (b("port"), b("root.port")),
        (b("R2"), b("root.R2")),
        (b("ghost"), b("root.ghost")),
        (b("A1"), b("root.A1")),
    ];
    let s = sch(vec![
        root,
        inst("root.sub", InstanceKind::Module, vec![]),
        inst("root.R10", InstanceKind::Component, vec![]),
        inst("root.port", InstanceKind::Port, vec![]),
        inst("root.R2", InstanceKind::Component, vec![]),
        inst("root.A1", InstanceKind::Module, vec![]),
    ]);
    let kids = drawable_children(&s, &s.instances[0]);
    let names: Vec<Vec<u8>> = kids.iter().map(|k| k.0.clone()).collect();
    assert_eq!(names, vec![b("R2"), b("R10"), b("A1"), b("sub")]);
    let idx: Vec<usize> = kids.iter().map(|k| k.1).collect();
    assert_eq!(idx, vec![4, 2, 5, 1]);
}
