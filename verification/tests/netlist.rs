use zen_build::model::{InstanceKind, PinDoc};
use zen_build::netlist::{position_target, assemble_schematic, dotted_path, RawChild, RawInstance, RawNet, RawPort};

fn b(s: &str) -> Vec<u8> {
    s.as_bytes().to_vec()
}

fn segs(path: &[&str]) -> Vec<Vec<u8>> {
    path.iter().map(|s| b(s)).collect()
}

fn resolved(comp: &[&str], pin: &str) -> RawPort {
    RawPort { resolved: Some((segs(comp), b(pin))), path: vec![] }
}

fn raw(path: &[&str]) -> RawPort {
    RawPort { resolved: None, path: segs(path) }
}

fn child(name: &str, path: &[&str], kind: Option<InstanceKind>) -> RawChild {
    RawChild { name: b(name), path: segs(path), kind }
}

fn instance(path: &[&str], kind: InstanceKind, module: &str, children: Vec<RawChild>) -> RawInstance {
    RawInstance {
        path: segs(path),
        kind,
        module_name: b(module),
        source_stem: Some(b("Board")),
        source_file: b("board.zen"),
        refdes: None,
        attributes: vec![],
        children,
    }
}

#[test]
fn paths_are_rooted_and_dotted() {
    assert_eq!(dotted_path(&vec![]), b("root"));
    assert_eq!(dotted_path(&segs(&["DIV", "R1"])), b("root.DIV.R1"));
}

#[test]
fn schematic_document_is_assembled() {
    let nets = vec![
        RawNet { name: b("GND"), kind: b("Ground"), ports: vec![resolved(&["R1"], "P2"), raw(&["U1", "GND"])] },
        RawNet { name: b("VIN"), kind: b("Power"), ports: vec![resolved(&["R1"], "P1"), resolved(&["C1"], "1")] },
    ];
    let mut r1 = instance(&["R1"], InstanceKind::Component, "Resistor", vec![
        child("P2", &["R1", "P2"], Some(InstanceKind::Port)),
        child("P1", &["R1", "P1"], Some(InstanceKind::Port)),
    ]);
    r1.refdes = Some(b("R1"));
    r1.attributes = vec![(b("__signature"), b("x")), (b("value"), b("10k"))];
    let mut u1 = instance(&["U1"], InstanceKind::Component, "Chip", vec![]);
    u1.refdes = Some(b("U1"));
    let root = instance(&[], InstanceKind::Module, "<root>", vec![
        child("U1", &["U1"], Some(InstanceKind::Component)),
        child("R1", &["R1"], Some(InstanceKind::Component)),
    ]);
    let sch = assemble_schematic(b("Board"), &nets, &vec![u1, root, r1]);
    assert_eq!(sch.root_module, b("Board"));
    // Nets keep their order; ports sort by component, then pin; an
    // unresolved port splits its path at the last segment.
    assert_eq!(sch.nets.len(), 2);
    assert_eq!(sch.nets[0].name, b("GND"));
    let gnd: Vec<(Vec<u8>, Vec<u8>)> = sch.nets[0].ports.iter().map(|p| (p.component.clone(), p.pin.clone())).collect();
    assert_eq!(gnd, vec![(b("root.R1"), b("P2")), (b("root.U1"), b("GND"))]);
    // Instances come in path order.
    let paths: Vec<Vec<u8>> = sch.instances.iter().map(|i| i.path.clone()).collect();
    assert_eq!(paths, vec![b("root"), b("root.R1"), b("root.U1")]);
    let root = &sch.instances[0];
    assert_eq!(root.type_label, b("Board"));
    assert_eq!(root.children, vec![(b("R1"), b("root.R1")), (b("U1"), b("root.U1"))]);
    assert!(root.pins.is_empty());
    let r1 = &sch.instances[1];
    assert_eq!(r1.type_label, b("Resistor"));
    assert_eq!(r1.source_file, Some(b("board.zen")));
    assert_eq!(r1.text_attributes, vec![(b("value"), b("10k"))]);
    assert!(r1.children.is_empty());
    let pins: Vec<(Vec<u8>, Option<Vec<u8>>)> = r1.pins.iter().map(|p: &PinDoc| (p.name.clone(), p.net.clone())).collect();
    assert_eq!(pins, vec![(b("P1"), Some(b("VIN"))), (b("P2"), Some(b("GND")))]);
    // A pin that only a net names is still a pin.
    let u1 = &sch.instances[2];
    assert_eq!(u1.pins.len(), 1);
    assert_eq!(u1.pins[0].name, b("GND"));
    assert_eq!(u1.pins[0].net, Some(b("GND")));
    assert_eq!(sch.by_refdes, vec![(b("R1"), b("root.R1")), (b("U1"), b("root.U1"))]);
}

#[test]
fn position_keys_place_components_of_their_module() {
    assert_eq!(position_target(b"root.psu", b"comp:ldo.C1"), Some(b"root.psu.ldo.C1".to_vec()));
    assert_eq!(position_target(b"root", b"comp:U1@2"), Some(b"root.U1".to_vec()));
    assert_eq!(position_target(b"root", b"net:VCC.1"), None);
    assert_eq!(position_target(b"root", b"comp"), None);
}
