use zen_build::flow::{flow_edges, owner, touch_of, touch_pairs};
use zen_build::layering::{assign_columns, break_cycles};
use zen_build::model::{NetDoc, PinDoc, PortRef, SchematicDoc};
use zen_build::packing::{attachment_stubs, layer_flow, plan_rails, units, Kid};
use zen_build::rails::RailRole;

fn b(s: &str) -> Vec<u8> {
    s.as_bytes().to_vec()
}

fn port(c: &str, p: &str) -> PortRef {
    PortRef { component: b(c), pin: b(p) }
}

fn net(name: &str, kind: &str, ports: Vec<PortRef>) -> NetDoc {
    NetDoc { name: b(name), kind: b(kind), ports }
}

fn pin(name: &str, net: Option<&str>) -> PinDoc {
    PinDoc { name: b(name), net: net.map(b) }
}

fn kid(path: &str, role: RailRole, pins: Vec<PinDoc>) -> Kid {
    Kid { path: b(path), role, pins }
}

fn sch(nets: Vec<NetDoc>) -> SchematicDoc {
    SchematicDoc { root_module: b("top"), instances: vec![], nets, by_refdes: vec![] }
}

#[test]
fn back_edges_are_dropped() {
    let kept = break_cycles(3, &vec![(0, 1), (1, 2), (2, 0)]);
    assert_eq!(kept, vec![(0, 1), (1, 2)]);
    let (kept, col) = assign_columns(3, &vec![(0, 1), (1, 2), (2, 0)]);
    assert_eq!(kept, vec![(0, 1), (1, 2)]);
    assert_eq!(col, vec![0, 1, 2]);
}

#[test]
fn columns_are_longest_paths() {
    let edges = vec![(0, 1), (0, 2), (0, 3), (1, 3), (2, 3)];
    let (kept, col) = assign_columns(4, &edges);
    // Depth first from 0: down 1 to 3, then 2 (3 already done), then 0 to 3.
    assert_eq!(kept, vec![(0, 1), (1, 3), (0, 2), (2, 3), (0, 3)]);
    assert_eq!(col, vec![0, 1, 1, 2]);
    // An edge into a finished vertex (a cross edge) is kept.
    let (kept, col) = assign_columns(2, &vec![(1, 0)]);
    assert_eq!(kept, vec![(1, 0)]);
    assert_eq!(col, vec![1, 0]);
    let (kept, col) = assign_columns(3, &vec![]);
    assert!(kept.is_empty());
    assert_eq!(col, vec![0, 0, 0]);
}

#[test]
fn owners_match_by_path_prefix() {
    let kids = vec![b("root.R1"), b("root.DIV")];
    assert_eq!(owner(&kids, b"root.R1"), Some(0));
    assert_eq!(owner(&kids, b"root.DIV.R2"), Some(1));
    assert_eq!(owner(&kids, b"root.R10"), None);
    assert_eq!(owner(&kids, b"root.DIVX"), None);
}

#[test]
fn drivers_point_edges_downstream() {
    let kids = vec![b("root.R1"), b("root.R2"), b("root.U1")];
    let unit_of = vec![Some(0), Some(1), Some(2)];
    let t = touch_of(&kids, &unit_of, &vec![port("root.U1", "OUT"), port("root.R1", "P1")]);
    assert_eq!(t, vec![(0, false, true), (2, true, false)]);
    assert_eq!(touch_pairs(&t), vec![(2, 0)]);
    let nets = vec![
        net("A", "Net", vec![port("root.R1", "P2"), port("root.R2", "P1")]),
        net("B", "Net", vec![port("root.U1", "OUT"), port("root.R1", "P1")]),
        net("C", "Net", vec![port("root.R2", "P1"), port("root.R1", "P2")]),
        net("VCC", "Power", vec![port("root.R1", "P1"), port("root.U1", "VIN")]),
        net("WIDE", "Net", vec![
            port("root.R1", "1"),
            port("root.R2", "1"),
            port("root.U1", "1"),
            port("root.R1", "2"),
            port("root.R2", "2"),
        ]),
    ];
    let edges = flow_edges(&kids, &unit_of, &nets);
    assert_eq!(edges, vec![((0, 1), b("A")), ((2, 0), b("B"))]);
}

#[test]
fn rail_passives_attach_fuse_or_bank() {
    let s = sch(vec![
        net("VCC", "Power", vec![port("root.R1", "P1"), port("root.C1", "P1"), port("root.RA", "P1")]),
        net("GND", "Ground", vec![port("root.C1", "P2"), port("root.RB", "P2")]),
        net("SIG", "Net", vec![port("root.U1", "OUT"), port("root.R1", "P2")]),
        net("MID", "Net", vec![port("root.RA", "P2"), port("root.RB", "P1")]),
    ]);
    let kids = vec![
        kid("root.U1", RailRole::Flow, vec![pin("OUT", Some("SIG"))]),
        kid("root.R1", RailRole::PullUp, vec![pin("P1", Some("VCC")), pin("P2", Some("SIG"))]),
        kid("root.C1", RailRole::Decoupler, vec![pin("P1", Some("VCC")), pin("P2", Some("GND"))]),
        kid("root.RA", RailRole::PullUp, vec![pin("P1", Some("VCC")), pin("P2", Some("MID"))]),
        kid("root.RB", RailRole::PullDown, vec![pin("P1", Some("MID")), pin("P2", Some("GND"))]),
    ];
    let plan = plan_rails(&s, &kids);
    assert_eq!(plan.attached_to, vec![(1, 0)]);
    assert_eq!(plan.bank, vec![2]);
    assert_eq!(plan.fused, vec![(3, 4)]);
    assert_eq!(plan.flow, vec![0, 3]);
    assert_eq!(units(&plan), vec![vec![0], vec![3, 4]]);
    let stubs = attachment_stubs(&s, &kids, &plan);
    assert_eq!(stubs.len(), 2);
    assert_eq!(stubs[0].a, (b("root.R1"), b("P2")));
    assert_eq!(stubs[0].b, (b("root.U1"), b("OUT")));
    assert_eq!(stubs[1].a, (b("root.RA"), b("P2")));
    assert_eq!(stubs[1].b, (b("root.RB"), b("P1")));

    let layering = layer_flow(&s, &kids);
    assert_eq!(layering.unit_of, vec![Some(0), None, None, Some(1), Some(1)]);
    assert!(layering.edges.is_empty());
    assert_eq!(layering.column, vec![0, 0]);
}
