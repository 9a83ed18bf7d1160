//! The edit layer's worked examples, on real `.zen` text parsed and indexed
//! by the library.

use zen_build::edit::{create_net, EditError};
use zen_build::facts::{module_facts_of, ModuleFacts};
use zen_build::index::FileIndex;
use zen_build::indexer::index_source;
use zen_build::placement::{add_instance, static_plan, AddInstanceRequest};
use zen_build::source::parse_zen;
use zen_build::syntax::Stmt;
use zen_build::wiring::{
    attach_pin_net, connect_pins, disconnect_pin, AttachPinRequest, ConnectOutcome, ConnectPinsRequest,
    PinEndpoint,
};
use zen_build::writers::{migrate_position_keys, removed_position_keys, remove_instances, rename_instance, rename_net, set_attribute};

const GENERIC_RESISTOR: &str = "P1 = io(Net)\nP2 = io(Net)\n\nComponent(\n    name=\"R\",\n    prefix=\"R\",\n    pins={\"1\": P1, \"2\": P2},\n)\n";

fn b(s: &str) -> Vec<u8> {
    s.as_bytes().to_vec()
}

fn text(v: &[u8]) -> String {
    String::from_utf8(v.to_vec()).unwrap()
}

fn index(content: &str) -> FileIndex {
    index_source(b"board.zen", content.as_bytes())
}

fn resistor() -> ModuleFacts {
    module_facts_of(GENERIC_RESISTOR.as_bytes(), b"@stdlib/generics/Resistor.zen")
}

fn place(board: &str, name: &str, attrs: &[(&str, &str)]) -> Result<String, EditError> {
    let facts = resistor();
    let req = AddInstanceRequest {
        module: b("@stdlib/generics/Resistor.zen"),
        name: b(name),
        attrs: attrs.iter().map(|(k, v)| (b(k), b(v))).collect(),
    };
    let ok = vec![true; req.attrs.len()];
    add_instance(board.as_bytes(), &index(board), None, &facts, &req, &ok, &static_plan(&facts)).map(|(t, _)| text(&t))
}

#[test]
fn module_facts_reads_child_and_prefix() {
    let facts = resistor();
    assert_eq!(facts.component_child, Some(b("R")));
    assert_eq!(facts.prefix, Some(b("R")));
    assert_eq!(facts.required_ios, vec![b("P1"), b("P2")]);
}

#[test]
fn add_instance_with_existing_binding_is_one_clean_insertion() {
    let board = "Resistor = Module(\"@stdlib/generics/Resistor.zen\")\n\n\
                 Resistor(name=\"R1\", value=\"1kohm\", package=\"0402\")\n\n\
                 Board(name=\"demo\", layers=2, layout_path=\"layout/demo\")\n";
    let after = place(board, "R2", &[("value", "10kohm"), ("package", "0603")]).unwrap();
    assert_eq!(
        after,
        "Resistor = Module(\"@stdlib/generics/Resistor.zen\")\n\n\
         Resistor(name=\"R1\", value=\"1kohm\", package=\"0402\")\n\n\
         Resistor(name=\"R2\", value=\"10kohm\", package=\"0603\", P1=Net(\"R2_P1\"), P2=Net(\"R2_P2\"))\n\n\
         Board(name=\"demo\", layers=2, layout_path=\"layout/demo\")\n"
    );
}

#[test]
fn add_instance_creates_the_module_binding_when_missing() {
    let board = "\"\"\"A blank board.\"\"\"\n\nBoard(name=\"blank\", layers=2, layout_path=\"layout/blank\")\n";
    let after = place(board, "R1", &[("value", "10kohm")]).unwrap();
    assert_eq!(
        after,
        "\"\"\"A blank board.\"\"\"\n\n\
         Resistor = Module(\"@stdlib/generics/Resistor.zen\")\n\n\
         Resistor(name=\"R1\", value=\"10kohm\", P1=Net(\"R1_P1\"), P2=Net(\"R1_P2\"))\n\n\
         Board(name=\"blank\", layers=2, layout_path=\"layout/blank\")\n"
    );
    let err = place(&after, "R1", &[]).unwrap_err();
    assert!(text(&err.describe(b"R1", b"board.zen")).contains("already exists"));
}

#[test]
fn add_instance_refuses_bad_names_and_parse_errors() {
    let err = place("Resistor(name=\"R1\"\n", "R2", &[]).unwrap_err();
    assert!(text(&err.describe(b"R2", b"board.zen")).contains("does not parse"));
    let err = place("", "1bad", &[]).unwrap_err();
    assert!(text(&err.describe(b"1bad", b"board.zen")).contains("invalid instance name"));
}

#[test]
fn create_net_inserts_after_the_last_definition() {
    let board = "Resistor = Module(\"@stdlib/generics/Resistor.zen\")\n\n\
                 GND = Ground(\"GND\")\n\n\
                 Resistor(name=\"R1\", value=\"1kohm\", package=\"0402\")\n";
    let (after, var) = create_net(board.as_bytes(), &index(board), b"SENSE", b"Net").unwrap();
    assert_eq!(var, b("SENSE"));
    let after = text(&after);
    assert_eq!(
        after,
        "Resistor = Module(\"@stdlib/generics/Resistor.zen\")\n\n\
         GND = Ground(\"GND\")\n\n\
         SENSE = Net(\"SENSE\")\n\n\
         Resistor(name=\"R1\", value=\"1kohm\", package=\"0402\")\n"
    );
    let e = create_net(after.as_bytes(), &index(&after), b"SENSE", b"Net").unwrap_err();
    assert!(text(&e.describe(b"SENSE", b"board.zen")).contains("already defined"));
    let e = create_net(after.as_bytes(), &index(&after), b"Resistor", b"Net").unwrap_err();
    assert!(text(&e.message()).contains("already bound"));
}

#[test]
fn rename_net_rewrites_variable_string_and_references() {
    let board = "VCC = Power(\"VCC_3V3\")\nLED_A = Net(\"LED_A\")\n\n\
                 Resistor(name=\"R1\", P1=VCC, P2=LED_A)\n\n\
                 for i in range(2):\n    Led(name=\"D{}\".format(i), A=LED_A, K=VCC)\n";
    let (after, var, refs) = rename_net(board.as_bytes(), &index(board), b"VCC_3V3", b"VCC_5V").unwrap();
    assert_eq!(var, b("VCC_5V"));
    assert_eq!(refs, 2);
    assert_eq!(
        text(&after),
        "VCC_5V = Power(\"VCC_5V\")\nLED_A = Net(\"LED_A\")\n\n\
         Resistor(name=\"R1\", P1=VCC_5V, P2=LED_A)\n\n\
         for i in range(2):\n    Led(name=\"D{}\".format(i), A=LED_A, K=VCC_5V)\n"
    );
}

#[test]
fn rename_net_refuses_shadowed_and_missing() {
    let board = "SIG = Net(\"SIG\")\n\ndef helper(SIG):\n    return SIG\n";
    let idx = index(board);
    let e = rename_net(board.as_bytes(), &idx, b"SIG", b"SIG2").unwrap_err();
    assert!(text(&e.message()).contains("nested scope"));
    let e = rename_net(board.as_bytes(), &idx, b"NOPE", b"X").unwrap_err();
    assert!(text(&e.describe(b"NOPE", b"board.zen")).contains("no top-level net definition"));
}

#[test]
fn attach_pin_net_replaces_creates_and_prunes() {
    let board = "Resistor = Module(\"@stdlib/generics/Resistor.zen\")\n\n\
                 GND = Ground(\"GND\")\n\n\
                 Resistor(name=\"R1\", value=\"1kohm\", P1=Net(\"R1_P1\"), P2=Net(\"R1_P2\"))\n";
    let facts = resistor();
    let attach = |t: &str, pin: &str, net: &str, kind: &str| {
        let req = AttachPinRequest { instance: b("R1"), pin: b(pin), net_name: b(net), kind: b(kind) };
        attach_pin_net(t.as_bytes(), &index(t), &facts, &req).unwrap()
    };
    let (t, res) = attach(board, "1", "GND", "Ground");
    assert_eq!(res.io, b("P1"));
    assert_eq!(res.variable, b("GND"));
    assert!(!res.created_def);
    assert!(res.pruned_defs.is_empty());
    let (t, res) = attach(&text(&t), "P2", "SENSE", "Net");
    assert!(res.created_def);
    let t = text(&t);
    assert_eq!(
        t,
        "Resistor = Module(\"@stdlib/generics/Resistor.zen\")\n\n\
         GND = Ground(\"GND\")\n\n\
         SENSE = Net(\"SENSE\")\n\n\
         Resistor(name=\"R1\", value=\"1kohm\", P1=GND, P2=SENSE)\n"
    );
    let (t, res) = attach(&t, "P2", "LED_A", "Net");
    assert_eq!(res.pruned_defs, vec![b("SENSE")]);
    assert_eq!(
        text(&t),
        "Resistor = Module(\"@stdlib/generics/Resistor.zen\")\n\n\
         GND = Ground(\"GND\")\n\n\
         LED_A = Net(\"LED_A\")\n\n\
         Resistor(name=\"R1\", value=\"1kohm\", P1=GND, P2=LED_A)\n"
    );
}

#[test]
fn connect_pins_endorsed_example() {
    let board = "Resistor = Module(\"@stdlib/generics/Resistor.zen\")\n\n\
                 Resistor(name=\"R1\", value=\"1kohm\", P1=Net(\"R1_P1\"), P2=Net(\"R1_P2\"))\n\
                 Resistor(name=\"C1\", value=\"100nF\", P1=Net(\"C1_P1\"), P2=Net(\"C1_P2\"))\n";
    let facts = resistor();
    let req = ConnectPinsRequest {
        a: PinEndpoint { instance: b("R1"), pin: b("P2") },
        b: PinEndpoint { instance: b("C1"), pin: b("P1") },
        net: Some(b("SIG")),
        allow_merge: false,
    };
    let (t, out) = connect_pins(board.as_bytes(), &index(board), &facts, &facts, None, &req).unwrap();
    assert!(matches!(&out, ConnectOutcome::Applied { net, created_def: true, .. } if net == &b("SIG")));
    assert_eq!(
        text(&t.unwrap()),
        "Resistor = Module(\"@stdlib/generics/Resistor.zen\")\n\n\
         SIG = Net(\"SIG\")\n\n\
         Resistor(name=\"R1\", value=\"1kohm\", P1=Net(\"R1_P1\"), P2=SIG)\n\
         Resistor(name=\"C1\", value=\"100nF\", P1=SIG, P2=Net(\"C1_P2\"))\n"
    );
}

#[test]
fn connect_pins_join_and_merge() {
    let board = "Resistor = Module(\"@stdlib/generics/Resistor.zen\")\n\n\
                 BUS_A = Net(\"BUS_A\")\nBUS_B = Net(\"BUS_B\")\n\n\
                 Resistor(name=\"R1\", value=\"1k\", P1=BUS_A, P2=BUS_A)\n\
                 Resistor(name=\"R2\", value=\"1k\", P1=BUS_B, P2=BUS_B)\n\
                 Resistor(name=\"R3\", value=\"1k\", P1=Net(\"R3_P1\"), P2=Net(\"R3_P2\"))\n";
    let facts = resistor();
    let ep = |i: &str, p: &str| PinEndpoint { instance: b(i), pin: b(p) };
    let req = ConnectPinsRequest { a: ep("R3", "P1"), b: ep("R1", "P1"), net: None, allow_merge: false };
    let (t, out) = connect_pins(board.as_bytes(), &index(board), &facts, &facts, None, &req).unwrap();
    assert!(matches!(&out, ConnectOutcome::Applied { net, created_def: false, .. } if net == &b("BUS_A")));
    let t = text(&t.unwrap());
    let req = ConnectPinsRequest { a: ep("R1", "P2"), b: ep("R2", "P1"), net: None, allow_merge: false };
    let (none, out) = connect_pins(t.as_bytes(), &index(&t), &facts, &facts, None, &req).unwrap();
    assert!(none.is_none());
    assert!(matches!(&out, ConnectOutcome::NeedsMerge { from, into, from_refs: 2 } if from == &b("BUS_B") && into == &b("BUS_A")));
    let req = ConnectPinsRequest { a: ep("R1", "P2"), b: ep("R2", "P1"), net: None, allow_merge: true };
    let (merged, out) = connect_pins(t.as_bytes(), &index(&t), &facts, &facts, None, &req).unwrap();
    assert!(matches!(&out, ConnectOutcome::Applied { merged_from: Some(f), moved_refs: 2, pruned_defs, .. }
        if f == &b("BUS_B") && pruned_defs == &vec![b("BUS_B")]));
    assert_eq!(
        text(&merged.unwrap()),
        "Resistor = Module(\"@stdlib/generics/Resistor.zen\")\n\n\
         BUS_A = Net(\"BUS_A\")\n\n\
         Resistor(name=\"R1\", value=\"1k\", P1=BUS_A, P2=BUS_A)\n\
         Resistor(name=\"R2\", value=\"1k\", P1=BUS_A, P2=BUS_A)\n\
         Resistor(name=\"R3\", value=\"1k\", P1=BUS_A, P2=Net(\"R3_P2\"))\n"
    );
}

#[test]
fn disconnect_pin_reverts_and_prunes() {
    let board = "Resistor = Module(\"@stdlib/generics/Resistor.zen\")\n\n\
                 SENSE = Net(\"SENSE\")\n\n\
                 Resistor(name=\"R1\", value=\"1k\", P1=SENSE, P2=Net(\"R1_P2\"))\n";
    let facts = resistor();
    let (t, res) = disconnect_pin(board.as_bytes(), &index(board), &facts, b"R1", b"1").unwrap();
    assert_eq!(res.io, b("P1"));
    assert_eq!(res.placeholder, Some(b("R1_P1")));
    assert_eq!(res.pruned_defs, vec![b("SENSE")]);
    let t = text(&t);
    assert_eq!(
        t,
        "Resistor = Module(\"@stdlib/generics/Resistor.zen\")\n\n\
         Resistor(name=\"R1\", value=\"1k\", P1=Net(\"R1_P1\"), P2=Net(\"R1_P2\"))\n"
    );
    let e = disconnect_pin(t.as_bytes(), &index(&t), &facts, b"R1", b"1").err().unwrap();
    assert!(text(&e.message()).contains("already unconnected"));
}

#[test]
fn generated_instances_refuse_every_writer() {
    let board = "Resistor = Module(\"@stdlib/generics/Resistor.zen\")\n\n\
                 BUS = Net(\"BUS\")\n\n\
                 for i in range(3):\n    Resistor(name=\"R{}\".format(i), value=\"1k\", P1=BUS, P2=BUS)\n";
    let idx = index(board);
    let facts = resistor();
    assert!(rename_instance(board.as_bytes(), &idx, b"R1", b"R_X").is_err());
    let req = AttachPinRequest { instance: b("R1"), pin: b("P1"), net_name: b("GND"), kind: b("Ground") };
    assert!(attach_pin_net(board.as_bytes(), &idx, &facts, &req).is_err());
    assert!(disconnect_pin(board.as_bytes(), &idx, &facts, b"R1", b"P1").is_err());
    assert!(set_attribute(board.as_bytes(), &idx, &facts, b"R1", b"value", b"2k").is_err());
    assert!(rename_net(board.as_bytes(), &idx, b"GHOST", b"X").is_err());
    assert!(create_net(board.as_bytes(), &idx, b"BUS", b"Net").is_err());
}

#[test]
fn set_attribute_replaces_adds_and_refuses_pins() {
    let board = "Resistor = Module(\"@stdlib/generics/Resistor.zen\")\n\n\
                 Resistor(name=\"R1\", value=\"1k\", P1=Net(\"R1_P1\"), P2=Net(\"R1_P2\"))\n";
    let facts = resistor();
    let (t, res) = set_attribute(board.as_bytes(), &index(board), &facts, b"R1", b"value", b"10kohm").unwrap();
    assert!(res.replaced);
    let t = text(&t);
    let (t2, res) = set_attribute(t.as_bytes(), &index(&t), &facts, b"R1", b"package", b"0402").unwrap();
    assert!(!res.replaced);
    assert!(text(&t2).contains("Resistor(name=\"R1\", value=\"10kohm\", P1=Net(\"R1_P1\"), P2=Net(\"R1_P2\"), package=\"0402\")"));
    let e = set_attribute(t.as_bytes(), &index(&t), &facts, b"R1", b"P1", b"GND").err().unwrap();
    assert!(text(&e.message()).contains("connect_pins"));
    let e = set_attribute(t.as_bytes(), &index(&t), &facts, b"R1", b"name", b"X").err().unwrap();
    assert!(text(&e.message()).contains("rename_instance"));
}

#[test]
fn rename_instance_replaces_the_literal() {
    let board = "Resistor = Module(\"@stdlib/generics/Resistor.zen\")\n\n\
                 Resistor(name=\"R1\", value=\"1k\")\n";
    let t = rename_instance(board.as_bytes(), &index(board), b"R1", b"R_SENSE").unwrap();
    assert_eq!(text(&t), "Resistor = Module(\"@stdlib/generics/Resistor.zen\")\n\nResistor(name=\"R_SENSE\", value=\"1k\")\n");
    let e = rename_instance(board.as_bytes(), &index(board), b"NOPE", b"X").unwrap_err();
    assert!(text(&e.describe(b"NOPE", b"board.zen")).contains("no top-level call"));
}

#[test]
fn remove_instances_prunes_orphans() {
    let board = "Resistor = Module(\"@stdlib/generics/Resistor.zen\")\n\n\
                 SHARED = Net(\"SHARED\")\nONLY_R2 = Net(\"ONLY_R2\")\n\n\
                 Resistor(name=\"R1\", value=\"1k\", P1=SHARED, P2=Net(\"R1_P2\"))\n\
                 Resistor(name=\"R2\", value=\"2k\", P1=SHARED, P2=ONLY_R2)\n";
    let (t, res) = remove_instances(board.as_bytes(), &index(board), &vec![b("R2")]).unwrap();
    assert_eq!(res.removed, vec![b("R2")]);
    assert_eq!(res.pruned_nets, vec![b("ONLY_R2")]);
    assert!(res.pruned_bindings.is_empty());
    let t = text(&t);
    assert_eq!(
        t,
        "Resistor = Module(\"@stdlib/generics/Resistor.zen\")\n\n\
         SHARED = Net(\"SHARED\")\n\n\
         Resistor(name=\"R1\", value=\"1k\", P1=SHARED, P2=Net(\"R1_P2\"))\n"
    );
    assert_eq!(removed_position_keys(&vec![b("R1.R"), b("R2.R")], &vec![b("R2")]), vec![b("R2.R")]);
    let (t, res) = remove_instances(t.as_bytes(), &index(&t), &vec![b("R1")]).unwrap();
    assert_eq!(res.pruned_nets, vec![b("SHARED")]);
    assert_eq!(res.pruned_bindings, vec![b("Resistor")]);
    assert_eq!(text(&t), "");
}

#[test]
fn rename_instance_migrates_its_position_keys() {
    let moved = migrate_position_keys(&vec![b("R1.R"), b("OTHER.C")], b"R1", b"R_SENSE");
    assert_eq!(moved, vec![(b("R1.R"), b("R_SENSE.R"))]);
    let board = "Resistor = Module(\"@stdlib/generics/Resistor.zen\")\n\nResistor(name=\"R1\", value=\"1k\")\n";
    let e = rename_instance(board.as_bytes(), &index(board), b"R1", b"R1").unwrap_err();
    assert!(text(&e.describe(b"R1", b"board.zen")).contains("already exists"));
}

#[test]
fn the_parse_keeps_statements_and_lines() {
    let p = parse_zen(b"board.zen", b"X = Net(\"X\")\n\nM(name=\"U1\", A=X)\n").ok().unwrap();
    assert_eq!(p.stmts.len(), 2);
    assert_eq!(p.stmts[1].line, 3);
    assert!(matches!(p.stmts[0].stmt, Stmt::Assign { .. }));
    let idx = index("X = Net(\"X\")\n\nM(name=\"U1\", A=X)\n");
    assert_eq!(idx.net_defs.len(), 1);
    assert_eq!(idx.calls.len(), 1);
    assert_eq!(idx.ident_refs.iter().filter(|r| r.name == b("X")).count(), 1);
    let bad = index("M(name=\"U1\"\n");
    assert!(text(bad.error.as_ref().unwrap()).starts_with("board.zen does not parse: "));
}
