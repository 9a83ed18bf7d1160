use zen_build::index::{FileIndex, IdentRef};
use zen_build::indexer::{index_content, index_parsed, index_unparseable};
use zen_build::syntax::{Arg, ArgKind, Expr, Parsed, Scope, Spanned, Stmt, Target, TopStmt};
use zen_build::edit::EditError;
use zen_build::wiring::{attach_pin_net, port_for_net, AttachPinRequest};
use zen_build::facts::facts_default;
use zen_build::placement::{add_instance, static_plan, AddInstanceRequest};
use zen_build::writers::{rename_instance, rename_net, set_attribute};

const BOARD: &str = "M = Module(\"./m.zen\")\nGND = Ground()\nSW = Net()\nM(name=\"U5\", GPIO1=SW, GPIO2=GND)\n";

fn at(needle: &str) -> usize {
    BOARD.find(needle).unwrap()
}

fn sp(expr: Expr, start: usize, len: usize) -> Spanned {
    Spanned { expr, start, end: start + len }
}

fn ident(name: &str, start: usize) -> Spanned {
    sp(Expr::Ident { name: name.as_bytes().to_vec() }, start, name.len())
}

fn ctor_def(var: &str, ctor: &str, line: u32) -> TopStmt {
    let text = format!("{var} = {ctor}()");
    let start = at(&text);
    let call_start = start + var.len() + 3;
    TopStmt {
        stmt: Stmt::Assign {
            target: Target::Ident { name: var.as_bytes().to_vec(), start, end: start + var.len() },
            value: sp(
                Expr::Call { callee: Box::new(ident(ctor, call_start)), args: vec![] },
                call_start,
                ctor.len() + 2,
            ),
        },
        start,
        end: start + text.len(),
        line,
    }
}

fn kwarg(key: &str, value: Spanned) -> Arg {
    let start = value.start - key.len() - 1;
    let end = value.end;
    Arg { kind: ArgKind::Named { name: key.as_bytes().to_vec() }, value, start, end }
}

fn board_stmts() -> Vec<TopStmt> {
    let call_start = at("M(name");
    let call_end = BOARD.len() - 1;
    let call = sp(
        Expr::Call {
            callee: Box::new(ident("M", call_start)),
            args: vec![
                kwarg("name", sp(Expr::Str { value: b"U5".to_vec() }, at("\"U5\""), 4)),
                kwarg("GPIO1", ident("SW", at("SW,"))),
                kwarg("GPIO2", ident("GND", at("GND)"))),
            ],
        },
        call_start,
        call_end - call_start,
    );
    let bind_text = "M = Module(\"./m.zen\")";
    let bind_call = sp(
        Expr::Call {
            callee: Box::new(ident("Module", 4)),
            args: vec![Arg {
                kind: ArgKind::Positional,
                value: sp(Expr::Str { value: b"./m.zen".to_vec() }, 11, 9),
                start: 11,
                end: 20,
            }],
        },
        4,
        17,
    );
    let binding = TopStmt {
        stmt: Stmt::Assign { target: Target::Ident { name: b"M".to_vec(), start: 0, end: 1 }, value: bind_call },
        start: 0,
        end: bind_text.len(),
        line: 1,
    };
    let stmts = vec![
        binding,
        ctor_def("GND", "Ground", 2),
        ctor_def("SW", "Net", 3),
        TopStmt { stmt: Stmt::Expression { expr: call }, start: call_start, end: call_end, line: 4 },
    ];
    stmts
}

fn board_index() -> FileIndex {
    let refs = vec![
        IdentRef { name: b"SW".to_vec(), start: at("SW,"), end: at("SW,") + 2 },
        IdentRef { name: b"GND".to_vec(), start: at("GND)"), end: at("GND)") + 3 },
    ];
    index_content(&board_stmts(), refs, vec![])
}

#[test]
fn unnamed_nets_are_net_definitions_named_by_their_variable() {
    let idx = board_index();
    let names: Vec<Vec<u8>> = idx.net_defs.iter().map(|d| d.name.clone()).collect();
    assert_eq!(names, vec![b"GND".to_vec(), b"SW".to_vec()]);
    assert!(idx.net_defs.iter().all(|d| !d.named));
}

#[test]
fn unnamed_nets_rename_through_their_variable() {
    let idx = board_index();
    let (text, var, refs) = rename_net(BOARD.as_bytes(), &idx, b"SW", b"SW_A").expect("rename");
    assert_eq!(String::from_utf8(text).unwrap(), "M = Module(\"./m.zen\")\nGND = Ground()\nSW_A = Net()\nM(name=\"U5\", GPIO1=SW_A, GPIO2=GND)\n");
    assert_eq!(var, b"SW_A".to_vec());
    assert_eq!(refs, 1);
}

#[test]
fn unnamed_nets_get_a_literal_when_the_name_is_no_identifier() {
    let idx = board_index();
    let (text, var, _) = rename_net(BOARD.as_bytes(), &idx, b"GND", b"GND-1").expect("rename");
    assert_eq!(
        String::from_utf8(text).unwrap(),
        "M = Module(\"./m.zen\")\nGND_1 = Ground(\"GND-1\")\nSW = Net()\nM(name=\"U5\", GPIO1=SW, GPIO2=GND_1)\n"
    );
    assert_eq!(var, b"GND_1".to_vec());
}

#[test]
fn unnamed_nets_resolve_to_the_port_carrying_them() {
    let idx = board_index();
    assert_eq!(port_for_net(&idx, b"U5", b"GND"), Ok(Some(b"GPIO2".to_vec())));
    assert_eq!(port_for_net(&idx, b"U5", b"SW"), Ok(Some(b"GPIO1".to_vec())));
}

#[test]
fn refusals_read_as_text() {
    assert_eq!(EditError::InstanceExists.message(), b"an instance of that name already exists".to_vec());
    assert_eq!(
        EditError::AmbiguousCall { count: 3 }.message(),
        b"ambiguous: 3 top-level calls carry that name".to_vec()
    );
    assert_eq!(
        EditError::NetDefined { line: 12 }.message(),
        b"a net of that name is already defined at line 12".to_vec()
    );
}

#[test]
fn renames_that_would_not_parse_are_refused() {
    let idx = board_index();
    assert_eq!(rename_net(BOARD.as_bytes(), &idx, b"SW", b"1bad"), Err(EditError::InvalidNetName));
    assert_eq!(rename_net(BOARD.as_bytes(), &idx, b"NOPE", b"X"), Err(EditError::NoNetDef));
}

#[test]
fn taken_and_invalid_names_are_refused_before_any_edit() {
    let idx = board_index();
    let facts = facts_default();
    let plan = static_plan(&facts);
    let req = AddInstanceRequest { module: b"./m.zen".to_vec(), name: b"U5".to_vec(), attrs: vec![] };
    assert!(matches!(
        add_instance(BOARD.as_bytes(), &idx, None, &facts, &req, &vec![], &plan),
        Err(EditError::InstanceExists)
    ));
    let bad = AddInstanceRequest { module: b"./m.zen".to_vec(), name: b"1bad".to_vec(), attrs: vec![] };
    assert!(matches!(
        add_instance(BOARD.as_bytes(), &idx, None, &facts, &bad, &vec![], &plan),
        Err(EditError::InvalidName)
    ));
    assert_eq!(rename_instance(BOARD.as_bytes(), &idx, b"U9", b"U6"), Err(EditError::NoCall));
    assert_eq!(rename_instance(BOARD.as_bytes(), &idx, b"U5", b"1bad"), Err(EditError::InvalidName));
    assert!(matches!(
        set_attribute(BOARD.as_bytes(), &idx, &facts, b"U5", b"name", b"X"),
        Err(EditError::NameIsIdentity)
    ));
}

#[test]
fn a_rename_that_goes_through_parses() {
    let idx = board_index();
    let t = rename_instance(BOARD.as_bytes(), &idx, b"U5", b"U6").expect("rename");
    assert_eq!(String::from_utf8(t).unwrap(), "M = Module(\"./m.zen\")\nGND = Ground()\nSW = Net()\nM(name=\"U6\", GPIO1=SW, GPIO2=GND)\n");
}

#[test]
fn attaching_to_an_unnamed_net_reuses_it() {
    let idx = board_index();
    let facts = facts_default();
    let req = AttachPinRequest { instance: b"U5".to_vec(), pin: b"GPIO1".to_vec(), net_name: b"GND".to_vec(), kind: b"Ground".to_vec() };
    let (t, res) = attach_pin_net(BOARD.as_bytes(), &idx, &facts, &req).expect("attach");
    let t = String::from_utf8(t).unwrap();
    assert_eq!(res.io, b"GPIO1".to_vec());
    assert_eq!(res.variable, b"GND".to_vec());
    assert!(!res.created_def);
    assert_eq!(t.matches("GND = Ground()").count(), 1, "{t}");
    assert!(t.contains("GPIO1=GND"), "{t}");
}

#[test]
fn refusals_name_what_and_where() {
    let d = |e: EditError| String::from_utf8(e.describe(b"1bad", b"board.zen")).unwrap();
    assert!(d(EditError::InvalidName).starts_with("invalid instance name \"1bad\""));
    assert!(d(EditError::InvalidNetName).starts_with("invalid net name \"1bad\""));
    assert_eq!(d(EditError::InstanceExists), "an instance named \"1bad\" already exists in board.zen");
    assert_eq!(d(EditError::AmbiguousCall { count: 2 }), "ambiguous: 2 top-level calls in board.zen carry name=\"1bad\"");
    assert_eq!(d(EditError::NetDefined { line: 4 }), "a net named \"1bad\" is already defined at board.zen:4");
}

fn expr_of(t: &TopStmt) -> Spanned {
    match &t.stmt {
        Stmt::Assign { value, .. } => clone_spanned(value),
        Stmt::Expression { expr } => clone_spanned(expr),
        _ => panic!("no expression"),
    }
}

fn clone_spanned(s: &Spanned) -> Spanned {
    let expr = match &s.expr {
        Expr::Ident { name } => Expr::Ident { name: name.clone() },
        Expr::Str { value } => Expr::Str { value: value.clone() },
        Expr::Call { callee, args } => Expr::Call {
            callee: Box::new(clone_spanned(callee)),
            args: args
                .iter()
                .map(|a| Arg {
                    kind: match &a.kind {
                        ArgKind::Named { name } => ArgKind::Named { name: name.clone() },
                        ArgKind::Positional => ArgKind::Positional,
                        ArgKind::Star => ArgKind::Star,
                    },
                    value: clone_spanned(&a.value),
                    start: a.start,
                    end: a.end,
                })
                .collect(),
        },
        _ => Expr::Other { binds: vec![], children: vec![] },
    };
    Spanned { expr, start: s.start, end: s.end }
}

fn parsed_board(extra: Option<Scope>) -> Parsed {
    let mut stmts = Vec::new();
    let mut scopes = Vec::new();
    for t in board_stmts() {
        scopes.push(Scope { binds: vec![], exprs: vec![expr_of(&t)], stmts: vec![] });
        stmts.push(t);
    }
    if let Some(s) = extra {
        scopes.push(s);
    }
    Parsed { stmts, scopes }
}

#[test]
fn reads_come_from_the_tree() {
    let idx = index_parsed(&parsed_board(None));
    let reads: Vec<(String, usize)> =
        idx.ident_refs.iter().map(|r| (String::from_utf8(r.name.clone()).unwrap(), r.start)).collect();
    assert_eq!(
        reads,
        vec![
            ("Module".to_string(), at("Module")),
            ("Ground".to_string(), at("Ground")),
            ("Net".to_string(), at("Net")),
            ("M".to_string(), at("M(name")),
            ("SW".to_string(), at("SW,")),
            ("GND".to_string(), at("GND)")),
        ]
    );
    assert!(idx.nested_bindings.is_empty());
    let (_, _, n) = rename_net(BOARD.as_bytes(), &idx, b"SW", b"SW_A").expect("rename");
    assert_eq!(n, 1);
}

#[test]
fn a_nested_binding_of_the_variable_refuses_the_rename() {
    let lambda = Spanned {
        expr: Expr::Other { binds: vec![b"SW".to_vec()], children: vec![] },
        start: 0,
        end: 0,
    };
    let inner = Scope { binds: vec![], exprs: vec![lambda], stmts: vec![] };
    let extra = Scope { binds: vec![b"x".to_vec()], exprs: vec![], stmts: vec![inner] };
    let idx = index_parsed(&parsed_board(Some(extra)));
    assert_eq!(idx.nested_bindings, vec![b"x".to_vec(), b"SW".to_vec()]);
    assert_eq!(rename_net(BOARD.as_bytes(), &idx, b"SW", b"SW_A"), Err(EditError::Shadowed));
}

#[test]
fn unparseable_files_say_so() {
    let idx = index_unparseable(b"board.zen", b"unexpected end of file");
    assert_eq!(idx.error, Some(b"board.zen does not parse: unexpected end of file".to_vec()));
    assert_eq!(rename_net(BOARD.as_bytes(), &idx, b"SW", b"SW_A"), Err(EditError::Unparseable));
}
