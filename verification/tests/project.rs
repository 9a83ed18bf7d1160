use zen_build::model::{InstanceDoc, InstanceKind, SchematicDoc};
use zen_build::parts::{component_target, resolve_parts, ResolvedPart};
use zen_build::tables::toml_read;
use zen_build::project::{
    assemble_project, read_manifest, scaffold_files, valid_project_name, CardFiles, ProjectDoc,
    TomlRead, TomlValue, VendorSel,
};

fn read(text: &str) -> TomlRead {
    toml_read(Ok(text.as_bytes().to_vec()))
}

fn files(list: &[&str]) -> Vec<Vec<u8>> {
    list.iter().map(|s| s.as_bytes().to_vec()).collect()
}

fn load(manifest: &str, board_exists: bool, root_files: &[&str], cards: Vec<CardFiles>) -> ProjectDoc {
    assemble_project(
        b"/tmp/etch-project-tolerant".to_vec(),
        Some(b"etch-project-tolerant".to_vec()),
        read_manifest(&read(manifest)),
        board_exists,
        &files(root_files),
        &cards,
    )
}

fn text(v: &[u8]) -> String {
    String::from_utf8(v.to_vec()).unwrap()
}

fn problems(doc: &ProjectDoc) -> Vec<String> {
    doc.problems.iter().map(|p| text(p)).collect()
}

fn has(ps: &[String], needle: &str) -> bool {
    ps.iter().any(|p| p.contains(needle))
}

#[test]
fn tolerant_manifest_parsing() {
    // A malformed manifest still loads, with the parse error as a problem.
    let doc = load("[project]\nversion = \"0.1\"\nnot even = = toml", false, &["board.zen"], vec![]);
    assert!(has(&problems(&doc), "parse error"));

    // Unknown keys and a wrong version warn but don't fail; the entry falls
    // back to the single root .zen; the name to the directory name.
    let doc = load(
        "[project]\nversion = \"99\"\nfuture_key = true\n\n[top_key]\nx = 1\n\n[parts.\"A.B\"]\nmpn = \"X\"\n",
        false,
        &["board.zen", "README.md"],
        vec![],
    );
    let ps = problems(&doc);
    assert_eq!(doc.board, Some(b"board.zen".to_vec()));
    assert!(text(&doc.name).starts_with("etch-project-tolerant"));
    assert!(has(&ps, "version 99"));
    assert!(has(&ps, "future_key"));
    assert!(has(&ps, "top_key"));
    assert_eq!(doc.part_overrides.len(), 1);
    assert_eq!(doc.part_overrides[0].0, b"A.B".to_vec());

    // Ambiguous entry: two root .zen files and no [project] board.
    let doc = load("[project]\nversion = \"0.1\"\n", false, &["board.zen", "second.zen"], vec![]);
    assert_eq!(doc.board, None);
    assert!(has(&problems(&doc), "2 .zen files at the project root"));

    // No .zen file at all.
    let doc = load("[project]\nversion = \"0.1\"\n", false, &[], vec![]);
    assert_eq!(doc.board, None);
    assert!(has(&problems(&doc), "no .zen file at the project root"));

    // [project] name + board win over the fallbacks.
    let doc = load(
        "[project]\nversion = \"0.1\"\nname = \"named\"\nboard = \"board.zen\"\n",
        true,
        &["board.zen", "second.zen"],
        vec![],
    );
    assert_eq!(doc.name, b"named".to_vec());
    assert_eq!(doc.board, Some(b"board.zen".to_vec()));
    assert!(doc.problems.is_empty(), "problems: {:?}", problems(&doc));

    // A missing board target is a problem.
    let doc = load(
        "[project]\nversion = \"0.1\"\nname = \"named\"\nboard = \"missing.zen\"\n",
        false,
        &["board.zen"],
        vec![],
    );
    assert_eq!(doc.board, None);
    assert!(has(&problems(&doc), "missing.zen"));
}

#[test]
fn manifest_errors_each_reported() {
    let doc = load("project = 3\nparts = \"x\"\n", false, &["b.zen"], vec![]);
    let ps = problems(&doc);
    assert!(has(&ps, "etchable.toml: [project] must be a table"));
    assert!(has(&ps, "etchable.toml: [parts] must be a table"));
    let doc = load("[project]\nversion = 2\nname = 7\n[parts]\nX = 1\n", false, &["b.zen"], vec![]);
    let ps = problems(&doc);
    assert!(has(&ps, "etchable.toml: version 2 (this build understands 0.1); reading best-effort"));
    assert!(has(&ps, "etchable.toml: [project]: `name` must be a string"));
    assert!(has(&ps, "etchable.toml: parts.\"X\" must be a table"));
    assert_eq!(doc.name, b"etch-project-tolerant".to_vec());
    let doc = assemble_project(
        b"/p".to_vec(),
        None,
        read_manifest(&TomlRead::Unreadable(b"permission denied".to_vec())),
        false,
        &files(&["b.zen"]),
        &vec![],
    );
    assert_eq!(problems(&doc), vec!["etchable.toml: unreadable: permission denied".to_string()]);
    assert_eq!(doc.name, b"project".to_vec());
}

fn card(name: &str, zen: bool, toml_text: &str, datasheet: bool) -> CardFiles {
    CardFiles {
        name: name.as_bytes().to_vec(),
        zen_exists: zen,
        card: read(toml_text),
        datasheet_exists: datasheet,
    }
}

fn vendor<'a>(vs: &'a [(Vec<u8>, VendorSel)], name: &str) -> Option<&'a VendorSel> {
    vs.iter().find(|(k, _)| k == name.as_bytes()).map(|(_, v)| v)
}

#[test]
fn cards_validate_lcsc_and_preserve_unknown_vendors() {
    let ldo = card(
        "ldo",
        true,
        "description = \"3.3 V LDO\"\nmpn = \"AMS1117-3.3\"\nmanufacturer = \"AMS\"\n\n[vendors.lcsc]\npart = \"C6186\"\nbasic = false\n\n[vendors.digikey]\nsku = \"AMS1117CT-ND\"\n",
        true,
    );
    let ghost = card("ghost", false, "[vendors.lcsc]\npart = \"25804\"\n", false);
    let doc = load("[project]\nversion = \"0.1\"\n", false, &["board.zen"], vec![ghost, ldo]);
    let ps = problems(&doc);

    let ldo = &doc.components.iter().find(|(k, _)| k == b"ldo").unwrap().1;
    assert_eq!(ldo.zen_file, Some(b"components/ldo.zen".to_vec()));
    assert_eq!(ldo.description, Some(b"3.3 V LDO".to_vec()));
    assert_eq!(ldo.part.datasheet, Some(b"datasheets/ldo.pdf".to_vec()), "datasheet defaults from the naming convention");
    assert!(matches!(
        vendor(&ldo.part.vendors, "lcsc"),
        Some(VendorSel::Lcsc { part, basic: Some(false) }) if part == b"C6186"
    ));
    match vendor(&ldo.part.vendors, "digikey") {
        Some(VendorSel::Unknown(json)) => assert_eq!(text(json), "{\"sku\":\"AMS1117CT-ND\"}"),
        _ => panic!("digikey preserved"),
    }
    assert!(has(&ps, "unknown vendor `digikey`"));

    let ghost = &doc.components.iter().find(|(k, _)| k == b"ghost").unwrap().1;
    assert_eq!(ghost.zen_file, None);
    assert!(ghost.part.vendors.is_empty(), "invalid LCSC part rejected");
    assert!(has(&ps, "components/ghost.toml: no matching components/ghost.zen"));
    assert!(has(&ps, "not an LCSC part number"));
}

#[test]
fn card_field_problems() {
    let c = card("x", true, "mpn = 5\nextra = 1\nvendors = 3\n", false);
    let doc = load("[project]\nversion = \"0.1\"\n", false, &["b.zen"], vec![c]);
    let ps = problems(&doc);
    assert!(has(&ps, "components/x.toml: `mpn` must be a string"));
    assert!(has(&ps, "components/x.toml: unknown key `extra` (ignored)"));
    assert!(has(&ps, "components/x.toml: `vendors` must be a table"));
    let c = card("y", true, "[vendors.lcsc]\nbasic = true\nnote = \"n\"\n", false);
    let doc = load("[project]\nversion = \"0.1\"\n", false, &["b.zen"], vec![c]);
    assert!(has(&problems(&doc), "components/y.toml: vendors.lcsc requires `part`"));
    let c = card("z", true, "[vendors.lcsc]\npart = \"C1\"\nnote = \"n\"\n", false);
    let doc = load("[project]\nversion = \"0.1\"\n", false, &["b.zen"], vec![c]);
    assert!(has(&problems(&doc), "components/z.toml: vendors.lcsc: unknown key `note` (ignored)"));
    let c = CardFiles {
        name: b"w".to_vec(),
        zen_exists: true,
        card: TomlRead::Unreadable(b"gone".to_vec()),
        datasheet_exists: false,
    };
    let doc = load("[project]\nversion = \"0.1\"\n", false, &["b.zen"], vec![c]);
    assert!(has(&problems(&doc), "components/w.toml: unreadable: gone"));
}

fn inst(path: &str, kind: InstanceKind, source_file: Option<&str>, mpn: Option<&str>) -> InstanceDoc {
    InstanceDoc {
        path: path.as_bytes().to_vec(),
        kind,
        type_label: b"T".to_vec(),
        source_file: source_file.map(|s| s.as_bytes().to_vec()),
        refdes: None,
        text_attributes: match mpn {
            Some(m) => vec![
                (b"manufacturer".to_vec(), b"ZenCorp".to_vec()),
                (b"mpn".to_vec(), m.as_bytes().to_vec()),
            ],
            None => vec![],
        },
        children: vec![],
        pins: vec![],
    }
}

fn synthetic_schematic() -> SchematicDoc {
    SchematicDoc {
        root_module: b"top".to_vec(),
        instances: vec![
            inst("root", InstanceKind::Module, None, None),
            inst("root.DIV", InstanceKind::Module, Some("components/divider.zen"), None),
            inst("root.DIV.R1", InstanceKind::Component, None, None),
            inst("root.DIV.R2", InstanceKind::Component, None, None),
            inst("root.REG", InstanceKind::Module, Some("components/ldo.zen"), None),
            inst("root.REG.U", InstanceKind::Component, None, Some("ZEN-MPN")),
        ],
        nets: vec![],
        by_refdes: vec![],
    }
}

fn part<'a>(parts: &'a [(Vec<u8>, ResolvedPart)], path: &str) -> Option<&'a ResolvedPart> {
    parts.iter().find(|(k, _)| k == path.as_bytes()).map(|(_, p)| p)
}

fn source(p: &ResolvedPart, key: &str) -> String {
    text(&p.sources.iter().find(|(k, _)| k == key.as_bytes()).unwrap().1)
}

fn resolution_cards() -> Vec<CardFiles> {
    vec![
        card("divider", true, "description = \"Divider\"\nmpn = \"NOT-APPLICABLE\"\n", false),
        card(
            "ldo",
            true,
            "description = \"LDO\"\nmpn = \"CARD-MPN\"\nmanufacturer = \"CardCo\"\n[vendors.lcsc]\npart = \"C6186\"\n",
            false,
        ),
    ]
}

#[test]
fn part_resolution_precedence_and_targeting() {
    let doc = load(
        "[project]\nversion = \"0.1\"\n\n[parts.\"REG.U\"]\nmpn = \"OVERRIDE-MPN\"\n[parts.\"REG.U\".vendors.lcsc]\npart = \"C99999\"\n[parts.\"missing.path\"]\nmpn = \"X\"\n",
        false,
        &["board.zen"],
        resolution_cards(),
    );
    let sch = synthetic_schematic();
    let (parts, problems) = resolve_parts(&doc, &sch);
    let problems: Vec<String> = problems.iter().map(|p| text(p)).collect();

    let reg = part(&parts, "root.REG.U").unwrap();
    assert_eq!(reg.mpn, Some(b"OVERRIDE-MPN".to_vec()));
    assert_eq!(source(reg, "mpn"), "override");
    assert_eq!(reg.manufacturer, Some(b"CardCo".to_vec()));
    assert_eq!(source(reg, "manufacturer"), "card:ldo");
    assert_eq!(reg.description, Some(b"LDO".to_vec()));
    assert!(matches!(
        vendor(&reg.vendors, "lcsc"),
        Some(VendorSel::Lcsc { part, .. }) if part == b"C99999"
    ));
    assert_eq!(source(reg, "vendors.lcsc"), "override");

    // The two-component card records a problem and applies no part fields.
    assert!(has(&problems, "card divider"));
    assert!(part(&parts, "root.DIV.R1").is_none());
    assert!(part(&parts, "root.DIV.R2").is_none());

    // Unknown override key surfaces.
    assert!(has(&problems, "parts.\"missing.path\" does not match"));

    // Determinism: two resolutions agree.
    let (parts2, _) = resolve_parts(&doc, &sch);
    assert_eq!(parts.len(), parts2.len());
    for ((k1, p1), (k2, p2)) in parts.iter().zip(parts2.iter()) {
        assert_eq!(k1, k2);
        assert_eq!(p1.mpn, p2.mpn);
        assert_eq!(p1.sources, p2.sources);
    }

    // Key normalization: an explicit root. prefix hits the same instance.
    let doc = load(
        "[project]\nversion = \"0.1\"\n\n[parts.\"root.REG.U\"]\nmpn = \"VIA-ROOT\"\n",
        false,
        &["board.zen"],
        resolution_cards(),
    );
    let (parts, _) = resolve_parts(&doc, &sch);
    assert_eq!(part(&parts, "root.REG.U").unwrap().mpn, Some(b"VIA-ROOT".to_vec()));
}

#[test]
fn inline_attributes_are_the_lowest_layer() {
    let doc = load("[project]\nversion = \"0.1\"\n", false, &["board.zen"], vec![]);
    let (parts, problems) = resolve_parts(&doc, &synthetic_schematic());
    assert!(problems.is_empty());
    assert_eq!(parts.len(), 1);
    let u = part(&parts, "root.REG.U").unwrap();
    assert_eq!(u.instance, b"root.REG.U".to_vec());
    assert_eq!(u.mpn, Some(b"ZEN-MPN".to_vec()));
    assert_eq!(u.manufacturer, Some(b"ZenCorp".to_vec()));
    assert_eq!(source(u, "mpn"), "zen");
    assert_eq!(source(u, "manufacturer"), "zen");
}

#[test]
fn component_target_rule() {
    let sch = synthetic_schematic();
    assert_eq!(component_target(&sch, b"root.REG.U").unwrap(), b"root.REG.U".to_vec());
    assert_eq!(component_target(&sch, b"root.REG").unwrap(), b"root.REG.U".to_vec());
    assert_eq!(
        text(&component_target(&sch, b"root.DIV").err().unwrap()),
        "root.DIV has multiple component descendants — address the component directly"
    );
    assert_eq!(text(&component_target(&sch, b"root.X").err().unwrap()), "root.X not found");
    let mut lone = synthetic_schematic();
    lone.instances.push(inst("root.EMPTY", InstanceKind::Module, None, None));
    assert_eq!(
        text(&component_target(&lone, b"root.EMPTY").err().unwrap()),
        "root.EMPTY has no component descendant"
    );
}

#[test]
fn scaffold_round_trips() {
    let files = scaffold_files(b"blinky").unwrap();
    let paths: Vec<String> = files.iter().map(|(p, _)| text(p)).collect();
    for f in ["etchable.toml", "board.zen", ".gitignore", "components/.gitkeep", "datasheets/.gitkeep", "layout/.gitkeep"] {
        assert!(paths.contains(&f.to_string()), "missing {f}");
    }
    assert!(!paths.contains(&"pcb.toml".to_string()), "projects carry no pcb.toml");
    let manifest = text(&files.iter().find(|(p, _)| p == b"etchable.toml").unwrap().1);
    let doc = assemble_project(
        b"/tmp/blinky".to_vec(),
        Some(b"blinky".to_vec()),
        read_manifest(&read(&manifest)),
        true,
        &files_at_root(&paths),
        &vec![],
    );
    assert_eq!(doc.name, b"blinky".to_vec());
    assert_eq!(doc.board, Some(b"board.zen".to_vec()));
    assert!(doc.part_overrides.is_empty());
    assert!(doc.problems.is_empty(), "problems: {:?}", problems(&doc));

    assert_eq!(text(&scaffold_files(b"").err().unwrap()), "invalid project name: \"\"");
    assert_eq!(text(&scaffold_files(b"../evil").err().unwrap()), "invalid project name: \"../evil\"");
    assert!(scaffold_files(b".hidden").is_err());
    assert!(scaffold_files(b"a\\b").is_err());
    assert!(valid_project_name(b"gadget"));
}

fn files_at_root(paths: &[String]) -> Vec<Vec<u8>> {
    paths.iter().filter(|p| !p.contains('/')).map(|p| p.as_bytes().to_vec()).collect()
}

#[test]
fn toml_text_reads_into_the_table_model() {
    match read("b = 2\na = \"x\"\n[t]\nk = true\n") {
        TomlRead::Parsed(entries) => {
            let keys: Vec<Vec<u8>> = entries.iter().map(|e| e.key.clone()).collect();
            assert_eq!(keys, vec![b"a".to_vec(), b"b".to_vec(), b"t".to_vec()]);
            assert!(matches!(&entries[0].value, TomlValue::Str(s) if s == b"x"));
            assert!(matches!(entries[1].value, TomlValue::Int(2)));
            assert_eq!(entries[1].shown, b"2".to_vec());
            assert!(matches!(&entries[2].value, TomlValue::Table(t) if t.len() == 1));
        }
        _ => panic!("parses"),
    }
    assert!(matches!(read("a = "), TomlRead::Invalid(_)));
    assert!(matches!(toml_read(Err(b"gone".to_vec())), TomlRead::Unreadable(m) if m == b"gone".to_vec()));
}
