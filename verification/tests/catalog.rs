use zen_build::catalog::{
    build_listing, library_target, none_if_empty, resolve_library_path, stem, stem_trim,
    symbol_choice, symbol_pins_from, GenericSource, LibraryDir, LibraryRoot, SymbolPinInfo,
    MAX_PER_LIBRARY, MAX_PINS, MAX_SYMBOLS_TOTAL,
};

fn b(s: &str) -> Vec<u8> {
    s.as_bytes().to_vec()
}

fn text(v: &[u8]) -> String {
    String::from_utf8(v.to_vec()).unwrap()
}

#[test]
fn library_targets_pick_their_root() {
    let (root, rel) = library_target(b"@stdlib/kicad-symbols/Device.kicad_symdir/R.kicad_sym");
    assert_eq!(root, LibraryRoot::Stdlib);
    assert_eq!(rel, b("kicad-symbols/Device.kicad_symdir/R.kicad_sym"));
    let (root, rel) = library_target(b"x.kicad_sym");
    assert_eq!(root, LibraryRoot::Workspace);
    assert_eq!(rel, b("x.kicad_sym"));
}

#[test]
fn resolve_library_path_refuses_escapes() {
    let ok = resolve_library_path(b"x.kicad_sym", b"/w", Some(b("/w/x.kicad_sym")), Some(b("/w")));
    assert_eq!(ok.unwrap(), b("/w/x.kicad_sym"));
    // `../x` canonicalizes outside the root.
    let esc = resolve_library_path(b"../x.kicad_sym", b"/w", Some(b("/x.kicad_sym")), Some(b("/w")));
    assert_eq!(text(&esc.err().unwrap()), "path escapes its root: ../x.kicad_sym");
    // A sibling sharing the root's name as a prefix is outside too.
    let sib = resolve_library_path(b"../wx/a", b"/w", Some(b("/wx/a")), Some(b("/w")));
    assert!(sib.is_err());
    let missing = resolve_library_path(b"nope", b"/w", None, Some(b("/w")));
    assert_eq!(text(&missing.err().unwrap()), "no such file: nope");
    let base = resolve_library_path(b"a", b"/gone", Some(b("/gone/a")), None);
    assert_eq!(text(&base.err().unwrap()), "unreadable base dir /gone");
    assert!(resolve_library_path(b"/", b"/", Some(b("/etc/hosts")), Some(b("/"))).is_ok());
}

#[test]
fn stems_and_trims() {
    assert_eq!(stem(b"R.kicad_sym"), b("R"));
    assert_eq!(stem(b"a.b.c"), b("a.b"));
    assert_eq!(stem(b".hidden"), b(".hidden"));
    assert_eq!(stem(b"plain"), b("plain"));
    assert_eq!(stem_trim(b"Device.kicad_symdir", b".kicad_symdir"), b("Device"));
    assert_eq!(stem_trim(b"x.pretty.pretty", b".pretty"), b("x"));
    assert_eq!(none_if_empty(b"  ~ "), None);
    assert_eq!(none_if_empty(b" \t"), None);
    assert_eq!(none_if_empty(b"  Package_SO:SOIC-8\n"), Some(b("Package_SO:SOIC-8")));
    assert_eq!(none_if_empty("\u{a0}x\u{3000}".as_bytes()), Some(b("x")));
}

fn lib(dir: &str, files: &[&str]) -> LibraryDir {
    LibraryDir { dir_name: b(dir), file_names: files.iter().map(|f| b(f)).collect() }
}

#[test]
fn listing_filters_and_parses_generics() {
    let generics = vec![
        GenericSource {
            file_name: b("Resistor.zen"),
            text: Some(b("value = config(\"value\", str)\npackage = config(\"package\", str)\r\nP1 = io(\"P1\", Net)\nP2 = io(\"P2\", Net)\nbad ident = config(x)\nnote = \"x\"\n")),
        },
        GenericSource { file_name: b("Broken.zen"), text: None },
    ];
    let symbols = vec![
        lib("Device.kicad_symdir", &["C.kicad_sym", "R.kicad_sym"]),
        lib("MCU_RaspberryPi.kicad_symdir", &["RP2040.kicad_sym"]),
        lib("Empty.kicad_symdir", &[]),
    ];
    let footprints = vec![lib("Resistor_SMD.pretty", &["R_0603.kicad_mod"])];
    let all = build_listing(&generics, &symbols, &footprints, None, None);
    assert_eq!(all.generics.len(), 1);
    let r = &all.generics[0];
    assert_eq!(r.name, b("Resistor"));
    assert_eq!(r.params, vec![b("value"), b("package")]);
    assert_eq!(r.ios, vec![b("P1"), b("P2")]);
    assert_eq!(all.kicad_symbols.len(), 2);
    assert_eq!(all.kicad_symbols[0].library, b("Device"));
    assert_eq!(all.kicad_symbols[0].symbols, vec![b("C"), b("R")]);
    assert_eq!(all.kicad_footprints[0].library, b("Resistor_SMD"));
    assert_eq!(all.kicad_footprints[0].footprints, vec![b("R_0603")]);
    assert!(all.truncated.is_none());

    let filtered = build_listing(&generics, &symbols, &footprints, None, Some(b"rp2040"));
    assert!(filtered.generics.is_empty());
    assert_eq!(filtered.kicad_symbols.len(), 1);
    assert_eq!(filtered.kicad_symbols[0].symbols, vec![b("RP2040")]);
    assert!(filtered.kicad_footprints.is_empty());

    // A filter matching the library's name lists all its symbols.
    let device = build_listing(&generics, &symbols, &footprints, None, Some(b"DEVICE"));
    assert_eq!(device.kicad_symbols[0].symbols, vec![b("C"), b("R")]);
}

#[test]
fn listing_caps_per_library_and_in_total() {
    let many: Vec<String> = (0..250).map(|i| format!("S{i}.kicad_sym")).collect();
    let refs: Vec<&str> = many.iter().map(|s| s.as_str()).collect();
    let libs: Vec<LibraryDir> = (0..6).map(|i| lib(&format!("L{i}.kicad_symdir"), &refs)).collect();
    let out = build_listing(&vec![], &libs, &vec![], None, None);
    assert_eq!(out.kicad_symbols[0].symbols.len(), MAX_PER_LIBRARY);
    assert_eq!(out.kicad_symbols[0].truncated, Some(50));
    // 200 per library: the fifth library reaches the total cap and stops the listing.
    assert_eq!(out.kicad_symbols.len(), MAX_SYMBOLS_TOTAL / MAX_PER_LIBRARY);
    assert_eq!(
        text(out.truncated.as_ref().unwrap()),
        "symbol listing capped — pass a filter to narrow the search"
    );
}

#[test]
fn symbol_choice_messages() {
    let names = vec![b("A"), b("B")];
    assert!(symbol_choice(b"lib.kicad_sym", Some(b"A"), true, &names).is_ok());
    assert_eq!(
        text(&symbol_choice(b"lib.kicad_sym", Some(b"Z"), false, &names).err().unwrap()),
        "no symbol \"Z\" in lib.kicad_sym; available: A, B"
    );
    assert_eq!(
        text(&symbol_choice(b"lib.kicad_sym", None, false, &names).err().unwrap()),
        "lib.kicad_sym holds 2 symbols — pass `symbol`: A, B"
    );
    assert_eq!(
        text(&symbol_choice(b"e.kicad_sym", None, false, &vec![]).err().unwrap()),
        "no symbols in e.kicad_sym"
    );
    assert!(symbol_choice(b"one.kicad_sym", None, false, &vec![b("X")]).is_ok());
}

#[test]
fn symbol_pins_are_capped() {
    let pins: Vec<SymbolPinInfo> = (0..MAX_PINS + 3)
        .map(|i| SymbolPinInfo {
            name: b(&format!("P{i}")),
            number: b(&format!("{i}")),
            electrical_type: None,
            hidden: false,
            io_name: b(&format!("P{i}")),
        })
        .collect();
    let out = symbol_pins_from(b("U"), pins, vec![], b"  ~", Some(b("M")), None, None, None);
    assert_eq!(out.pins.len(), MAX_PINS);
    assert_eq!(out.truncated, Some(3));
    assert_eq!(out.footprint, None);
    assert_eq!(out.mpn, Some(b("M")));
    let out = symbol_pins_from(b("U"), vec![], vec![], b"Pkg:X", None, None, None, None);
    assert_eq!(out.truncated, None);
    assert_eq!(out.footprint, Some(b("Pkg:X")));
}
