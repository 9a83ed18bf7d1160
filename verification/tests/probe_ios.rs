use zen_build::model::{BuildOutput, Diag, NetDoc, SchematicDoc, Severity};
use zen_build::facts::facts_default;
use zen_build::probe::{probe_module_ios, stand_in_attrs};

fn b(s: &str) -> Vec<u8> {
    s.as_bytes().to_vec()
}

fn diag(severity: Severity, message: &str, suppressed: bool) -> Diag {
    Diag {
        severity,
        message: b(message),
        kind: None,
        file: None,
        line: None,
        col: None,
        end_line: None,
        end_col: None,
        suppressed,
        stack: vec![],
    }
}

fn net(name: &str, kind: &str) -> NetDoc {
    NetDoc { name: b(name), kind: b(kind), ports: vec![] }
}

fn schematic() -> SchematicDoc {
    SchematicDoc {
        root_module: b("mod"),
        instances: vec![],
        nets: vec![net("GND", "Ground"), net("VIN", "Power"), net("SIG", "Net")],
        by_refdes: vec![],
    }
}

#[test]
fn probe_reports_each_net_type() {
    let out = BuildOutput {
        source: b("m.zen"),
        schematic: Some(schematic()),
        diagnostics: vec![diag(Severity::Warning, "w", false), diag(Severity::Error, "hidden", true)],
    };
    let ios = probe_module_ios(&out).unwrap();
    assert_eq!(ios, vec![(b("GND"), b("Ground")), (b("VIN"), b("Power")), (b("SIG"), b("Net"))]);
}

#[test]
fn probe_refuses_a_module_that_does_not_build() {
    let out = BuildOutput {
        source: b("m.zen"),
        schematic: Some(schematic()),
        diagnostics: vec![
            diag(Severity::Error, "first, suppressed", true),
            diag(Severity::Error, "second", false),
        ],
    };
    let err = probe_module_ios(&out).err().unwrap();
    assert_eq!(String::from_utf8(err).unwrap(), "the module itself does not build: first, suppressed");
    let out = BuildOutput { source: b("m.zen"), schematic: None, diagnostics: vec![] };
    let err = probe_module_ios(&out).err().unwrap();
    assert_eq!(String::from_utf8(err).unwrap(), "module probe produced no schematic");
}

#[test]
fn required_configs_get_type_stand_ins() {
    let mut f = facts_default();
    f.config_required = vec![b("value"), b("package"), b("note"), b("count")];
    f.config_types = vec![(b("value"), b("Resistance")), (b("package"), b("Package")), (b("count"), b("int"))];
    f.enums = vec![(b("Package"), vec![b("0402"), b("0603")])];
    let attrs = stand_in_attrs(&f);
    assert_eq!(
        attrs,
        vec![
            (b("value"), b("10kohm")),
            (b("package"), b("0402")),
            (b("note"), b("1")),
            (b("count"), b("1")),
        ]
    );
}
