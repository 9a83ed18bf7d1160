use zen_build::layout_check::{in_scope, retain_in_scope, LayoutProblem, SpaceDirection};

fn b(s: &str) -> Vec<u8> {
    s.as_bytes().to_vec()
}

fn overlap(a: &str, c: &str) -> LayoutProblem {
    LayoutProblem::ComponentOverlap { a: b(a), b: b(c) }
}

#[test]
fn problems_name_the_instances_they_touch() {
    assert_eq!(overlap("root.A", "root.B").paths(), vec![b("root.A"), b("root.B")]);
    let wire = LayoutProblem::WireThroughComponent { net: b("VCC"), component: b("root.U1") };
    assert_eq!(wire.paths(), vec![b("root.U1")]);
    let label = LayoutProblem::LabelOverlapsComponent {
        net: b("GND"),
        component: b("root.C1"),
        overlaps: b("root.R1"),
    };
    assert_eq!(label.paths(), vec![b("root.C1"), b("root.R1")]);
    let labels = LayoutProblem::LabelOverlapsLabel {
        net: b("A"),
        component: b("root.X"),
        other_net: b("B"),
        other_component: b("root.Y"),
    };
    assert_eq!(labels.paths(), vec![b("root.X"), b("root.Y")]);
}

#[test]
fn scope_matches_the_subtree() {
    assert!(in_scope(None, b"root.A"));
    assert!(in_scope(Some(b"root"), b"root.A.B"));
    assert!(in_scope(Some(b"root.A"), b"root.A"));
    assert!(in_scope(Some(b"root.A"), b"root.A.R1"));
    assert!(!in_scope(Some(b"root.A"), b"root.AB"));
    assert!(!in_scope(Some(b"root.A"), b"root.B"));
}

#[test]
fn scope_filters_unrelated_problems() {
    let problems = vec![
        overlap("root.A.R1", "root.B.R1"),
        overlap("root.B.R1", "root.B.R2"),
        LayoutProblem::WireThroughComponent { net: b("N"), component: b("root.A.C1") },
    ];
    let kept = retain_in_scope(problems, Some(b"root.A"));
    assert_eq!(kept.len(), 2);
    assert_eq!(kept[0].paths(), vec![b("root.A.R1"), b("root.B.R1")]);
    assert_eq!(kept[1].paths(), vec![b("root.A.C1")]);
    let all = retain_in_scope(vec![overlap("root.X", "root.Y")], None);
    assert_eq!(all.len(), 1);
    assert_ne!(SpaceDirection::Top, SpaceDirection::Bottom);
}
