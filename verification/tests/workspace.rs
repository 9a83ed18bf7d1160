use zen_build::workspace::{discovery_start, OpenOptions, Workspace};

#[test]
fn open_options_default_online_without_stdlib() {
    let o = OpenOptions::default();
    assert!(!o.offline);
    assert!(o.stdlib_source.is_none());
}

#[test]
fn discovery_starts_at_the_directory_of_a_file() {
    assert_eq!(discovery_start(b"/p/board.zen", true, Some(b"/p".to_vec())), b"/p".to_vec());
    assert_eq!(discovery_start(b"/p", false, Some(b"/".to_vec())), b"/p".to_vec());
    assert_eq!(discovery_start(b"board.zen", true, None), b"board.zen".to_vec());
}

#[test]
fn reload_takes_up_the_new_resolution_and_keeps_options() {
    let opts = OpenOptions { offline: true, stdlib_source: Some(b"/bundle/std".to_vec()) };
    let mut ws = Workspace::open_with(1u32, b"/p".to_vec(), b"/p/.pcb/stdlib".to_vec(), &opts);
    assert_eq!(ws.root(), b"/p");
    assert_eq!(ws.stdlib_dir(), b"/p/.pcb/stdlib".to_vec());
    assert_eq!(*ws.engine(), 1);
    ws.reload(2u32, b"/q".to_vec(), b"/q/.pcb/stdlib".to_vec());
    assert_eq!(ws.root(), b"/q");
    assert_eq!(ws.stdlib_dir(), b"/q/.pcb/stdlib".to_vec());
    assert_eq!(*ws.engine(), 2);
    assert!(ws.offline());
    assert_eq!(ws.stdlib_source(), Some(b"/bundle/std".to_vec()));
}

#[test]
fn open_is_online_or_offline_without_a_stdlib_source() {
    let ws = Workspace::open(7u8, b"/w".to_vec(), b"/w/.pcb/stdlib".to_vec(), true);
    assert!(ws.offline());
    assert_eq!(ws.stdlib_source(), None);
    assert_eq!(ws.root(), b"/w");
    assert_eq!(*ws.engine(), 7);
    let ws = Workspace::open(7u8, b"/w".to_vec(), b"/w/.pcb/stdlib".to_vec(), false);
    assert!(!ws.offline());
}
