use notetree::render::print_tree;
use notetree::tree::{is_not_hidden_name, Metadata};
use notetree::walk::{
    root_name_or_default, DirWalk, EntryInfo, EntryKind, WalkAction, WalkError, WalkEvent,
};

fn meta() -> Metadata {
    Metadata { len: 0, readonly: false }
}

fn file_info() -> EntryInfo {
    EntryInfo { kind: EntryKind::File, metadata: meta() }
}

fn dir_info() -> EntryInfo {
    EntryInfo { kind: EntryKind::Dir, metadata: meta() }
}

fn link_info(target: &str) -> EntryInfo {
    EntryInfo { kind: EntryKind::Symlink { target: target.to_string() }, metadata: meta() }
}

#[test]
fn round_trip_hidden_file_and_subdirectory() {
    let mut w = DirWalk::new("root".to_string(), is_not_hidden_name);
    let a = w.step(WalkEvent::Listed(vec![
        ".secret".to_string(),
        "b.txt".to_string(),
        "a".to_string(),
    ]));
    // ".secret" is filtered out; "a" sorts before "b.txt" and is visited first
    let p = match a {
        WalkAction::Inspect(p) => p,
        _ => panic!("expected an inspect request"),
    };
    assert_eq!(p, vec!["a".to_string()]);
    let a = w.step(WalkEvent::Classified(dir_info()));
    let p = match a {
        WalkAction::List(p) => p,
        _ => panic!("expected a listing request"),
    };
    assert_eq!(p, vec!["a".to_string()]);
    let a = w.step(WalkEvent::Listed(vec!["c.txt".to_string()]));
    let p = match a {
        WalkAction::Inspect(p) => p,
        _ => panic!("expected an inspect request"),
    };
    assert_eq!(p, vec!["a".to_string(), "c.txt".to_string()]);
    let a = w.step(WalkEvent::Classified(file_info()));
    let p = match a {
        WalkAction::Inspect(p) => p,
        _ => panic!("expected an inspect request"),
    };
    assert_eq!(p, vec!["b.txt".to_string()]);
    let a = w.step(WalkEvent::Classified(file_info()));
    let d = match a {
        WalkAction::Done(d) => d,
        _ => panic!("expected the finished tree"),
    };
    let (text, dirs, files) = print_tree("root", &d);
    assert_eq!(text, "root\n├── a\n│   └── c.txt\n└── b.txt\n\n2 directories, 2 files\n");
    assert_eq!(dirs, 2);
    assert_eq!(files, 2);
}

#[test]
fn empty_directory_renders_label_blank_line_and_counts() {
    let mut w = DirWalk::new("root".to_string(), is_not_hidden_name);
    let a = w.step(WalkEvent::Listed(vec![]));
    let d = match a {
        WalkAction::Done(d) => d,
        _ => panic!("expected the finished tree"),
    };
    assert_eq!(d.name, "root");
    assert_eq!(d.entries.len(), 0);
    let (text, dirs, files) = print_tree("root", &d);
    assert_eq!(text, "root\n\n1 directories, 0 files\n");
    assert_eq!(dirs, 1);
    assert_eq!(files, 0);
}

#[test]
fn listing_failure_yields_listing_error_and_no_tree() {
    let mut w = DirWalk::new("gone".to_string(), is_not_hidden_name);
    let a = w.step(WalkEvent::Failed);
    match a {
        WalkAction::Abort(e) => assert_eq!(e, WalkError::Listing),
        _ => panic!("expected the walk to abort"),
    }
}

#[test]
fn nested_listing_failure_yields_listing_error() {
    let mut w = DirWalk::new("root".to_string(), is_not_hidden_name);
    w.step(WalkEvent::Listed(vec!["sub".to_string()]));
    w.step(WalkEvent::Classified(dir_info()));
    let a = w.step(WalkEvent::Failed);
    match a {
        WalkAction::Abort(e) => assert_eq!(e, WalkError::Listing),
        _ => panic!("expected the walk to abort"),
    }
}

#[test]
fn metadata_failure_yields_metadata_error() {
    let mut w = DirWalk::new("root".to_string(), is_not_hidden_name);
    let a = w.step(WalkEvent::Listed(vec!["x".to_string()]));
    assert!(matches!(a, WalkAction::Inspect(_)));
    let a = w.step(WalkEvent::Failed);
    match a {
        WalkAction::Abort(e) => assert_eq!(e, WalkError::Metadata),
        _ => panic!("expected the walk to abort"),
    }
}

#[test]
fn symlink_to_ancestor_stays_a_leaf() {
    let mut w = DirWalk::new("root".to_string(), is_not_hidden_name);
    let a = w.step(WalkEvent::Listed(vec!["back".to_string()]));
    assert!(matches!(a, WalkAction::Inspect(_)));
    // a cyclic link: it points back at the root being walked
    let a = w.step(WalkEvent::Classified(link_info("..")));
    let d = match a {
        WalkAction::Done(d) => d,
        WalkAction::List(_) => panic!("a symlink must never be listed"),
        _ => panic!("expected the finished tree"),
    };
    let (text, dirs, files) = print_tree("root", &d);
    assert_eq!(text, "root\n└── back -> ..\n\n1 directories, 1 files\n");
    assert_eq!(dirs, 1);
    assert_eq!(files, 1);
}

#[test]
fn hidden_directory_is_skipped_entirely() {
    let mut w = DirWalk::new("root".to_string(), is_not_hidden_name);
    // ".git" is rejected by the filter: it is never inspected, never
    // listed, and nothing under it can reach the tree
    let a = w.step(WalkEvent::Listed(vec![".git".to_string(), "z.txt".to_string()]));
    let p = match a {
        WalkAction::Inspect(p) => p,
        _ => panic!("expected an inspect request"),
    };
    assert_eq!(p, vec!["z.txt".to_string()]);
    let a = w.step(WalkEvent::Classified(file_info()));
    let d = match a {
        WalkAction::Done(d) => d,
        _ => panic!("expected the finished tree"),
    };
    let (text, _, _) = print_tree("root", &d);
    assert!(!text.contains(".git"));
    assert_eq!(text, "root\n└── z.txt\n\n1 directories, 1 files\n");
}

#[test]
fn root_name_falls_back_to_current_directory_placeholder() {
    assert_eq!(root_name_or_default(None), ".");
    assert_eq!(root_name_or_default(Some("notes".to_string())), "notes");
}

#[test]
fn siblings_appear_sorted_whatever_order_the_listing_gave() {
    let mut w = DirWalk::new("root".to_string(), is_not_hidden_name);
    let a = w.step(WalkEvent::Listed(vec![
        "c".to_string(),
        "a".to_string(),
        "b".to_string(),
    ]));
    let p = match a {
        WalkAction::Inspect(p) => p,
        _ => panic!("expected an inspect request"),
    };
    assert_eq!(p, vec!["a".to_string()]);
    w.step(WalkEvent::Classified(file_info()));
    w.step(WalkEvent::Classified(file_info()));
    let a = w.step(WalkEvent::Classified(file_info()));
    let d = match a {
        WalkAction::Done(d) => d,
        _ => panic!("expected the finished tree"),
    };
    let (text, _, _) = print_tree("root", &d);
    assert_eq!(text, "root\n├── a\n├── b\n└── c\n\n1 directories, 3 files\n");
}
