use notetree::render::{print_tree, usize_to_string};
use notetree::tree::{Directory, File, FileTree, Metadata, Symlink};

fn meta() -> Metadata {
    Metadata { len: 7, readonly: true }
}

fn file_node(name: &str) -> FileTree {
    FileTree::FileNode(File { name: name.to_string(), metadata: meta() })
}

fn link_node(name: &str, target: &str) -> FileTree {
    FileTree::LinkNode(Symlink {
        name: name.to_string(),
        target: target.to_string(),
        metadata: meta(),
    })
}

fn dir_node(name: &str, entries: Vec<FileTree>) -> FileTree {
    FileTree::DirNode(Directory { name: name.to_string(), entries })
}

#[test]
fn counts_cover_every_directory_and_every_file_or_symlink() {
    // root(1) + sub(1) directories; f, l, x files (symlinks count as files)
    let root = Directory {
        name: "top".to_string(),
        entries: vec![
            dir_node("sub", vec![file_node("f")]),
            link_node("l", "t"),
            file_node("x"),
        ],
    };
    let (text, dirs, files) = print_tree("top", &root);
    assert_eq!(dirs, 2);
    assert_eq!(files, 3);
    assert_eq!(text, "top\n├── sub\n│   └── f\n├── l -> t\n└── x\n\n2 directories, 3 files\n");
}

#[test]
fn last_subdirectory_gets_blank_continuation_prefix() {
    // "sub" is the last entry of the root level, so its own children are
    // drawn under the non-breaking-space continuation, not the bar
    let root = Directory {
        name: "top".to_string(),
        entries: vec![
            file_node("a.txt"),
            dir_node("sub", vec![file_node("deep")]),
        ],
    };
    let (text, dirs, files) = print_tree("top", &root);
    assert_eq!(dirs, 2);
    assert_eq!(files, 2);
    assert_eq!(
        text,
        "top\n├── a.txt\n└── sub\n│\u{00A0}\u{00A0} └── deep\n\n2 directories, 2 files\n",
    );
}

#[test]
fn exactly_the_final_entry_of_each_level_uses_the_last_connector() {
    let root = Directory {
        name: "top".to_string(),
        entries: vec![file_node("a"), file_node("b"), file_node("c")],
    };
    let (text, _, _) = print_tree("top", &root);
    let lines: Vec<&str> = text.lines().collect();
    assert_eq!(lines[1], "├── a");
    assert_eq!(lines[2], "├── b");
    assert_eq!(lines[3], "└── c");
    assert_eq!(text.matches("└── ").count(), 1);
}

#[test]
fn deep_nesting_keeps_counts_exact() {
    // a chain of four directories ending in one file
    let root = Directory {
        name: "d0".to_string(),
        entries: vec![dir_node("d1", vec![dir_node("d2", vec![dir_node(
            "d3",
            vec![file_node("leaf")],
        )])])],
    };
    let (_, dirs, files) = print_tree("d0", &root);
    assert_eq!(dirs, 4);
    assert_eq!(files, 1);
}

#[test]
fn counts_render_in_decimal() {
    assert_eq!(usize_to_string(0), "0");
    assert_eq!(usize_to_string(9), "9");
    assert_eq!(usize_to_string(10), "10");
    assert_eq!(usize_to_string(1203), "1203");
}

#[test]
fn many_files_render_a_two_digit_summary() {
    let mut entries = Vec::new();
    let names = ["a", "b", "c", "d", "e", "f", "g", "h", "i", "j", "k", "l"];
    for n in names.iter() {
        entries.push(file_node(n));
    }
    let root = Directory { name: "top".to_string(), entries };
    let (text, dirs, files) = print_tree("top", &root);
    assert_eq!(dirs, 1);
    assert_eq!(files, 12);
    assert!(text.ends_with("\n1 directories, 12 files\n"));
}
