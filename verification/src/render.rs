//! The printer: renders a walked tree as indented text with box-drawing
//! connectors and reports the directory and file counts. The whole output
//! text is specified character by character by [`rendered`], and the
//! counts are the spec-level measures of the tree's shape.

use vstd::prelude::*;
use crate::tree::{Directory, FileTree, dirs_in, dirs_in_seq, files_in, files_in_seq, dir_count,
    file_count};

verus! {

/// The connector glyph put before an entry's name: the "last" form for
/// the final entry of a directory level, the "other" form for the rest.
pub open spec fn entry_glyph(last: bool) -> Seq<char> {
    if last {
        "└── "@
    } else {
        "├── "@
    }
}

/// The continuation glyph appended to the prefix when descending into a
/// child directory: blank-continuation (non-breaking spaces) below a last
/// child, a vertical bar below the others.
pub open spec fn child_glyph(last: bool) -> Seq<char> {
    if last {
        "│\u{00A0}\u{00A0} "@
    } else {
        "│   "@
    }
}

/// The text a single node contributes: its own line, and, for a
/// directory, the lines of its children under the extended prefix.
pub open spec fn render_entry(t: FileTree, prefix: Seq<char>, last: bool) -> Seq<char>
    decreases t,
{
    match t {
        FileTree::DirNode(d) => prefix + entry_glyph(last) + d.name@ + "\n"@ + render_entries(
            d.entries@,
            prefix + child_glyph(last),
        ),
        FileTree::FileNode(f) => prefix + entry_glyph(last) + f.name@ + "\n"@,
        FileTree::LinkNode(l) => prefix + entry_glyph(last) + l.name@ + " -> "@ + l.target@
            + "\n"@,
    }
}

/// The text a directory level contributes, in stored order. The head
/// entry is rendered as "last" exactly when it is the only one left.
pub open spec fn render_entries(s: Seq<FileTree>, prefix: Seq<char>) -> Seq<char>
    decreases s,
{
    if s.len() == 0 {
        Seq::empty()
    } else {
        render_entry(s[0], prefix, s.len() == 1) + render_entries(s.drop_first(), prefix)
    }
}

/// The decimal digits of `n`, most significant first, no sign, no
/// leading zero (except for `n == 0` itself).
pub open spec fn dec_digits(n: nat) -> Seq<char>
    decreases n,
{
    if n < 10 {
        seq![digit_char(n)]
    } else {
        dec_digits(n / 10).push(digit_char(n % 10))
    }
}

/// The character for one decimal digit.
pub open spec fn digit_char(d: nat) -> char {
    if d == 0 {
        '0'
    } else if d == 1 {
        '1'
    } else if d == 2 {
        '2'
    } else if d == 3 {
        '3'
    } else if d == 4 {
        '4'
    } else if d == 5 {
        '5'
    } else if d == 6 {
        '6'
    } else if d == 7 {
        '7'
    } else if d == 8 {
        '8'
    } else {
        '9'
    }
}

/// The full output of the printer: the label line, the rendered tree,
/// a blank line, and the summary line with both counts.
pub open spec fn rendered(label: Seq<char>, d: Directory) -> Seq<char> {
    label + "\n"@ + render_entries(d.entries@, Seq::empty()) + "\n"@ + dec_digits(dir_count(d))
        + " directories, "@ + dec_digits(file_count(d)) + " files\n"@
}

/// Connector correctness: in the rendering of a level `s`, the entry at
/// position `i` contributes its text with the "last" connector exactly
/// when it is the final entry, and the two connector glyphs differ, so
/// no other entry can show the "last" one.
pub proof fn lemma_connector_correctness(s: Seq<FileTree>, prefix: Seq<char>, i: int)
    requires
        0 <= i < s.len(),
    ensures
        render_entries(s.skip(i), prefix) == render_entry(s[i], prefix, i == s.len() - 1)
            + render_entries(s.skip(i + 1), prefix),
        entry_glyph(i == s.len() - 1) == entry_glyph(true) <==> i == s.len() - 1,
{
    assert(s.skip(i)[0] == s[i]);
    assert(s.skip(i).drop_first() =~= s.skip(i + 1));
    assert((s.skip(i).len() == 1) == (i == s.len() - 1));
    reveal_strlit("└── ");
    reveal_strlit("├── ");
    assert(entry_glyph(true)[0] != entry_glyph(false)[0]);
}

fn digit_str(d: usize) -> (r: &'static str)
    requires
        d < 10,
    ensures
        r@ == seq![digit_char(d as nat)],
{
    let r: &'static str = if d == 0 {
        "0"
    } else if d == 1 {
        "1"
    } else if d == 2 {
        "2"
    } else if d == 3 {
        "3"
    } else if d == 4 {
        "4"
    } else if d == 5 {
        "5"
    } else if d == 6 {
        "6"
    } else if d == 7 {
        "7"
    } else if d == 8 {
        "8"
    } else {
        "9"
    };
    proof {
        reveal_strlit("0");
        reveal_strlit("1");
        reveal_strlit("2");
        reveal_strlit("3");
        reveal_strlit("4");
        reveal_strlit("5");
        reveal_strlit("6");
        reveal_strlit("7");
        reveal_strlit("8");
        reveal_strlit("9");
        assert(r@ =~= seq![digit_char(d as nat)]);
    }
    r
}

/// Renders a count as decimal text.
pub fn usize_to_string(n: usize) -> (s: String)
    ensures
        s@ == dec_digits(n as nat),
    decreases n,
{
    if n < 10 {
        <String as vstd::string::StringExecFns>::from_str(digit_str(n))
    } else {
        let mut s = usize_to_string(n / 10);
        vstd::string::StringExecFns::append(&mut s, digit_str(n % 10));
        proof {
            assert(s@ =~= dec_digits((n / 10) as nat).push(digit_char((n % 10) as nat)));
        }
        s
    }
}

/// Renders one directory's children (recursively) onto `out`, returning
/// the number of directories in the subtree (this one included) and the
/// number of files and symlinks in it.
fn visit(node: &Directory, prefix: &String, out: &mut String) -> (counts: (usize, usize))
    requires
        1 + dirs_in_seq(node.entries@) <= usize::MAX,
        files_in_seq(node.entries@) <= usize::MAX,
    ensures
        final(out)@ == old(out)@ + render_entries(node.entries@, prefix@),
        counts.0 == dir_count(*node),
        counts.1 == file_count(*node),
    decreases *node,
{
    let ghost s = node.entries@;
    let ghost base = out@;
    let n = node.entries.len();
    let mut dirs: usize = 1;
    let mut files: usize = 0;
    let mut i: usize = 0;
    proof {
        assert(s.skip(0) =~= s);
        assert(base + Seq::<char>::empty() =~= base);
    }
    while i < n
        invariant
            i <= n,
            n == s.len(),
            s == node.entries@,
            1 + dirs_in_seq(s) <= usize::MAX,
            files_in_seq(s) <= usize::MAX,
            1 <= dirs,
            base + render_entries(s, prefix@) == out@ + render_entries(s.skip(i as int), prefix@),
            dirs as int + dirs_in_seq(s.skip(i as int)) == 1 + dirs_in_seq(s),
            files as int + files_in_seq(s.skip(i as int)) == files_in_seq(s),
        decreases n - i,
    {
        let ghost pre = out@;
        let is_last = i + 1 == n;
        proof {
            assert(s.skip(i as int)[0] == s[i as int]);
            assert(s.skip(i as int).drop_first() =~= s.skip(i as int + 1));
            assert((s.skip(i as int).len() == 1) == is_last);
            assert(dirs_in_seq(s.skip(i as int)) == dirs_in(s[i as int]) + dirs_in_seq(
                s.skip(i as int + 1),
            ));
            assert(files_in_seq(s.skip(i as int)) == files_in(s[i as int]) + files_in_seq(
                s.skip(i as int + 1),
            ));
        }
        vstd::string::StringExecFns::append(out, prefix.as_str());
        if is_last {
            vstd::string::StringExecFns::append(out, "└── ");
        } else {
            vstd::string::StringExecFns::append(out, "├── ");
        }
        match &node.entries[i] {
            FileTree::DirNode(sub_dir) => {
                proof {
                    assert(s[i as int] == FileTree::DirNode(*sub_dir));
                    assert(dirs_in(s[i as int]) == 1 + dirs_in_seq(sub_dir.entries@));
                    assert(files_in(s[i as int]) == files_in_seq(sub_dir.entries@));
                }
                vstd::string::StringExecFns::append(out, sub_dir.name.as_str());
                vstd::string::StringExecFns::append(out, "\n");
                let mut new_prefix = prefix.clone();
                if is_last {
                    vstd::string::StringExecFns::append(&mut new_prefix, "│\u{00A0}\u{00A0} ");
                } else {
                    vstd::string::StringExecFns::append(&mut new_prefix, "│   ");
                }
                proof {
                    assert(new_prefix@ == prefix@ + child_glyph(is_last));
                }
                let sub_counts = visit(sub_dir, &new_prefix, out);
                proof {
                    assert(out@ =~= pre + render_entry(s[i as int], prefix@, is_last));
                }
                dirs = dirs + sub_counts.0;
                files = files + sub_counts.1;
            },
            FileTree::FileNode(file) => {
                proof {
                    assert(s[i as int] == FileTree::FileNode(*file));
                }
                vstd::string::StringExecFns::append(out, file.name.as_str());
                vstd::string::StringExecFns::append(out, "\n");
                proof {
                    assert(out@ =~= pre + render_entry(s[i as int], prefix@, is_last));
                }
                files = files + 1;
            },
            FileTree::LinkNode(link) => {
                proof {
                    assert(s[i as int] == FileTree::LinkNode(*link));
                }
                vstd::string::StringExecFns::append(out, link.name.as_str());
                vstd::string::StringExecFns::append(out, " -> ");
                vstd::string::StringExecFns::append(out, link.target.as_str());
                vstd::string::StringExecFns::append(out, "\n");
                proof {
                    assert(out@ =~= pre + render_entry(s[i as int], prefix@, is_last));
                }
                files = files + 1;
            },
        }
        proof {
            assert(base + render_entries(s, prefix@) =~= out@ + render_entries(
                s.skip(i as int + 1),
                prefix@,
            ));
        }
        i = i + 1;
    }
    proof {
        assert(s.skip(n as int).len() == 0);
        assert(out@ =~= base + render_entries(s, prefix@));
    }
    (dirs, files)
}

/// Renders the whole tree under the given root label and returns the
/// output text together with the directory and file counts. The text is
/// exactly [`rendered`]`(root, dir)`; the counts are exactly the number
/// of Directory nodes (root included) and of File and Symlink nodes.
pub fn print_tree(root: &str, dir: &Directory) -> (r: (String, usize, usize))
    requires
        dir_count(*dir) <= usize::MAX,
        file_count(*dir) <= usize::MAX,
    ensures
        r.0@ == rendered(root@, *dir),
        r.1 == dir_count(*dir),
        r.2 == file_count(*dir),
{
    let mut out = <String as vstd::string::StringExecFns>::from_str(root);
    vstd::string::StringExecFns::append(&mut out, "\n");
    let empty_prefix = String::new();
    let counts = visit(dir, &empty_prefix, &mut out);
    vstd::string::StringExecFns::append(&mut out, "\n");
    let d_text = usize_to_string(counts.0);
    vstd::string::StringExecFns::append(&mut out, d_text.as_str());
    vstd::string::StringExecFns::append(&mut out, " directories, ");
    let f_text = usize_to_string(counts.1);
    vstd::string::StringExecFns::append(&mut out, f_text.as_str());
    vstd::string::StringExecFns::append(&mut out, " files\n");
    proof {
        assert(out@ =~= rendered(root@, *dir));
    }
    (out, counts.0, counts.1)
}

} // verus!
