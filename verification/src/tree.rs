//! The in-memory data model: a tagged tree of directories, files and
//! symlinks, together with the spec-level measures (directory and file
//! counts) and the recursive well-formedness predicates that the walker
//! establishes and the printer reports on.

use vstd::prelude::*;

verus! {

/// The plain facts the walk records about a file or symlink entry.
/// The tree carries them without interpreting them.
#[derive(Clone, Copy, PartialEq, Eq, Structural, Debug)]
pub struct Metadata {
    /// Size of the entry in bytes.
    pub len: u64,
    /// Whether the entry is read-only.
    pub readonly: bool,
}

/// A regular file: its name (the final path component) and its metadata.
pub struct File {
    pub name: String,
    pub metadata: Metadata,
}

/// A symbolic link: its name, the target path text it points at
/// (never followed by the walk), and the link's own metadata.
pub struct Symlink {
    pub name: String,
    pub target: String,
    pub metadata: Metadata,
}

/// A directory: its name and its children, in the order the walk
/// produced them (filtered and sorted; immutable thereafter).
pub struct Directory {
    pub name: String,
    pub entries: Vec<FileTree>,
}

/// A node of the walked tree. The variant set is closed and is matched
/// exhaustively by the printer.
pub enum FileTree {
    DirNode(Directory),
    FileNode(File),
    LinkNode(Symlink),
}

/// The name of a node, as a sequence of characters.
pub open spec fn entry_name(t: FileTree) -> Seq<char> {
    match t {
        FileTree::DirNode(d) => d.name@,
        FileTree::FileNode(f) => f.name@,
        FileTree::LinkNode(l) => l.name@,
    }
}

/// The names of a sequence of nodes, in order.
pub open spec fn entry_names(s: Seq<FileTree>) -> Seq<Seq<char>> {
    s.map_values(|t: FileTree| entry_name(t))
}

/// Number of Directory nodes in a subtree rooted at `t` (inclusive).
pub open spec fn dirs_in(t: FileTree) -> nat
    decreases t,
{
    match t {
        FileTree::DirNode(d) => 1 + dirs_in_seq(d.entries@),
        _ => 0,
    }
}

/// Number of Directory nodes in a forest.
pub open spec fn dirs_in_seq(s: Seq<FileTree>) -> nat
    decreases s,
{
    if s.len() == 0 {
        0
    } else {
        dirs_in(s[0]) + dirs_in_seq(s.drop_first())
    }
}

/// Number of File and Symlink nodes in a subtree rooted at `t`.
/// Symlinks count as files, not separately.
pub open spec fn files_in(t: FileTree) -> nat
    decreases t,
{
    match t {
        FileTree::DirNode(d) => files_in_seq(d.entries@),
        FileTree::FileNode(_) => 1,
        FileTree::LinkNode(_) => 1,
    }
}

/// Number of File and Symlink nodes in a forest.
pub open spec fn files_in_seq(s: Seq<FileTree>) -> nat
    decreases s,
{
    if s.len() == 0 {
        0
    } else {
        files_in(s[0]) + files_in_seq(s.drop_first())
    }
}

/// Directory count of a whole walked tree: the root directory itself
/// counts as one.
pub open spec fn dir_count(d: Directory) -> nat {
    1 + dirs_in_seq(d.entries@)
}

/// File count of a whole walked tree.
pub open spec fn file_count(d: Directory) -> nat {
    files_in_seq(d.entries@)
}

/// Every node in the subtree rooted at `t` (including `t` itself) has a
/// name satisfying `p`.
pub open spec fn entry_accepted(p: spec_fn(Seq<char>) -> bool, t: FileTree) -> bool
    decreases t,
{
    p(entry_name(t)) && match t {
        FileTree::DirNode(d) => forall|i: int|
            0 <= i < d.entries@.len() ==> entry_accepted(p, #[trigger] d.entries@[i]),
        _ => true,
    }
}

/// Every node strictly below the root has a name satisfying `p`.
/// The root's own name is exempt: it comes from the walked path, not
/// from a filtered listing.
pub open spec fn tree_accepted(p: spec_fn(Seq<char>) -> bool, d: Directory) -> bool {
    forall|i: int| 0 <= i < d.entries@.len() ==> entry_accepted(p, #[trigger] d.entries@[i])
}

/// The subtree rooted at `t` is ordered: in every directory in it the
/// children's names are sorted ascending by `leq` (pairwise).
pub open spec fn entry_ordered(leq: spec_fn(Seq<char>, Seq<char>) -> bool, t: FileTree) -> bool
    decreases t,
{
    match t {
        FileTree::DirNode(d) => vstd::relations::sorted_by(entry_names(d.entries@), leq)
            && forall|i: int|
            0 <= i < d.entries@.len() ==> entry_ordered(leq, #[trigger] d.entries@[i]),
        _ => true,
    }
}

/// Every directory level of the tree, the root's own level included,
/// is sorted ascending by `leq`.
pub open spec fn tree_ordered(leq: spec_fn(Seq<char>, Seq<char>) -> bool, d: Directory) -> bool {
    vstd::relations::sorted_by(entry_names(d.entries@), leq) && forall|i: int|
        0 <= i < d.entries@.len() ==> entry_ordered(leq, #[trigger] d.entries@[i])
}

/// Acceptance is monotone: a subtree accepted under `p` is accepted
/// under any weaker predicate `q`.
pub proof fn lemma_entry_accepted_monotone(
    p: spec_fn(Seq<char>) -> bool,
    q: spec_fn(Seq<char>) -> bool,
    t: FileTree,
)
    requires
        entry_accepted(p, t),
        forall|n: Seq<char>| #[trigger] p(n) ==> q(n),
    ensures
        entry_accepted(q, t),
    decreases t,
{
    assert(q(entry_name(t)));
    match t {
        FileTree::DirNode(d) => {
            assert forall|i: int| 0 <= i < d.entries@.len() implies entry_accepted(
                q,
                #[trigger] d.entries@[i],
            ) by {
                lemma_entry_accepted_monotone(p, q, d.entries@[i]);
            }
        },
        _ => {},
    }
}

/// A name is not hidden when it does not start with a dot.
pub open spec fn is_not_hidden(s: Seq<char>) -> bool {
    !(s.len() > 0 && s[0] == '.')
}

/// The default name filter: rejects hidden entries, that is, names
/// beginning with a dot. The empty name is not hidden.
pub fn is_not_hidden_name(name: &str) -> (r: bool)
    ensures
        r == is_not_hidden(name@),
{
    let n = vstd::string::StrSliceExecFns::unicode_len(name);
    if n == 0 {
        true
    } else {
        vstd::string::StrSliceExecFns::get_char(name, 0) != '.'
    }
}

} // verus!
