//! The walker: reads a directory subtree into a [`Directory`] tree,
//! filtering each level's names through a caller-supplied predicate and
//! ordering the survivors ascending lexicographically.
//!
//! The walk itself performs no I/O. [`DirWalk`] is a step machine: each
//! [`WalkAction`] asks the caller to list a directory or to classify one
//! entry, and the caller answers with a [`WalkEvent`]. Symlinks are taken
//! as leaves carrying their target text and are never asked to be listed,
//! so a cyclic link cannot make the walk recurse.

use vstd::prelude::*;
use vstd::relations::sorted_by;
use vstd::seq_lib::group_to_multiset_ensures;
use crate::order::{lex_leq, name_views, sort_names};
use crate::tree::{Directory, File, FileTree, Metadata, Symlink};

verus! {

/// Filter `f` can answer `b` on the name `n`.
pub open spec fn decided<F: Fn(&str) -> bool>(f: F, n: Seq<char>, b: bool) -> bool {
    exists|s: &str| s@ == n && call_ensures(f, (s,), b)
}

/// Filter `f` can accept the name `n`. A node stands in a walked tree
/// only if its name satisfies this; for a deterministic filter that is
/// exactly "the filter does not reject the name".
pub open spec fn accepts<F: Fn(&str) -> bool>(f: F, n: Seq<char>) -> bool {
    decided(f, n, true)
}

/// `dec` records, name by name, an answer the filter can give on `names`.
pub open spec fn decisions<F: Fn(&str) -> bool>(f: F, names: Seq<String>, dec: Seq<bool>) -> bool {
    dec.len() == names.len() && forall|j: int|
        0 <= j < names.len() ==> decided(f, #[trigger] names[j]@, dec[j])
}

/// The names of `names` whose decision in `dec` is `true`, in order.
pub open spec fn selected(names: Seq<String>, dec: Seq<bool>) -> Seq<Seq<char>>
    recommends
        dec.len() == names.len(),
    decreases names.len(),
{
    if names.len() == 0 {
        Seq::empty()
    } else {
        let rest = selected(names.drop_last(), dec.drop_last());
        if dec.len() == names.len() && dec.last() {
            rest.push(names.last()@)
        } else {
            rest
        }
    }
}

/// Filters one directory level through the caller's predicate and sorts
/// the survivors ascending lexicographically: exactly the names the
/// filter kept, in sorted order, and nothing else.
pub fn prepare_level<F: Fn(&str) -> bool>(names: Vec<String>, filter: &F) -> (kept: Vec<String>)
    requires
        forall|s: &str| #[trigger] call_requires(*filter, (s,)),
    ensures
        sorted_by(name_views(kept@), lex_leq()),
        forall|i: int| 0 <= i < kept@.len() ==> accepts(*filter, #[trigger] kept@[i]@),
        exists|dec: Seq<bool>|
            decisions(*filter, names@, dec) && name_views(kept@).to_multiset() == selected(
                names@,
                dec,
            ).to_multiset(),
{
    let mut picked: Vec<String> = Vec::new();
    let ghost mut dec: Seq<bool> = Seq::empty();
    proof {
        assert(name_views(picked@) =~= selected(names@.take(0), dec));
    }
    let mut i: usize = 0;
    while i < names.len()
        invariant
            i <= names@.len(),
            dec.len() == i,
            forall|s: &str| #[trigger] call_requires(*filter, (s,)),
            forall|j: int| 0 <= j < i ==> decided(*filter, #[trigger] names@[j]@, dec[j]),
            name_views(picked@) == selected(names@.take(i as int), dec),
            forall|k: int| 0 <= k < picked@.len() ==> accepts(*filter, #[trigger] picked@[k]@),
        decreases names@.len() - i,
    {
        let ghost old_dec = dec;
        let ghost old_picked = picked@;
        let name_ref = &names[i];
        let keep = (*filter)(name_ref.as_str());
        proof {
            dec = dec.push(keep);
        }
        if keep {
            picked.push(name_ref.clone());
        }
        proof {
            let t1 = names@.take(i as int + 1);
            assert(t1.drop_last() =~= names@.take(i as int));
            assert(dec.drop_last() =~= old_dec);
            assert(t1.last() == names@[i as int]);
            if keep {
                assert(name_views(picked@) =~= name_views(old_picked).push(names@[i as int]@));
            }
            assert(name_views(picked@) == selected(t1, dec));
        }
        i = i + 1;
    }
    proof {
        assert(names@.take(names@.len() as int) =~= names@);
    }
    let ghost final_dec = dec;
    let kept = sort_names(picked);
    proof {
        broadcast use group_to_multiset_ensures;

        assert(decisions(*filter, names@, final_dec));
        assert(name_views(kept@).to_multiset() == selected(names@, final_dec).to_multiset());
        assert forall|i2: int| 0 <= i2 < kept@.len() implies accepts(
            *filter,
            #[trigger] kept@[i2]@,
        ) by {
            assert(name_views(kept@)[i2] == kept@[i2]@);
            assert(name_views(kept@).contains(kept@[i2]@));
            assert(name_views(kept@).to_multiset().count(kept@[i2]@) > 0);
            assert(name_views(picked@).to_multiset().count(kept@[i2]@) > 0);
            assert(name_views(picked@).contains(kept@[i2]@));
            let w = choose|k: int|
                0 <= k < name_views(picked@).len() && name_views(picked@)[k] == kept@[i2]@;
            assert(picked@[w]@ == kept@[i2]@);
        }
    }
    kept
}

/// Filtering is complete and recursive: when the filter answers a pure
/// predicate `pred` (as the default hidden-name filter answers
/// [`crate::tree::is_not_hidden`]), every node below the root of a
/// finished walk has a name satisfying `pred` — a rejected name appears
/// nowhere in the tree, nor does anything beneath it.
pub proof fn lemma_filtering_complete<F: Fn(&str) -> bool>(
    f: F,
    pred: spec_fn(Seq<char>) -> bool,
    d: Directory,
)
    requires
        crate::tree::tree_accepted(accept_pred(f), d),
        forall|s: &str, b: bool| #[trigger] call_ensures(f, (s,), b) ==> b == pred(s@),
    ensures
        crate::tree::tree_accepted(pred, d),
{
    assert forall|n: Seq<char>| #[trigger] accept_pred(f)(n) implies pred(n) by {
        let s = choose|s: &str| s@ == n && call_ensures(f, (s,), true);
        assert(call_ensures(f, (s,), true));
    }
    assert forall|i: int| 0 <= i < d.entries@.len() implies crate::tree::entry_accepted(
        pred,
        #[trigger] d.entries@[i],
    ) by {
        crate::tree::lemma_entry_accepted_monotone(accept_pred(f), pred, d.entries@[i]);
    }
}

/// How a listed entry was classified by the caller's metadata lookup.
pub enum EntryKind {
    /// A directory: the walk will ask for its listing and recurse.
    Dir,
    /// A regular file.
    File,
    /// A symbolic link, with the target path text it points at. The walk
    /// never follows it.
    Symlink { target: String },
}

/// The caller's answer to an [`WalkAction::Inspect`] request.
pub struct EntryInfo {
    pub kind: EntryKind,
    pub metadata: Metadata,
}

/// Why a walk was aborted. Both are fatal: the walk ends with no
/// partial result.
#[derive(Clone, Copy, PartialEq, Eq, Structural, Debug)]
pub enum WalkError {
    /// A directory listing failed (missing path, permission, not a
    /// directory) — the initial one or any recursive one.
    Listing,
    /// Fetching metadata for a listed entry failed.
    Metadata,
}

/// The caller's answer to the previous action.
pub enum WalkEvent {
    /// The names in the requested directory, in any order the storage
    /// gave them.
    Listed(Vec<String>),
    /// The classification of the requested entry.
    Classified(EntryInfo),
    /// The requested listing or metadata fetch failed.
    Failed,
}

/// What the walk asks the caller to do next.
pub enum WalkAction {
    /// List the directory at this path (components relative to the walk
    /// root) and answer with `Listed`, or `Failed` if the listing fails.
    List(Vec<String>),
    /// Fetch the kind and metadata of the entry at this path and answer
    /// with `Classified`, or `Failed` if that fails.
    Inspect(Vec<String>),
    /// The walk is complete; this is the assembled tree.
    Done(Directory),
    /// The walk failed and no tree is produced.
    Abort(WalkError),
}

/// One directory still being assembled: the nodes built so far (in
/// order) and the names still to classify, reversed so the next one is
/// popped off the end.
pub struct Frame {
    pub name: String,
    pub built: Vec<FileTree>,
    pub todo: Vec<String>,
}

/// What the machine is waiting for.
pub enum Pending {
    /// The listing of the directory called `name` (its frame is pushed
    /// when the listing arrives).
    AwaitList { name: String },
    /// The classification of the entry called `name` in the top frame.
    AwaitInfo { name: String },
    /// Nothing: the walk has ended in `Done` or `Abort`.
    Idle,
}

/// The names still to be classified in a frame, in walk order.
pub open spec fn todo_names(fr: Frame) -> Seq<Seq<char>> {
    name_views(fr.todo@).reverse()
}

/// The names of the nodes already built in a frame, in order.
pub open spec fn built_names(fr: Frame) -> Seq<Seq<char>> {
    crate::tree::entry_names(fr.built@)
}

/// One whole directory level as the walk sees it: the names already
/// built, then the one in flight (if any), then the ones still to do.
pub open spec fn frame_line(fr: Frame, mid: Seq<Seq<char>>) -> Seq<Seq<char>> {
    built_names(fr) + mid + todo_names(fr)
}

/// The filter's acceptance, as a predicate on names.
pub open spec fn accept_pred<F: Fn(&str) -> bool>(f: F) -> spec_fn(Seq<char>) -> bool {
    |n: Seq<char>| accepts(f, n)
}

/// A frame is well formed under filter `f` when everything built is
/// accepted and ordered, everything still to do is accepted, and the
/// whole level line is sorted.
pub open spec fn frame_inv<F: Fn(&str) -> bool>(f: F, fr: Frame, mid: Seq<Seq<char>>) -> bool {
    &&& forall|i: int|
        0 <= i < fr.built@.len() ==> crate::tree::entry_accepted(
            accept_pred(f),
            #[trigger] fr.built@[i],
        )
    &&& forall|i: int|
        0 <= i < fr.built@.len() ==> crate::tree::entry_ordered(lex_leq(), #[trigger] fr.built@[i])
    &&& forall|j: int| 0 <= j < fr.todo@.len() ==> accepts(f, #[trigger] fr.todo@[j]@)
    &&& sorted_by(frame_line(fr, mid), lex_leq())
}

/// The path of the directory level `stack[i]` belongs to, relative to
/// the walk root (the root frame contributes no component).
pub open spec fn stack_path(stack: Seq<Frame>) -> Seq<Seq<char>> {
    if stack.len() == 0 {
        Seq::empty()
    } else {
        stack.skip(1).map_values(|fr: Frame| fr.name@)
    }
}

/// The walk of one directory subtree, as a step machine. Feed it the
/// answer to each action it asks for; it filters, orders and assembles,
/// and finally hands out the tree or an error.
pub struct DirWalk<F: Fn(&str) -> bool> {
    /// The caller-supplied name filter, applied to every listed name.
    pub filter: F,
    /// The directories currently being assembled, root first.
    pub stack: Vec<Frame>,
    /// What the machine waits for next.
    pub pending: Pending,
    /// The name the finished tree's root will carry.
    pub root_name: Ghost<Seq<char>>,
}

impl<F: Fn(&str) -> bool> DirWalk<F> {
    /// The in-flight name between frame `i`'s built and todo parts.
    pub open spec fn mid_of(self, i: int) -> Seq<Seq<char>> {
        if i < self.stack@.len() - 1 {
            seq![self.stack@[i + 1].name@]
        } else {
            match self.pending {
                Pending::AwaitList { name } => seq![name@],
                Pending::AwaitInfo { name } => seq![name@],
                Pending::Idle => Seq::empty(),
            }
        }
    }

    /// The machine's well-formedness: every frame is well formed under
    /// the filter, every frame below the root is itself an accepted
    /// name, and the root frame carries the root name.
    pub open spec fn inv(self) -> bool {
        &&& forall|s: &str| #[trigger] call_requires(self.filter, (s,))
        &&& forall|i: int|
            0 <= i < self.stack@.len() ==> frame_inv(
                self.filter,
                #[trigger] self.stack@[i],
                self.mid_of(i),
            )
        &&& forall|i: int| 1 <= i < self.stack@.len() ==> accepts(
            self.filter,
            #[trigger] self.stack@[i].name@,
        )
        &&& (self.pending matches Pending::AwaitInfo { name } ==> self.stack@.len() > 0 && accepts(
            self.filter,
            name@,
        ))
        &&& (match self.pending {
            Pending::AwaitList { name } => if self.stack@.len() > 0 {
                accepts(self.filter, name@)
            } else {
                name@ == self.root_name@
            },
            _ => true,
        })
        &&& (self.stack@.len() > 0 ==> self.stack@[0].name@ == self.root_name@)
    }

    /// Starts a walk of the directory whose final path component is
    /// `root_name`. The first thing to do is to list the walk root and
    /// answer with `Listed` (or `Failed`).
    pub fn new(root_name: String, filter: F) -> (w: DirWalk<F>)
        requires
            forall|s: &str| #[trigger] call_requires(filter, (s,)),
        ensures
            w.inv(),
            w.filter == filter,
            w.root_name@ == root_name@,
            w.stack@.len() == 0,
            w.pending matches Pending::AwaitList { name } && name@ == root_name@,
    {
        let ghost rv = root_name@;
        DirWalk {
            filter,
            stack: Vec::new(),
            pending: Pending::AwaitList { name: root_name },
            root_name: Ghost(rv),
        }
    }

    /// The name of the listing or classification the machine waits for.
    fn pending_name(&self) -> (n: String)
        requires
            !(self.pending is Idle),
        ensures
            self.pending matches Pending::AwaitList { name } ==> n == name,
            self.pending matches Pending::AwaitInfo { name } ==> n == name,
    {
        match &self.pending {
            Pending::AwaitList { name } => name.clone(),
            Pending::AwaitInfo { name } => name.clone(),
            Pending::Idle => vstd::pervasive::unreached(),
        }
    }

    /// The path, relative to the walk root, of the entry called `last`
    /// in the directory the top frame stands for.
    fn rel_path(&self, last: &String) -> (p: Vec<String>)
        ensures
            name_views(p@) == stack_path(self.stack@).push(last@),
    {
        let mut p: Vec<String> = Vec::new();
        let n = self.stack.len();
        let mut i: usize = 1;
        while i < n
            invariant
                1 <= i <= n || (n == 0 && i == 1),
                n == self.stack@.len(),
                p@.len() == if i <= n { i - 1 } else { 0 },
                forall|j: int| 0 <= j < p@.len() ==> #[trigger] p@[j]@ == self.stack@[j + 1].name@,
            decreases n - i,
        {
            p.push(self.stack[i].name.clone());
            i = i + 1;
        }
        p.push(last.clone());
        proof {
            assert(name_views(p@) =~= stack_path(self.stack@).push(last@));
        }
        p
    }

    /// Drives the walk forward once nothing is in flight: pops completed
    /// directories into their parents until the next entry to classify
    /// is found or the whole tree is assembled.
    fn advance(&mut self) -> (r: WalkAction)
        requires
            old(self).inv(),
            old(self).pending is Idle,
            old(self).stack@.len() > 0,
        ensures
            final(self).inv(),
            final(self).filter == old(self).filter,
            final(self).root_name == old(self).root_name,
            r is Done || r is Inspect,
            r matches WalkAction::Done(d) ==> crate::tree::tree_accepted(
                accept_pred(old(self).filter),
                d,
            ),
            r matches WalkAction::Done(d) ==> crate::tree::tree_ordered(lex_leq(), d),
            r matches WalkAction::Done(d) ==> d.name@ == old(self).root_name@,
            r is Done ==> final(self).pending is Idle && final(self).stack@.len() == 0,
            r matches WalkAction::Inspect(p) ==> (final(self).pending matches Pending::AwaitInfo {
                name,
            } && name_views(p@) == stack_path(final(self).stack@).push(name@)),
            r is Done ==> forall|i: int|
                0 <= i < old(self).stack@.len() ==> (#[trigger] old(self).stack@[i]).todo@.len()
                    == 0,
    {
        loop
            invariant
                self.inv(),
                self.pending is Idle,
                self.stack@.len() > 0,
                self.filter == old(self).filter,
                self.root_name == old(self).root_name,
                self.stack@.len() <= old(self).stack@.len(),
                forall|i: int|
                    0 <= i < self.stack@.len() - 1 ==> #[trigger] self.stack@[i] == old(
                        self,
                    ).stack@[i],
                self.stack@[self.stack@.len() - 1].todo@ == old(self).stack@[self.stack@.len()
                    - 1].todo@,
                forall|i: int|
                    self.stack@.len() <= i < old(self).stack@.len() ==> (#[trigger] old(
                        self,
                    ).stack@[i]).todo@.len() == 0,
            decreases self.stack@.len(),
        {
            let ghost pre = *self;
            let ghost top = (self.stack@.len() - 1) as int;
            let mut fr = self.stack.pop().unwrap();
            if fr.todo.len() > 0 {
                let ghost pre_fr = fr;
                let name = fr.todo.pop().unwrap();
                self.stack.push(fr);
                let path = self.rel_path(&name);
                self.pending = Pending::AwaitInfo { name };
                proof {
                    let fr2 = self.stack@[top];
                    assert(pre.stack@[top] == pre_fr);
                    assert(name_views(pre_fr.todo@) =~= name_views(fr2.todo@).push(name@));
                    assert(todo_names(pre_fr) =~= seq![name@] + todo_names(fr2));
                    assert(frame_line(fr2, self.mid_of(top)) =~= frame_line(
                        pre_fr,
                        pre.mid_of(top),
                    ));
                    assert(accepts(self.filter, name@));
                    assert forall|i: int| 0 <= i < self.stack@.len() implies frame_inv(
                        self.filter,
                        #[trigger] self.stack@[i],
                        self.mid_of(i),
                    ) by {
                        if i < top {
                            assert(self.stack@[i] == pre.stack@[i]);
                            assert(self.mid_of(i) == pre.mid_of(i));
                            assert(frame_inv(pre.filter, pre.stack@[i], pre.mid_of(i)));
                        } else {
                            assert(frame_inv(pre.filter, pre_fr, pre.mid_of(top)));
                            assert(sorted_by(frame_line(fr2, self.mid_of(top)), lex_leq()));
                        }
                    }
                    assert(self.inv());
                }
                return WalkAction::Inspect(path);
            } else {
                let d = Directory { name: fr.name, entries: fr.built };
                proof {
                    assert(pre.stack@[top] == fr);
                    assert(frame_line(fr, pre.mid_of(top)) =~= built_names(fr));
                    assert(vstd::relations::sorted_by(
                        crate::tree::entry_names(d.entries@),
                        lex_leq(),
                    ));
                    assert(crate::tree::tree_ordered(lex_leq(), d));
                    assert(crate::tree::tree_accepted(accept_pred(self.filter), d));
                }
                if self.stack.len() == 0 {
                    proof {
                        assert(top == 0);
                        assert(d.name@ == pre.root_name@);
                        assert(self.inv());
                    }
                    return WalkAction::Done(d);
                }
                let ghost dv = d;
                let ghost mid = (self.stack@.len() - 1) as int;
                let mut parent = self.stack.pop().unwrap();
                let ghost pre_parent = parent;
                parent.built.push(FileTree::DirNode(d));
                self.stack.push(parent);
                proof {
                    assert(top >= 1);
                    assert(accepts(pre.filter, dv.name@));
                    let node = FileTree::DirNode(dv);
                    assert(crate::tree::entry_name(node) == dv.name@);
                    assert(crate::tree::entry_accepted(accept_pred(pre.filter), node));
                    assert(crate::tree::entry_ordered(lex_leq(), node));
                    let par2 = self.stack@[mid];
                    assert(pre.stack@[mid] == pre_parent);
                    assert(built_names(par2) =~= built_names(pre_parent).push(dv.name@));
                    assert(pre.mid_of(mid) == seq![dv.name@]);
                    assert(frame_line(par2, self.mid_of(mid)) =~= frame_line(
                        pre_parent,
                        pre.mid_of(mid),
                    ));
                    assert forall|i: int| 0 <= i < self.stack@.len() implies frame_inv(
                        self.filter,
                        #[trigger] self.stack@[i],
                        self.mid_of(i),
                    ) by {
                        if i < mid {
                            assert(self.stack@[i] == pre.stack@[i]);
                            assert(self.mid_of(i) == pre.mid_of(i));
                            assert(frame_inv(pre.filter, pre.stack@[i], pre.mid_of(i)));
                        } else {
                            assert(frame_inv(pre.filter, pre_parent, pre.mid_of(mid)));
                            assert(sorted_by(frame_line(par2, self.mid_of(mid)), lex_leq()));
                            assert forall|k: int| 0 <= k < par2.built@.len() implies
                                crate::tree::entry_accepted(
                                accept_pred(self.filter),
                                #[trigger] par2.built@[k],
                            ) && crate::tree::entry_ordered(lex_leq(), par2.built@[k]) by {
                                if k < par2.built@.len() - 1 {
                                    assert(par2.built@[k] == pre_parent.built@[k]);
                                } else {
                                    assert(par2.built@[k] == node);
                                }
                            }
                        }
                    }
                    assert(self.inv());
                }
            }
        }
    }

    /// Answers the machine's outstanding request and takes the walk one
    /// step further: on a listing, filters and orders the names and
    /// enters the directory; on a classification, records the node (or
    /// asks for the new directory's listing); on a failure, aborts.
    ///
    /// A finished walk hands back a tree in which every node's name was
    /// accepted by the filter, every level is sorted ascending
    /// lexicographically, and the root carries the name the walk began
    /// with. A classification other than `Dir` never makes the machine
    /// ask for a listing, so symlinks are never followed; and the walk
    /// aborts exactly when the caller reports a failure — a listing
    /// failure as `Listing`, a metadata failure as `Metadata`.
    pub fn step(&mut self, ev: WalkEvent) -> (r: WalkAction)
        requires
            old(self).inv(),
            !(old(self).pending is Idle),
            ev is Listed ==> old(self).pending is AwaitList,
            ev is Classified ==> old(self).pending is AwaitInfo,
        ensures
            final(self).inv(),
            final(self).filter == old(self).filter,
            final(self).root_name == old(self).root_name,
            r is Abort <==> ev is Failed,
            ev is Failed ==> r == WalkAction::Abort(
                if old(self).pending is AwaitList {
                    WalkError::Listing
                } else {
                    WalkError::Metadata
                },
            ),
            r matches WalkAction::Done(d) ==> crate::tree::tree_accepted(
                accept_pred(old(self).filter),
                d,
            ),
            r matches WalkAction::Done(d) ==> crate::tree::tree_ordered(lex_leq(), d),
            r matches WalkAction::Done(d) ==> d.name@ == old(self).root_name@,
            r is Done || r is Abort ==> final(self).pending is Idle,
            r is Done ==> final(self).stack@.len() == 0,
            r is List <==> (ev matches WalkEvent::Classified(info) && info.kind is Dir),
            ev matches WalkEvent::Listed(names) ==> (r is Done ==> exists|dec: Seq<bool>|
                decisions(old(self).filter, names@, dec) && selected(names@, dec)
                    == Seq::<Seq<char>>::empty()),
            r matches WalkAction::List(p) ==> (final(self).pending matches Pending::AwaitList {
                name,
            } && name_views(p@) == stack_path(final(self).stack@).push(name@)),
            r matches WalkAction::Inspect(p) ==> (final(self).pending matches Pending::AwaitInfo {
                name,
            } && name_views(p@) == stack_path(final(self).stack@).push(name@)),
    {
        let ghost pre = *self;
        match ev {
            WalkEvent::Failed => {
                let e = if matches!(&self.pending, Pending::AwaitList { .. }) {
                    WalkError::Listing
                } else {
                    WalkError::Metadata
                };
                self.stack = Vec::new();
                self.pending = Pending::Idle;
                WalkAction::Abort(e)
            },
            WalkEvent::Listed(names) => {
                let dir_name = self.pending_name();
                let kept = prepare_level(names, &self.filter);
                let ghost kept_views = name_views(kept@);
                let todo = reverse_names(kept);
                let ghost was_empty = self.stack@.len() == 0;
                let ghost new_i = self.stack@.len() as int;
                let fr = Frame { name: dir_name, built: Vec::new(), todo };
                self.stack.push(fr);
                self.pending = Pending::Idle;
                proof {
                    let fr2 = self.stack@[new_i];
                    assert(todo_names(fr2) =~= name_views(fr2.todo@).reverse());
                    assert(name_views(fr2.todo@).reverse() =~= name_views(kept@));
                    assert(built_names(fr2) =~= Seq::<Seq<char>>::empty());
                    assert(frame_line(fr2, self.mid_of(new_i)) =~= name_views(kept@));
                    assert forall|j: int| 0 <= j < fr2.todo@.len() implies accepts(
                        self.filter,
                        #[trigger] fr2.todo@[j]@,
                    ) by {
                        assert(fr2.todo@[j]@ == name_views(kept@)[kept@.len() - 1 - j]);
                    }
                    assert(frame_inv(self.filter, fr2, self.mid_of(new_i)));
                    assert forall|i: int| 0 <= i < self.stack@.len() implies frame_inv(
                        self.filter,
                        #[trigger] self.stack@[i],
                        self.mid_of(i),
                    ) by {
                        if i < new_i {
                            assert(self.stack@[i] == pre.stack@[i]);
                            assert(self.mid_of(i) == pre.mid_of(i));
                            assert(frame_inv(pre.filter, pre.stack@[i], pre.mid_of(i)));
                        }
                    }
                    assert(self.inv());
                }
                let ghost mid_state = *self;
                let a = self.advance();
                proof {
                    if a is Done {
                        broadcast use group_to_multiset_ensures;

                        assert(mid_state.stack@[new_i].todo@.len() == 0);
                        assert(kept_views.len() == 0);
                        let dec = choose|dec: Seq<bool>|
                            decisions(pre.filter, names@, dec) && kept_views.to_multiset()
                                == selected(names@, dec).to_multiset();
                        assert(kept_views.to_multiset().len() == 0);
                        assert(selected(names@, dec).len() == 0);
                        assert(selected(names@, dec) =~= Seq::<Seq<char>>::empty());
                    }
                }
                a
            },
            WalkEvent::Classified(info) => {
                let name = self.pending_name();
                match info.kind {
                    EntryKind::Dir => {
                        let path = self.rel_path(&name);
                        self.pending = Pending::AwaitList { name };
                        proof {
                            assert forall|i: int| 0 <= i < self.stack@.len() implies frame_inv(
                                self.filter,
                                #[trigger] self.stack@[i],
                                self.mid_of(i),
                            ) by {
                                assert(self.stack@[i] == pre.stack@[i]);
                                assert(self.mid_of(i) == pre.mid_of(i));
                                assert(frame_inv(pre.filter, pre.stack@[i], pre.mid_of(i)));
                            }
                            assert(self.inv());
                        }
                        WalkAction::List(path)
                    },
                    EntryKind::File => {
                        let node = FileTree::FileNode(File { name, metadata: info.metadata });
                        self.push_node(node);
                        self.advance()
                    },
                    EntryKind::Symlink { target } => {
                        let node = FileTree::LinkNode(
                            Symlink { name, target, metadata: info.metadata },
                        );
                        self.push_node(node);
                        self.advance()
                    },
                }
            },
        }
    }

    /// Appends the node built for the entry just classified to the top
    /// frame and lets the walk move on.
    fn push_node(&mut self, node: FileTree)
        requires
            old(self).inv(),
            old(self).pending matches Pending::AwaitInfo { name } && crate::tree::entry_name(node)
                == name@,
            !(node is DirNode),
        ensures
            final(self).inv(),
            final(self).pending is Idle,
            final(self).stack@.len() == old(self).stack@.len() > 0,
            final(self).filter == old(self).filter,
            final(self).root_name == old(self).root_name,
    {
        let ghost pre = *self;
        let ghost top = (self.stack@.len() - 1) as int;
        let mut fr = self.stack.pop().unwrap();
        let ghost pre_fr = fr;
        fr.built.push(node);
        self.stack.push(fr);
        self.pending = Pending::Idle;
        proof {
            assert(accepts(pre.filter, crate::tree::entry_name(node)));
            assert(crate::tree::entry_accepted(accept_pred(pre.filter), node));
            assert(crate::tree::entry_ordered(lex_leq(), node));
            let fr2 = self.stack@[top];
            assert(pre.stack@[top] == pre_fr);
            assert(built_names(fr2) =~= built_names(pre_fr).push(crate::tree::entry_name(node)));
            assert(frame_line(fr2, self.mid_of(top)) =~= frame_line(pre_fr, pre.mid_of(top)));
            assert forall|i: int| 0 <= i < self.stack@.len() implies frame_inv(
                self.filter,
                #[trigger] self.stack@[i],
                self.mid_of(i),
            ) by {
                if i < top {
                    assert(self.stack@[i] == pre.stack@[i]);
                    assert(self.mid_of(i) == pre.mid_of(i));
                    assert(frame_inv(pre.filter, pre.stack@[i], pre.mid_of(i)));
                } else {
                    assert(frame_inv(pre.filter, pre_fr, pre.mid_of(top)));
                    assert(sorted_by(frame_line(fr2, self.mid_of(top)), lex_leq()));
                    assert forall|k: int| 0 <= k < fr2.built@.len() implies
                        crate::tree::entry_accepted(
                        accept_pred(self.filter),
                        #[trigger] fr2.built@[k],
                    ) && crate::tree::entry_ordered(lex_leq(), fr2.built@[k]) by {
                        if k < fr2.built@.len() - 1 {
                            assert(fr2.built@[k] == pre_fr.built@[k]);
                        } else {
                            assert(fr2.built@[k] == node);
                        }
                    }
                }
            }
            assert(self.inv());
        }
    }
}

/// The name the walked tree's root carries: the walked path's final
/// component where there is one, else the single-character placeholder
/// for the current directory (walking `/` has no final component).
pub fn root_name_or_default(name: Option<String>) -> (r: String)
    ensures
        name matches Some(n) ==> r == n,
        name is None ==> r@ == "."@,
{
    match name {
        Some(n) => n,
        None => <String as vstd::string::StringExecFns>::from_str("."),
    }
}

/// Reverses a list of names.
fn reverse_names(names: Vec<String>) -> (r: Vec<String>)
    ensures
        name_views(r@) == name_views(names@).reverse(),
{
    let mut out: Vec<String> = Vec::new();
    let n = names.len();
    let mut i: usize = 0;
    while i < n
        invariant
            i <= n,
            n == names@.len(),
            out@.len() == i,
            forall|j: int| 0 <= j < i ==> #[trigger] out@[j]@ == names@[n - 1 - j]@,
        decreases n - i,
    {
        out.push(names[n - 1 - i].clone());
        i = i + 1;
    }
    proof {
        assert(name_views(out@) =~= name_views(names@).reverse());
    }
    out
}

} // verus!
