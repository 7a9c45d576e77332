//! The ordering policy for directory levels: ascending lexicographic
//! comparison of names by character code, the executable comparator, and
//! a verified sort used by the walker on each level.

use vstd::prelude::*;
use vstd::relations::{sorted_by, total_ordering};
use vstd::seq_lib::group_to_multiset_ensures;
use core::cmp::Ordering;

verus! {

/// Ascending lexicographic order on names: `a` comes no later than `b`.
/// Characters compare by their code points, so this matches the order
/// Rust's `str` comparison gives on the UTF-8 bytes.
pub open spec fn lex_le(a: Seq<char>, b: Seq<char>) -> bool
    decreases a.len(),
{
    if a.len() == 0 {
        true
    } else if b.len() == 0 {
        false
    } else if a[0] == b[0] {
        lex_le(a.drop_first(), b.drop_first())
    } else {
        (a[0] as int) < (b[0] as int)
    }
}

/// `lex_le` as a first-class relation, for use with vstd's ordering
/// and sortedness predicates.
pub open spec fn lex_leq() -> spec_fn(Seq<char>, Seq<char>) -> bool {
    |a: Seq<char>, b: Seq<char>| lex_le(a, b)
}

/// The views of a sequence of names.
pub open spec fn name_views(s: Seq<String>) -> Seq<Seq<char>> {
    s.map_values(|n: String| n@)
}

proof fn lemma_lex_le_reflexive(a: Seq<char>)
    ensures
        lex_le(a, a),
    decreases a.len(),
{
    if a.len() > 0 {
        lemma_lex_le_reflexive(a.drop_first());
    }
}

proof fn lemma_lex_le_connected(a: Seq<char>, b: Seq<char>)
    ensures
        lex_le(a, b) || lex_le(b, a),
    decreases a.len(),
{
    if a.len() > 0 && b.len() > 0 {
        if a[0] == b[0] {
            lemma_lex_le_connected(a.drop_first(), b.drop_first());
        } else {
            assert((a[0] as int) != (b[0] as int));
        }
    }
}

proof fn lemma_lex_le_antisymmetric(a: Seq<char>, b: Seq<char>)
    requires
        lex_le(a, b),
        lex_le(b, a),
    ensures
        a == b,
    decreases a.len(),
{
    if a.len() == 0 {
        assert(b.len() == 0);
        assert(a =~= b);
    } else {
        assert(b.len() > 0);
        if a[0] == b[0] {
            lemma_lex_le_antisymmetric(a.drop_first(), b.drop_first());
            assert(a =~= seq![a[0]] + a.drop_first());
            assert(b =~= seq![b[0]] + b.drop_first());
        } else {
            assert(false);
        }
    }
}

proof fn lemma_lex_le_transitive(a: Seq<char>, b: Seq<char>, c: Seq<char>)
    requires
        lex_le(a, b),
        lex_le(b, c),
    ensures
        lex_le(a, c),
    decreases a.len(),
{
    if a.len() == 0 {
    } else {
        assert(b.len() > 0);
        assert(c.len() > 0);
        if a[0] == b[0] && b[0] == c[0] {
            lemma_lex_le_transitive(a.drop_first(), b.drop_first(), c.drop_first());
        }
    }
}

/// The lexicographic order on names is a total order, so every directory
/// level has exactly one sorted arrangement.
pub proof fn lemma_lex_total_ordering()
    ensures
        total_ordering(lex_leq()),
{
    let leq = lex_leq();
    assert forall|a: Seq<char>| #[trigger] leq(a, a) by {
        lemma_lex_le_reflexive(a);
    }
    assert forall|a: Seq<char>, b: Seq<char>| #[trigger] leq(a, b) && #[trigger] leq(b, a)
        implies a == b by {
        lemma_lex_le_antisymmetric(a, b);
    }
    assert forall|a: Seq<char>, b: Seq<char>, c: Seq<char>|
        #[trigger] leq(a, b) && #[trigger] leq(b, c) implies leq(a, c) by {
        lemma_lex_le_transitive(a, b, c);
    }
    assert forall|a: Seq<char>, b: Seq<char>| #[trigger] leq(a, b) || #[trigger] leq(b, a) by {
        lemma_lex_le_connected(a, b);
    }
}

proof fn lemma_lex_le_common_prefix(a: Seq<char>, b: Seq<char>, i: int)
    requires
        0 <= i <= a.len(),
        0 <= i <= b.len(),
        forall|k: int| 0 <= k < i ==> a[k] == b[k],
    ensures
        lex_le(a, b) == lex_le(a.skip(i), b.skip(i)),
    decreases i,
{
    if i > 0 {
        assert(a.len() > 0 && b.len() > 0 && a[0] == b[0]);
        lemma_lex_le_common_prefix(a.drop_first(), b.drop_first(), i - 1);
        assert(a.drop_first().skip(i - 1) =~= a.skip(i));
        assert(b.drop_first().skip(i - 1) =~= b.skip(i));
    } else {
        assert(a.skip(0) =~= a);
        assert(b.skip(0) =~= b);
    }
}

/// Executable lexicographic comparison: `a` comes no later than `b`.
pub fn name_le(a: &str, b: &str) -> (r: bool)
    ensures
        r == lex_le(a@, b@),
{
    let a_len = vstd::string::StrSliceExecFns::unicode_len(a);
    let b_len = vstd::string::StrSliceExecFns::unicode_len(b);
    let mut i: usize = 0;
    loop
        invariant
            i <= a_len,
            i <= b_len,
            a_len == a@.len(),
            b_len == b@.len(),
            forall|k: int| 0 <= k < i ==> a@[k] == b@[k],
        decreases a@.len() - i,
    {
        proof {
            lemma_lex_le_common_prefix(a@, b@, i as int);
        }
        if i == a_len {
            proof {
                assert(a@.skip(i as int).len() == 0);
            }
            return true;
        }
        if i == b_len {
            proof {
                assert(b@.skip(i as int).len() == 0);
                assert(a@.skip(i as int).len() > 0);
            }
            return false;
        }
        let ca = vstd::string::StrSliceExecFns::get_char(a, i);
        let cb = vstd::string::StrSliceExecFns::get_char(b, i);
        if ca != cb {
            proof {
                assert(a@.skip(i as int)[0] == ca);
                assert(b@.skip(i as int)[0] == cb);
            }
            return ca < cb;
        }
        i = i + 1;
    }
}

/// The default child-ordering comparator: ascending lexicographic by
/// name. `Less` and `Greater` mean strictly earlier and strictly later;
/// `Equal` means the names have the same characters.
pub fn sort_by_name(a: &str, b: &str) -> (o: Ordering)
    ensures
        o == Ordering::Equal <==> a@ == b@,
        o == Ordering::Less <==> (lex_le(a@, b@) && a@ != b@),
        o == Ordering::Greater <==> (lex_le(b@, a@) && a@ != b@),
{
    let ab = name_le(a, b);
    let ba = name_le(b, a);
    proof {
        lemma_lex_le_connected(a@, b@);
        if ab && ba {
            lemma_lex_le_antisymmetric(a@, b@);
        }
        if a@ == b@ {
            lemma_lex_le_reflexive(a@);
        }
    }
    if ab && ba {
        Ordering::Equal
    } else if ab {
        Ordering::Less
    } else {
        Ordering::Greater
    }
}

/// Changing the ordering of a directory level can only rearrange its
/// entries, never change which names are present: any two arrangements
/// that hold the same names (as a multiset) contain exactly the same
/// names, however they were ordered.
pub proof fn lemma_reordering_keeps_membership(a: Seq<Seq<char>>, b: Seq<Seq<char>>)
    requires
        a.to_multiset() == b.to_multiset(),
    ensures
        forall|n: Seq<char>| a.contains(n) <==> #[trigger] b.contains(n),
{
    broadcast use group_to_multiset_ensures;

    assert forall|n: Seq<char>| a.contains(n) <==> #[trigger] b.contains(n) by {
        assert(a.contains(n) <==> a.to_multiset().count(n) > 0);
        assert(b.contains(n) <==> b.to_multiset().count(n) > 0);
    }
}

/// Sorts names ascending lexicographically. The result holds exactly the
/// input names (as a multiset) and is sorted; by totality of the order
/// these two clauses pin the result down completely.
pub fn sort_names(names: Vec<String>) -> (r: Vec<String>)
    ensures
        sorted_by(name_views(r@), lex_leq()),
        name_views(r@).to_multiset() == name_views(names@).to_multiset(),
{
    let ghost all = name_views(names@);
    let mut rest = names;
    let mut out: Vec<String> = Vec::new();
    proof {
        broadcast use group_to_multiset_ensures;
        broadcast use vstd::multiset::group_multiset_axioms;

        assert(name_views(out@) =~= Seq::<Seq<char>>::empty());
        assert forall|a: Seq<char>| name_views(out@).to_multiset().count(a) == 0 by {
            assert(!name_views(out@).contains(a));
        }
        assert(name_views(out@).to_multiset().add(name_views(rest@).to_multiset())
            =~= all.to_multiset());
    }
    while rest.len() > 0
        invariant
            forall|i: int, j: int|
                0 <= i < j < out@.len() ==> lex_le(#[trigger] out@[i]@, #[trigger] out@[j]@),
            name_views(out@).to_multiset().add(name_views(rest@).to_multiset())
                =~= all.to_multiset(),
            forall|i: int, j: int|
                0 <= i < out@.len() && 0 <= j < rest@.len() ==> lex_le(
                    #[trigger] out@[i]@,
                    #[trigger] rest@[j]@,
                ),
        decreases rest@.len(),
    {
        // find the index of a least remaining name
        let mut m: usize = 0;
        proof {
            lemma_lex_le_reflexive(rest@[0]@);
        }
        let mut k: usize = 1;
        while k < rest.len()
            invariant
                0 < rest@.len(),
                m < rest@.len(),
                k <= rest@.len(),
                forall|j: int| 0 <= j < k ==> lex_le(rest@[m as int]@, #[trigger] rest@[j]@),
            decreases rest@.len() - k,
        {
            let le = name_le(rest[m].as_str(), rest[k].as_str());
            if !le {
                proof {
                    lemma_lex_le_connected(rest@[m as int]@, rest@[k as int]@);
                    assert forall|j: int| 0 <= j < k + 1 implies lex_le(
                        rest@[k as int]@,
                        #[trigger] rest@[j]@,
                    ) by {
                        if j < k {
                            lemma_lex_le_transitive(rest@[k as int]@, rest@[m as int]@, rest@[j]@);
                        } else {
                            lemma_lex_le_reflexive(rest@[k as int]@);
                        }
                    }
                }
                m = k;
            }
            k = k + 1;
        }
        let ghost old_out = out@;
        let ghost old_rest = rest@;
        let x = rest.remove(m);
        let ghost xv = x@;
        out.push(x);
        proof {
            broadcast use group_to_multiset_ensures;
            broadcast use vstd::multiset::group_multiset_axioms;

            assert(old_rest[m as int]@ == xv);
            assert(name_views(out@) =~= name_views(old_out).push(xv));
            assert(name_views(rest@) =~= name_views(old_rest).remove(m as int));
            assert(name_views(old_rest)[m as int] == xv);
            assert(name_views(old_rest).remove(m as int).to_multiset()
                =~= name_views(old_rest).to_multiset().remove(xv));
            assert(name_views(rest@).to_multiset() =~= name_views(old_rest).to_multiset().remove(
                xv,
            ));
            assert(name_views(old_out).push(xv).to_multiset()
                =~= name_views(old_out).to_multiset().insert(xv));
            assert(name_views(out@).to_multiset() =~= name_views(old_out).to_multiset().insert(
                xv,
            ));
            assert(name_views(old_rest).contains(xv));
            assert(name_views(old_rest).to_multiset().count(xv) > 0);
            assert(name_views(out@).to_multiset().add(name_views(rest@).to_multiset())
                =~= all.to_multiset());
            // the chosen name is below everything still unsorted
            assert forall|j: int| 0 <= j < rest@.len() implies lex_le(
                xv,
                #[trigger] rest@[j]@,
            ) by {
                if j < m {
                    assert(rest@[j] == old_rest[j]);
                } else {
                    assert(rest@[j] == old_rest[j + 1]);
                }
            }
            // appending it keeps the sorted part sorted
            assert forall|i: int, j: int| 0 <= i < j < out@.len() implies lex_le(
                #[trigger] out@[i]@,
                #[trigger] out@[j]@,
            ) by {
                if j < out@.len() - 1 {
                    assert(out@[i] == old_out[i] && out@[j] == old_out[j]);
                } else {
                    assert(out@[j]@ == xv);
                    if i < out@.len() - 1 {
                        assert(out@[i] == old_out[i]);
                        assert(lex_le(old_out[i]@, old_rest[m as int]@));
                    } else {
                        lemma_lex_le_reflexive(xv);
                    }
                }
            }
        }
    }
    proof {
        broadcast use group_to_multiset_ensures;
        broadcast use vstd::multiset::group_multiset_axioms;

        assert forall|a: Seq<char>| name_views(rest@).to_multiset().count(a) == 0 by {
            assert(!name_views(rest@).contains(a));
        }
        assert(name_views(out@).to_multiset().add(name_views(rest@).to_multiset())
            =~= name_views(out@).to_multiset());
        assert(name_views(out@).to_multiset() =~= all.to_multiset());
        assert(sorted_by(name_views(out@), lex_leq()));
    }
    out
}

} // verus!
