//! Facts about filtered and concatenated sequences that the neighbour indexes
//! share.

use vstd::prelude::*;
use vstd::seq_lib::lemma_no_dup_in_concat;

verus! {

/// A filter keeps the members that pass the test, and brings in no duplicates.
pub(crate) proof fn lemma_filter_members<A>(s: Seq<A>, pred: spec_fn(A) -> bool)
    ensures
        forall|x: A| #[trigger] s.filter(pred).contains(x) <==> s.contains(x) && pred(x),
        s.no_duplicates() ==> s.filter(pred).no_duplicates(),
    decreases s.len(),
{
    if s.len() == 0 {
        reveal(Seq::filter);
        assert(s.filter(pred) =~= Seq::empty());
    } else {
        let rest = s.drop_last();
        let last = s.last();
        assert(s =~= rest.push(last));
        lemma_filter_members(rest, pred);
        rest.lemma_filter_push(last, pred);
        let kept = rest.filter(pred);
        assert forall|x: A| #[trigger] s.filter(pred).contains(x) <==> s.contains(x) && pred(
            x,
        ) by {
            lemma_push_members(rest, last, x);
            lemma_push_members(kept, last, x);
        }
        if s.no_duplicates() {
            assert(rest.no_duplicates());
            if pred(last) {
                assert(!rest.contains(last)) by {
                    if rest.contains(last) {
                        let i = choose|i: int| 0 <= i < rest.len() && rest[i] == last;
                        assert(s[i] == s[s.len() - 1]);
                    }
                }
                assert(!kept.contains(last));
                lemma_push_fresh(kept, last);
            }
        }
    }
}

/// The members of a sequence with one more element.
pub(crate) proof fn lemma_push_members<A>(s: Seq<A>, last: A, x: A)
    ensures
        s.push(last).contains(x) <==> s.contains(x) || x == last,
{
    if s.contains(x) {
        let i = choose|i: int| 0 <= i < s.len() && s[i] == x;
        assert(s.push(last)[i] == x);
    }
    if x == last {
        assert(s.push(last)[s.len() as int] == x);
    }
}

/// Adding an element that a sequence lacks brings in no duplicate.
pub(crate) proof fn lemma_push_fresh<A>(s: Seq<A>, last: A)
    requires
        s.no_duplicates(),
        !s.contains(last),
    ensures
        s.push(last).no_duplicates(),
{
    assert forall|i: int, j: int|
        0 <= i < s.push(last).len() && 0 <= j < s.push(last).len() && i != j implies s.push(
        last,
    )[i] != s.push(last)[j] by {
        if i < s.len() {
            assert(s.contains(s[i]));
        }
        if j < s.len() {
            assert(s.contains(s[j]));
        }
    }
}

/// The members of two sequences put end to end.
pub(crate) proof fn lemma_add_members<A>(a: Seq<A>, b: Seq<A>, x: A)
    ensures
        (a + b).contains(x) <==> a.contains(x) || b.contains(x),
{
    if a.contains(x) {
        let i = choose|i: int| 0 <= i < a.len() && a[i] == x;
        assert((a + b)[i] == x);
    }
    if b.contains(x) {
        let i = choose|i: int| 0 <= i < b.len() && b[i] == x;
        assert((a + b)[a.len() + i] == x);
    }
    if (a + b).contains(x) {
        let i = choose|i: int| 0 <= i < (a + b).len() && (a + b)[i] == x;
        if i < a.len() {
            assert(a[i] == x);
        } else {
            assert(b[i - a.len()] == x);
        }
    }
}

/// No part has a duplicate, and no two parts share a member.
pub(crate) open spec fn apart<A>(parts: Seq<Seq<A>>) -> bool {
    &&& forall|k: int| 0 <= k < parts.len() ==> (#[trigger] parts[k]).no_duplicates()
    &&& forall|k: int, l: int, x: A|
        0 <= k < l < parts.len() && #[trigger] parts[k].contains(x)
            ==> !#[trigger] parts[l].contains(x)
}

/// The members of a flattened sequence are those of its parts. Where no part
/// has a duplicate and no two parts share a member, the whole has no duplicate.
pub(crate) proof fn lemma_flatten_members<A>(parts: Seq<Seq<A>>)
    ensures
        forall|x: A| #[trigger]
            parts.flatten().contains(x) <==> exists|k: int|
                0 <= k < parts.len() && (#[trigger] parts[k]).contains(x),
        apart(parts) ==> parts.flatten().no_duplicates(),
    decreases parts.len(),
{
    if parts.len() == 0 {
        assert(parts.flatten() =~= Seq::empty());
    } else {
        let rest = parts.drop_last();
        let last = parts.last();
        assert(parts =~= rest.push(last));
        lemma_flatten_members(rest);
        rest.lemma_flatten_push(last);
        assert(parts.flatten() == rest.flatten() + last);
        assert forall|x: A| #[trigger]
            parts.flatten().contains(x) <==> exists|k: int|
                0 <= k < parts.len() && (#[trigger] parts[k]).contains(x) by {
            lemma_add_members(rest.flatten(), last, x);
            if rest.flatten().contains(x) {
                let k = choose|k: int| 0 <= k < rest.len() && (#[trigger] rest[k]).contains(x);
                assert(parts[k].contains(x));
            }
            if last.contains(x) {
                assert(parts[parts.len() - 1].contains(x));
            }
            if exists|k: int| 0 <= k < parts.len() && (#[trigger] parts[k]).contains(x) {
                let k = choose|k: int| 0 <= k < parts.len() && (#[trigger] parts[k]).contains(x);
                if k < rest.len() {
                    assert(rest[k].contains(x));
                }
            }
        }
        if apart(parts) {
            assert forall|k: int| 0 <= k < rest.len() implies (
            #[trigger] rest[k]).no_duplicates() by {
                assert(parts[k].no_duplicates());
            }
            assert forall|k: int, l: int, x: A|
                0 <= k < l < rest.len() && #[trigger] rest[k].contains(
                    x,
                ) implies !#[trigger] rest[l].contains(x) by {
                assert(parts[k].contains(x));
                assert(!parts[l].contains(x));
            }
            assert(parts[parts.len() - 1].no_duplicates());
            assert forall|i: int, j: int|
                0 <= i < rest.flatten().len() && 0 <= j < last.len() implies rest.flatten()[i]
                != last[j] by {
                let x = rest.flatten()[i];
                assert(rest.flatten().contains(x));
                let k = choose|k: int| 0 <= k < rest.len() && (#[trigger] rest[k]).contains(x);
                assert(parts[k].contains(x));
                assert(!parts[parts.len() - 1].contains(x));
                if last[j] == x {
                    assert(last.contains(x));
                }
            }
            lemma_no_dup_in_concat(rest.flatten(), last);
        }
    }
}

} // verus!
