//! Sums of terms that may fail to exist, taken over a list.
//!
//! A term is either a natural number or nothing. A sum exists when each of
//! its terms does. The order of the terms does not matter, which lets a sum
//! over a set be taken over any list of the set's members.

use vstd::prelude::*;

verus! {

/// The sum of two terms, where both exist.
pub open spec fn plus(a: Option<nat>, b: Option<nat>) -> Option<nat> {
    match (a, b) {
        (Some(x), Some(y)) => Some(x + y),
        _ => None,
    }
}

/// The sum of `term` over the members of `list`, where every term exists.
pub open spec fn seq_total<A>(list: Seq<A>, term: spec_fn(A) -> Option<nat>) -> Option<nat>
    decreases list.len(),
{
    if list.len() == 0 {
        Some(0)
    } else {
        plus(seq_total(list.drop_last(), term), term(list.last()))
    }
}

/// `list` names each member of `set` once and nothing else.
pub open spec fn is_listing<A>(list: Seq<A>, set: Set<A>) -> bool {
    &&& list.no_duplicates()
    &&& forall|x: A|
        #![trigger list.contains(x)]
        #![trigger set.contains(x)]
        list.contains(x) <==> set.contains(x)
}

/// Some list that names each member of `set` once, where the set is finite.
pub open spec fn listing<A>(set: Set<A>) -> Seq<A> {
    choose|list: Seq<A>| is_listing(list, set)
}

/// A sum grows by the term of the member added at the end.
pub proof fn lemma_total_push<A>(list: Seq<A>, term: spec_fn(A) -> Option<nat>, x: A)
    ensures
        seq_total(list.push(x), term) == plus(seq_total(list, term), term(x)),
{
    assert(list.push(x).drop_last() =~= list);
}

/// A sum is the sum of its two parts.
pub proof fn lemma_total_concat<A>(a: Seq<A>, b: Seq<A>, term: spec_fn(A) -> Option<nat>)
    ensures
        seq_total(a + b, term) == plus(seq_total(a, term), seq_total(b, term)),
    decreases b.len(),
{
    if b.len() == 0 {
        assert(a + b =~= a);
    } else {
        lemma_total_concat(a, b.drop_last(), term);
        assert((a + b).drop_last() =~= a + b.drop_last());
    }
}

/// Where a sum exists, so does each of its terms, and none is larger than
/// the sum.
pub proof fn lemma_total_bounds_each<A>(list: Seq<A>, term: spec_fn(A) -> Option<nat>, i: int)
    requires
        seq_total(list, term) is Some,
        0 <= i < list.len(),
    ensures
        term(list[i]) is Some,
        term(list[i])->Some_0 <= seq_total(list, term)->Some_0,
    decreases list.len(),
{
    if i < list.len() - 1 {
        lemma_total_bounds_each(list.drop_last(), term, i);
    }
}

/// Two rules that agree on every member of a list give the same sum.
pub proof fn lemma_total_same_terms<A>(
    list: Seq<A>,
    term: spec_fn(A) -> Option<nat>,
    other: spec_fn(A) -> Option<nat>,
)
    requires
        forall|i: int| 0 <= i < list.len() ==> term(#[trigger] list[i]) == other(list[i]),
    ensures
        seq_total(list, term) == seq_total(list, other),
    decreases list.len(),
{
    if list.len() > 0 {
        let rest = list.drop_last();
        assert forall|i: int| 0 <= i < rest.len() implies term(#[trigger] rest[i]) == other(
            rest[i],
        ) by {
            assert(rest[i] == list[i]);
        }
        lemma_total_same_terms(rest, term, other);
        assert(term(list[list.len() - 1]) == other(list[list.len() - 1]));
    }
}

/// Taking one member out of a list takes its term out of the sum.
pub proof fn lemma_total_remove<A>(list: Seq<A>, term: spec_fn(A) -> Option<nat>, i: int)
    requires
        0 <= i < list.len(),
    ensures
        seq_total(list, term) == plus(seq_total(list.remove(i), term), term(list[i])),
{
    let head = list.take(i);
    let tail = list.skip(i + 1);
    assert(list =~= head.push(list[i]) + tail);
    assert(list.remove(i) =~= head + tail);
    lemma_total_concat(head.push(list[i]), tail, term);
    lemma_total_push(head, term, list[i]);
    lemma_total_concat(head, tail, term);
}

/// Two lists that name the same members once each give the same sum.
pub proof fn lemma_total_any_order<A>(a: Seq<A>, b: Seq<A>, term: spec_fn(A) -> Option<nat>)
    requires
        a.no_duplicates(),
        b.no_duplicates(),
        forall|x: A| #![trigger a.contains(x)] #![trigger b.contains(x)] a.contains(x) <==> b.contains(x),
    ensures
        seq_total(a, term) == seq_total(b, term),
    decreases a.len(),
{
    if a.len() == 0 {
        if b.len() > 0 {
            assert(b.contains(b[0]));
            assert(a.contains(b[0]));
        }
    } else {
        let x = a.last();
        assert(a.contains(x));
        assert(b.contains(x));
        let i = choose|i: int| 0 <= i < b.len() && b[i] == x;
        let a_rest = a.drop_last();
        let b_rest = b.remove(i);
        assert forall|y: A|
            #![trigger a_rest.contains(y)]
            #![trigger b_rest.contains(y)]
            a_rest.contains(y) <==> b_rest.contains(y) by {
            if a_rest.contains(y) {
                let k = choose|k: int| 0 <= k < a_rest.len() && a_rest[k] == y;
                assert(a[k] == y);
                assert(a.contains(y));
                assert(y != x);
                let m = choose|m: int| 0 <= m < b.len() && b[m] == y;
                if m < i {
                    assert(b_rest[m] == y);
                } else {
                    assert(b_rest[m - 1] == y);
                }
            }
            if b_rest.contains(y) {
                let m = choose|m: int| 0 <= m < b_rest.len() && b_rest[m] == y;
                if m < i {
                    assert(b[m] == y);
                } else {
                    assert(b[m + 1] == y);
                }
                assert(b.contains(y));
                assert(y != x);
                let k = choose|k: int| 0 <= k < a.len() && a[k] == y;
                assert(a_rest[k] == y);
            }
        }
        assert(b_rest.no_duplicates()) by {
            assert forall|p: int, q: int| 0 <= p < q < b_rest.len() implies b_rest[p] != b_rest[q] by {
                let pp = if p < i {
                    p
                } else {
                    p + 1
                };
                let qq = if q < i {
                    q
                } else {
                    q + 1
                };
                assert(b[pp] != b[qq]);
            }
        }
        lemma_total_any_order(a_rest, b_rest, term);
        lemma_total_remove(b, term, i);
    }
}

/// A list that names each member of a set once is as good as the chosen one.
pub proof fn lemma_listing_exists<A>(list: Seq<A>, set: Set<A>)
    requires
        is_listing(list, set),
    ensures
        is_listing(listing(set), set),
{
}

/// The sum over a set does not depend on the list that names its members.
pub proof fn lemma_total_over_set<A>(list: Seq<A>, set: Set<A>, term: spec_fn(A) -> Option<nat>)
    requires
        is_listing(list, set),
    ensures
        seq_total(list, term) == seq_total(listing(set), term),
{
    lemma_listing_exists(list, set);
    let chosen = listing(set);
    assert forall|x: A|
        #![trigger list.contains(x)]
        #![trigger chosen.contains(x)]
        list.contains(x) <==> chosen.contains(x) by {
        assert(list.contains(x) <==> set.contains(x));
        assert(chosen.contains(x) <==> set.contains(x));
    }
    lemma_total_any_order(list, chosen, term);
}

/// A finite set has a list that names each of its members once.
pub proof fn lemma_finite_set_has_listing<A>(set: Set<A>)
    requires
        set.finite(),
    ensures
        is_listing(listing(set), set),
    decreases set.len(),
{
    if set.len() == 0 {
        let empty = Seq::<A>::empty();
        assert forall|x: A| !set.contains(x) by {
            if set.contains(x) {
                assert(set.remove(x).len() + 1 == set.len());
            }
        }
        assert(is_listing(empty, set));
    } else {
        let x = set.choose();
        let rest = set.remove(x);
        lemma_finite_set_has_listing(rest);
        let shorter = listing(rest);
        let list = shorter.push(x);
        assert(!shorter.contains(x));
        assert forall|y: A|
            #![trigger list.contains(y)]
            #![trigger set.contains(y)]
            list.contains(y) <==> set.contains(y) by {
            if shorter.contains(y) {
                let k = choose|k: int| 0 <= k < shorter.len() && shorter[k] == y;
                assert(list[k] == y);
            }
            if y == x {
                assert(list[shorter.len() as int] == y);
            }
            if list.contains(y) {
                let k = choose|k: int| 0 <= k < list.len() && list[k] == y;
                if k < shorter.len() {
                    assert(shorter[k] == y);
                    assert(shorter.contains(y));
                }
            }
        }
        assert(is_listing(list, set));
    }
}

} // verus!
