//! Small facts about `Seq<i32>::filter` that the solver proofs lean on:
//! filtering is the identity when every element passes, it preserves
//! distinctness and membership, two filters compose into one, and filters by
//! pointwise-equal predicates agree.

use vstd::prelude::*;

verus! {

/// The predicate "differs from `val`". Filters are always applied through
/// named predicate values such as this one, so that two mentions of the same
/// filter are the same term to the verifier.
pub open spec fn ne_pred(val: i32) -> spec_fn(i32) -> bool {
    |x: i32| x != val
}

/// The conjunction of two predicates, as a named predicate value.
pub open spec fn and_pred(p: spec_fn(i32) -> bool, q: spec_fn(i32) -> bool) -> spec_fn(i32) -> bool {
    |x: i32| p(x) && q(x)
}

/// Filtering a sequence whose elements all satisfy the predicate returns the
/// sequence unchanged.
pub proof fn lemma_filter_all_kept(s: Seq<i32>, p: spec_fn(i32) -> bool)
    requires
        forall|i: int| 0 <= i < s.len() ==> p(#[trigger] s[i]),
    ensures
        s.filter(p) == s,
    decreases s.len(),
{
    broadcast use Seq::<_>::lemma_filter_push;

    if s.len() == 0 {
        assert(s.filter(p) =~= s) by {
            reveal(Seq::filter);
        }
    } else {
        let s0 = s.drop_last();
        lemma_filter_all_kept(s0, p);
        assert(s =~= s0.push(s.last()));
        assert(s0.push(s.last()).filter(p) == s0.filter(p).push(s.last()));
    }
}

/// Filtering a sequence none of whose elements satisfies the predicate
/// returns the empty sequence.
pub proof fn lemma_filter_none_kept(s: Seq<i32>, p: spec_fn(i32) -> bool)
    requires
        forall|i: int| 0 <= i < s.len() ==> !p(#[trigger] s[i]),
    ensures
        s.filter(p) == Seq::<i32>::empty(),
    decreases s.len(),
{
    broadcast use Seq::<_>::lemma_filter_push;

    if s.len() == 0 {
        assert(s.filter(p) =~= Seq::<i32>::empty()) by {
            reveal(Seq::filter);
        }
    } else {
        let s0 = s.drop_last();
        lemma_filter_none_kept(s0, p);
        assert(s =~= s0.push(s.last()));
    }
}

/// A sequence without duplicates stays without duplicates when filtered.
pub proof fn lemma_filter_no_dup(s: Seq<i32>, p: spec_fn(i32) -> bool)
    requires
        s.no_duplicates(),
    ensures
        s.filter(p).no_duplicates(),
    decreases s.len(),
{
    broadcast use Seq::<_>::lemma_filter_push;

    if s.len() == 0 {
        assert(s.filter(p) =~= s) by {
            reveal(Seq::filter);
        }
    } else {
        let s0 = s.drop_last();
        assert(s0.no_duplicates());
        lemma_filter_no_dup(s0, p);
        assert(s =~= s0.push(s.last()));
        if p(s.last()) {
            assert(s.filter(p) == s0.filter(p).push(s.last()));
            assert(!s0.contains(s.last()));
            assert forall|x: i32| s0.filter(p).contains(x) implies s0.contains(x) by {
                s0.lemma_filter_contains_rev(p, x);
            }
            assert(!s0.filter(p).contains(s.last()));
            let f = s0.filter(p).push(s.last());
            assert forall|i: int, j: int| 0 <= i < f.len() && 0 <= j < f.len() && i != j implies f[i]
                != f[j] by {
                if i < f.len() - 1 && j < f.len() - 1 {
                } else if i == f.len() - 1 {
                    assert(s0.filter(p).contains(f[j]));
                } else {
                    assert(s0.filter(p).contains(f[i]));
                }
            }
        }
    }
}

/// Every element of a filtered sequence occurs in the original sequence.
pub proof fn lemma_filter_sub(s: Seq<i32>, p: spec_fn(i32) -> bool)
    ensures
        forall|i: int| 0 <= i < s.filter(p).len() ==> s.contains(#[trigger] s.filter(p)[i]),
        forall|i: int| 0 <= i < s.filter(p).len() ==> p(#[trigger] s.filter(p)[i]),
{
    broadcast use Seq::<_>::lemma_filter_pred;

    assert forall|i: int| 0 <= i < s.filter(p).len() implies s.contains(#[trigger] s.filter(p)[i]) by {
        assert(s.filter(p).contains(s.filter(p)[i]));
        s.lemma_filter_contains_rev(p, s.filter(p)[i]);
    }
}

/// Two filters in a row act as a single filter by any predicate that is the
/// pointwise conjunction of the two.
pub proof fn lemma_filter_filter_into(
    s: Seq<i32>,
    p: spec_fn(i32) -> bool,
    q: spec_fn(i32) -> bool,
    pq: spec_fn(i32) -> bool,
)
    requires
        forall|x: i32| #[trigger] pq(x) <==> p(x) && q(x),
    ensures
        s.filter(p).filter(q) == s.filter(pq),
    decreases s.len(),
{
    broadcast use Seq::<_>::lemma_filter_push;

    if s.len() == 0 {
        assert(s.filter(p) =~= Seq::<i32>::empty() && s.filter(q) =~= Seq::<i32>::empty()
            && s.filter(pq) =~= Seq::<i32>::empty()) by {
            reveal(Seq::filter);
        }
        assert(s.filter(p).filter(q) =~= Seq::<i32>::empty()) by {
            reveal(Seq::filter);
        }
    } else {
        let s0 = s.drop_last();
        let x = s.last();
        lemma_filter_filter_into(s0, p, q, pq);
        assert(s =~= s0.push(x));
        assert(s0.push(x).filter(p) == if p(x) {
            s0.filter(p).push(x)
        } else {
            s0.filter(p)
        });
        if p(x) {
            assert(s0.filter(p).push(x).filter(q) == if q(x) {
                s0.filter(p).filter(q).push(x)
            } else {
                s0.filter(p).filter(q)
            });
        }
        assert(s0.push(x).filter(pq) == if pq(x) {
            s0.filter(pq).push(x)
        } else {
            s0.filter(pq)
        });
    }
}

/// A filter that keeps the full length keeps the sequence itself.
pub proof fn lemma_filter_same_len_id(s: Seq<i32>, p: spec_fn(i32) -> bool)
    requires
        s.filter(p).len() == s.len(),
    ensures
        s.filter(p) == s,
    decreases s.len(),
{
    broadcast use Seq::<_>::lemma_filter_push;
    broadcast use Seq::<_>::lemma_filter_len;

    if s.len() == 0 {
        assert(s.filter(p) =~= s) by {
            reveal(Seq::filter);
        }
    } else {
        let s0 = s.drop_last();
        let x = s.last();
        assert(s =~= s0.push(x));
        assert(s0.push(x).filter(p) == if p(x) {
            s0.filter(p).push(x)
        } else {
            s0.filter(p)
        });
        if p(x) {
            lemma_filter_same_len_id(s0, p);
        } else {
            assert(s0.filter(p).len() <= s0.len());
            assert(false);
        }
    }
}

/// Filters by predicates that agree on every value give the same result.
pub proof fn lemma_filter_congruent(s: Seq<i32>, p: spec_fn(i32) -> bool, q: spec_fn(i32) -> bool)
    requires
        forall|x: i32| #[trigger] p(x) <==> q(x),
    ensures
        s.filter(p) == s.filter(q),
    decreases s.len(),
{
    broadcast use Seq::<_>::lemma_filter_push;

    if s.len() == 0 {
        assert(s.filter(p) =~= Seq::<i32>::empty() && s.filter(q) =~= Seq::<i32>::empty()) by {
            reveal(Seq::filter);
        }
    } else {
        let s0 = s.drop_last();
        lemma_filter_congruent(s0, p, q);
        assert(s =~= s0.push(s.last()));
    }
}

/// Removing the only occurrence of a value acts as filtering that value out.
pub proof fn lemma_remove_once_is_filter(s: Seq<i32>, i: int, val: i32)
    requires
        0 <= i < s.len(),
        s[i] == val,
        forall|j: int| 0 <= j < s.len() && j != i ==> s[j] != val,
    ensures
        s.remove(i) == s.filter(ne_pred(val)),
{
    let p = ne_pred(val);
    let a = s.subrange(0, i);
    let b = s.subrange(i + 1, s.len() as int);
    let mid = seq![val];
    assert(s =~= a + (mid + b));
    Seq::<i32>::filter_distributes_over_add(a, mid + b, p);
    Seq::<i32>::filter_distributes_over_add(mid, b, p);
    lemma_filter_all_kept(a, p);
    lemma_filter_all_kept(b, p);
    lemma_filter_none_kept(mid, p);
    assert(s.filter(p) == a + (Seq::<i32>::empty() + b));
    assert(s.remove(i) =~= a + (Seq::<i32>::empty() + b));
}

} // verus!
