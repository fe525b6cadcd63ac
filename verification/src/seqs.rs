//! Aggregation primitives over sequences: filtered sums, counts, collected
//! sets and first-match search, with the lemmas the store's proofs need.
use vstd::prelude::*;

verus! {

broadcast use vstd::set::group_set_axioms;

/// Sum of `f` over the elements of `s` selected by `sel`.
pub open spec fn sum_where<A>(s: Seq<A>, sel: spec_fn(A) -> bool, f: spec_fn(A) -> int) -> int
    decreases s.len(),
{
    if s.len() == 0 {
        0
    } else {
        sum_where(s.drop_last(), sel, f) + if sel(s.last()) {
            f(s.last())
        } else {
            0
        }
    }
}

/// The weight that counts each element once.
pub open spec fn one<A>() -> spec_fn(A) -> int {
    |a: A| 1
}

/// Number of elements of `s` selected by `sel`.
pub open spec fn count_where<A>(s: Seq<A>, sel: spec_fn(A) -> bool) -> int {
    sum_where(s, sel, one::<A>())
}

/// The set of values `f` takes on the elements of `s` selected by `sel`.
pub open spec fn set_where<A, B>(s: Seq<A>, sel: spec_fn(A) -> bool, f: spec_fn(A) -> B) -> Set<
    B,
>
    decreases s.len(),
{
    if s.len() == 0 {
        Set::empty()
    } else {
        let rest = set_where(s.drop_last(), sel, f);
        if sel(s.last()) {
            rest.insert(f(s.last()))
        } else {
            rest
        }
    }
}

/// Index of the first element of `s` satisfying `p`, or -1 when none does.
pub open spec fn first_where<A>(s: Seq<A>, p: spec_fn(A) -> bool) -> int
    decreases s.len(),
{
    if s.len() == 0 {
        -1
    } else if p(s[0]) {
        0
    } else {
        let rest = first_where(s.skip(1), p);
        if rest == -1 {
            -1
        } else {
            rest + 1
        }
    }
}

pub proof fn lemma_sum_where_push<A>(s: Seq<A>, x: A, sel: spec_fn(A) -> bool, f: spec_fn(A) -> int)
    ensures
        sum_where(s.push(x), sel, f) == sum_where(s, sel, f) + (if sel(x) {
            f(x)
        } else {
            0
        }),
{
    assert(s.push(x).drop_last() =~= s);
    assert(s.push(x).last() == x);
}

pub proof fn lemma_count_where_push<A>(s: Seq<A>, x: A, sel: spec_fn(A) -> bool)
    ensures
        count_where(s.push(x), sel) == count_where(s, sel) + (if sel(x) {
            1int
        } else {
            0
        }),
{
    lemma_sum_where_push(s, x, sel, one::<A>());
}

pub proof fn lemma_set_where_push<A, B>(s: Seq<A>, x: A, sel: spec_fn(A) -> bool, f: spec_fn(A) -> B)
    ensures
        set_where(s.push(x), sel, f) == (if sel(x) {
            set_where(s, sel, f).insert(f(x))
        } else {
            set_where(s, sel, f)
        }),
{
    assert(s.push(x).drop_last() =~= s);
    assert(s.push(x).last() == x);
}

pub proof fn lemma_set_where_finite<A, B>(s: Seq<A>, sel: spec_fn(A) -> bool, f: spec_fn(A) -> B)
    ensures
        set_where(s, sel, f).finite(),
    decreases s.len(),
{
    if s.len() > 0 {
        lemma_set_where_finite(s.drop_last(), sel, f);
    }
}

/// A value is collected exactly when some selected element maps to it.
pub proof fn lemma_set_where_membership<A, B>(
    s: Seq<A>,
    sel: spec_fn(A) -> bool,
    f: spec_fn(A) -> B,
    b: B,
)
    ensures
        set_where(s, sel, f).contains(b) <==> exists|i: int|
            0 <= i < s.len() && sel(#[trigger] s[i]) && f(s[i]) == b,
    decreases s.len(),
{
    if s.len() > 0 {
        lemma_set_where_membership(s.drop_last(), sel, f, b);
        if set_where(s, sel, f).contains(b) {
            if sel(s.last()) && f(s.last()) == b {
                assert(sel(s[s.len() - 1]) && f(s[s.len() - 1]) == b);
            } else {
                let i = choose|i: int|
                    0 <= i < s.len() - 1 && sel(#[trigger] s.drop_last()[i]) && f(
                        s.drop_last()[i],
                    ) == b;
                assert(s.drop_last()[i] == s[i]);
            }
        }
        if exists|i: int| 0 <= i < s.len() && sel(#[trigger] s[i]) && f(s[i]) == b {
            let i = choose|i: int| 0 <= i < s.len() && sel(#[trigger] s[i]) && f(s[i]) == b;
            if i < s.len() - 1 {
                assert(s.drop_last()[i] == s[i]);
            }
        }
    }
}

/// Sums agree whenever the selector and weight agree on every element.
pub proof fn lemma_sum_where_congruent<A>(
    s: Seq<A>,
    sel1: spec_fn(A) -> bool,
    f1: spec_fn(A) -> int,
    sel2: spec_fn(A) -> bool,
    f2: spec_fn(A) -> int,
)
    requires
        forall|i: int|
            0 <= i < s.len() ==> (sel1(#[trigger] s[i]) == sel2(s[i]) && f1(s[i]) == f2(s[i])),
    ensures
        sum_where(s, sel1, f1) == sum_where(s, sel2, f2),
    decreases s.len(),
{
    if s.len() > 0 {
        assert(forall|i: int| 0 <= i < s.len() - 1 ==> #[trigger] s.drop_last()[i] == s[i]);
        lemma_sum_where_congruent(s.drop_last(), sel1, f1, sel2, f2);
        assert(s.last() == s[s.len() - 1]);
    }
}

/// A sum over a selector that holds of no element is zero.
pub proof fn lemma_sum_where_none<A>(s: Seq<A>, sel: spec_fn(A) -> bool, f: spec_fn(A) -> int)
    requires
        forall|i: int| 0 <= i < s.len() ==> !sel(#[trigger] s[i]),
    ensures
        sum_where(s, sel, f) == 0,
    decreases s.len(),
{
    if s.len() > 0 {
        assert(forall|i: int| 0 <= i < s.len() - 1 ==> #[trigger] s.drop_last()[i] == s[i]);
        lemma_sum_where_none(s.drop_last(), sel, f);
        assert(s.last() == s[s.len() - 1]);
    }
}

/// A sum over a disjunction of element-wise disjoint selectors splits.
pub proof fn lemma_sum_where_split<A>(
    s: Seq<A>,
    sel: spec_fn(A) -> bool,
    sel_a: spec_fn(A) -> bool,
    sel_b: spec_fn(A) -> bool,
    f: spec_fn(A) -> int,
)
    requires
        forall|i: int|
            0 <= i < s.len() ==> (sel(#[trigger] s[i]) == (sel_a(s[i]) || sel_b(s[i])) && !(sel_a(
                s[i],
            ) && sel_b(s[i]))),
    ensures
        sum_where(s, sel, f) == sum_where(s, sel_a, f) + sum_where(s, sel_b, f),
    decreases s.len(),
{
    if s.len() > 0 {
        assert(forall|i: int| 0 <= i < s.len() - 1 ==> #[trigger] s.drop_last()[i] == s[i]);
        lemma_sum_where_split(s.drop_last(), sel, sel_a, sel_b, f);
        assert(s.last() == s[s.len() - 1]);
    }
}

/// A sum of element-wise non-negative weights is non-negative.
pub proof fn lemma_sum_where_nonneg<A>(s: Seq<A>, sel: spec_fn(A) -> bool, f: spec_fn(A) -> int)
    requires
        forall|i: int| 0 <= i < s.len() && sel(#[trigger] s[i]) ==> f(s[i]) >= 0,
    ensures
        sum_where(s, sel, f) >= 0,
    decreases s.len(),
{
    if s.len() > 0 {
        assert(forall|i: int| 0 <= i < s.len() - 1 ==> #[trigger] s.drop_last()[i] == s[i]);
        lemma_sum_where_nonneg(s.drop_last(), sel, f);
        assert(s.last() == s[s.len() - 1]);
    }
}

/// With non-negative weights, the sum over a longer prefix is no smaller.
pub proof fn lemma_sum_where_prefix_monotone<A>(
    s: Seq<A>,
    j: int,
    sel: spec_fn(A) -> bool,
    f: spec_fn(A) -> int,
)
    requires
        0 <= j <= s.len(),
        forall|i: int| 0 <= i < s.len() && sel(#[trigger] s[i]) ==> f(s[i]) >= 0,
    ensures
        sum_where(s.take(j), sel, f) <= sum_where(s, sel, f),
    decreases s.len() - j,
{
    if j < s.len() {
        assert(s.take(j + 1).drop_last() =~= s.take(j));
        assert(s.take(j + 1).last() == s[j]);
        lemma_sum_where_prefix_monotone(s, j + 1, sel, f);
    } else {
        assert(s.take(j) =~= s);
    }
}

/// The elements of `s` that satisfy `q`, in order.
pub open spec fn seq_filter<A>(s: Seq<A>, q: spec_fn(A) -> bool) -> Seq<A>
    decreases s.len(),
{
    if s.len() == 0 {
        Seq::empty()
    } else {
        let rest = seq_filter(s.drop_last(), q);
        if q(s.last()) {
            rest.push(s.last())
        } else {
            rest
        }
    }
}

/// A count is zero exactly when no element is selected, and never negative.
pub proof fn lemma_count_where_exists<A>(s: Seq<A>, sel: spec_fn(A) -> bool)
    ensures
        count_where(s, sel) >= 0,
        count_where(s, sel) == 0 <==> (forall|i: int| 0 <= i < s.len() ==> !sel(#[trigger] s[i])),
    decreases s.len(),
{
    if s.len() > 0 {
        assert(forall|i: int| 0 <= i < s.len() - 1 ==> #[trigger] s.drop_last()[i] == s[i]);
        lemma_count_where_exists(s.drop_last(), sel);
        assert(s.last() == s[s.len() - 1]);
        if count_where(s, sel) == 0 {
            assert forall|i: int| 0 <= i < s.len() implies !sel(#[trigger] s[i]) by {
                if i < s.len() - 1 {
                    assert(s.drop_last()[i] == s[i]);
                }
            }
        }
    }
}

/// Two distinct selected positions put a count at two or more.
pub proof fn lemma_count_where_two<A>(s: Seq<A>, sel: spec_fn(A) -> bool, i: int, j: int)
    requires
        0 <= i < j < s.len(),
        sel(s[i]),
        sel(s[j]),
    ensures
        count_where(s, sel) >= 2,
    decreases s.len(),
{
    lemma_count_where_exists(s.drop_last(), sel);
    if j == s.len() - 1 {
        assert(s.drop_last()[i] == s[i]);
        assert(count_where(s.drop_last(), sel) != 0);
        assert(s.last() == s[j]);
    } else {
        assert(s.drop_last()[i] == s[i]);
        assert(s.drop_last()[j] == s[j]);
        lemma_count_where_two(s.drop_last(), sel, i, j);
    }
}

/// Sums agree across two equally long sequences whose elements agree
/// position-wise under the selector and weight.
pub proof fn lemma_sum_where_elementwise<A>(
    s1: Seq<A>,
    s2: Seq<A>,
    sel: spec_fn(A) -> bool,
    f: spec_fn(A) -> int,
)
    requires
        s1.len() == s2.len(),
        forall|i: int|
            0 <= i < s1.len() ==> (sel(#[trigger] s1[i]) == sel(#[trigger] s2[i]) && (sel(s1[i])
                ==> f(s1[i]) == f(s2[i]))),
    ensures
        sum_where(s1, sel, f) == sum_where(s2, sel, f),
    decreases s1.len(),
{
    if s1.len() > 0 {
        assert(forall|i: int| 0 <= i < s1.len() - 1 ==> #[trigger] s1.drop_last()[i] == s1[i]);
        assert(forall|i: int| 0 <= i < s2.len() - 1 ==> #[trigger] s2.drop_last()[i] == s2[i]);
        lemma_sum_where_elementwise(s1.drop_last(), s2.drop_last(), sel, f);
        assert(s1.last() == s1[s1.len() - 1]);
        assert(s2.last() == s2[s2.len() - 1]);
    }
}

/// How a sum moves when one position is overwritten.
pub proof fn lemma_sum_where_update<A>(
    s: Seq<A>,
    j: int,
    x: A,
    sel: spec_fn(A) -> bool,
    f: spec_fn(A) -> int,
)
    requires
        0 <= j < s.len(),
    ensures
        sum_where(s.update(j, x), sel, f) == sum_where(s, sel, f) - (if sel(s[j]) {
            f(s[j])
        } else {
            0
        }) + (if sel(x) {
            f(x)
        } else {
            0
        }),
    decreases s.len(),
{
    let s2 = s.update(j, x);
    if j == s.len() - 1 {
        assert(s2.drop_last() =~= s.drop_last());
        assert(s2.last() == x);
        assert(s.last() == s[j]);
    } else {
        assert(s2.drop_last() =~= s.drop_last().update(j, x));
        assert(s2.last() == s.last());
        assert(s.drop_last()[j] == s[j]);
        lemma_sum_where_update(s.drop_last(), j, x, sel, f);
    }
}

/// How a sum moves when one position is removed.
pub proof fn lemma_sum_where_remove<A>(
    s: Seq<A>,
    j: int,
    sel: spec_fn(A) -> bool,
    f: spec_fn(A) -> int,
)
    requires
        0 <= j < s.len(),
    ensures
        sum_where(s.remove(j), sel, f) == sum_where(s, sel, f) - (if sel(s[j]) {
            f(s[j])
        } else {
            0
        }),
    decreases s.len(),
{
    let s2 = s.remove(j);
    if j == s.len() - 1 {
        assert(s2 =~= s.drop_last());
        assert(s.last() == s[j]);
    } else {
        assert(s2.drop_last() =~= s.drop_last().remove(j));
        assert(s2.last() == s.last());
        assert(s.drop_last()[j] == s[j]);
        lemma_sum_where_remove(s.drop_last(), j, sel, f);
    }
}

/// Filtering away only unselected elements leaves a sum unchanged.
pub proof fn lemma_sum_where_filter<A>(
    s: Seq<A>,
    q: spec_fn(A) -> bool,
    sel: spec_fn(A) -> bool,
    f: spec_fn(A) -> int,
)
    requires
        forall|i: int| 0 <= i < s.len() && sel(#[trigger] s[i]) ==> q(s[i]),
    ensures
        sum_where(seq_filter(s, q), sel, f) == sum_where(s, sel, f),
    decreases s.len(),
{
    if s.len() > 0 {
        assert(forall|i: int| 0 <= i < s.len() - 1 ==> #[trigger] s.drop_last()[i] == s[i]);
        lemma_sum_where_filter(s.drop_last(), q, sel, f);
        assert(s.last() == s[s.len() - 1]);
        if q(s.last()) {
            lemma_sum_where_push(seq_filter(s.drop_last(), q), s.last(), sel, f);
        }
    }
}

/// Filtering never increases a sum of non-negative weights.
pub proof fn lemma_sum_where_filter_le<A>(
    s: Seq<A>,
    q: spec_fn(A) -> bool,
    sel: spec_fn(A) -> bool,
    f: spec_fn(A) -> int,
)
    requires
        forall|i: int| 0 <= i < s.len() && sel(#[trigger] s[i]) ==> f(s[i]) >= 0,
    ensures
        sum_where(seq_filter(s, q), sel, f) <= sum_where(s, sel, f),
    decreases s.len(),
{
    if s.len() > 0 {
        assert(forall|i: int| 0 <= i < s.len() - 1 ==> #[trigger] s.drop_last()[i] == s[i]);
        lemma_sum_where_filter_le(s.drop_last(), q, sel, f);
        assert(s.last() == s[s.len() - 1]);
        if q(s.last()) {
            lemma_sum_where_push(seq_filter(s.drop_last(), q), s.last(), sel, f);
        }
    }
}

/// Filtering away only unselected elements leaves a collected set unchanged.
pub proof fn lemma_set_where_filter<A, B>(
    s: Seq<A>,
    q: spec_fn(A) -> bool,
    sel: spec_fn(A) -> bool,
    f: spec_fn(A) -> B,
)
    requires
        forall|i: int| 0 <= i < s.len() && sel(#[trigger] s[i]) ==> q(s[i]),
    ensures
        set_where(seq_filter(s, q), sel, f) == set_where(s, sel, f),
    decreases s.len(),
{
    if s.len() > 0 {
        assert(forall|i: int| 0 <= i < s.len() - 1 ==> #[trigger] s.drop_last()[i] == s[i]);
        lemma_set_where_filter(s.drop_last(), q, sel, f);
        assert(s.last() == s[s.len() - 1]);
        if q(s.last()) {
            lemma_set_where_push(seq_filter(s.drop_last(), q), s.last(), sel, f);
        }
    }
}

/// Every element of a filtered sequence is an element of the original that
/// satisfies the filter.
pub proof fn lemma_seq_filter_elements<A>(s: Seq<A>, q: spec_fn(A) -> bool)
    ensures
        forall|i: int|
            0 <= i < seq_filter(s, q).len() ==> q(#[trigger] seq_filter(s, q)[i]) && (exists|j: int|
                0 <= j < s.len() && s[j] == seq_filter(s, q)[i]),
    decreases s.len(),
{
    if s.len() > 0 {
        lemma_seq_filter_elements(s.drop_last(), q);
        let fs = seq_filter(s, q);
        let fdl = seq_filter(s.drop_last(), q);
        assert forall|i: int| 0 <= i < fs.len() implies q(#[trigger] fs[i]) && (exists|j: int|
            0 <= j < s.len() && s[j] == fs[i]) by {
            if i < fdl.len() {
                assert(fs[i] == fdl[i]);
                let j = choose|j: int| 0 <= j < s.drop_last().len() && s.drop_last()[j] == fdl[i];
                assert(s[j] == fs[i]);
            } else {
                assert(q(s.last()) && fs[i] == s.last());
                assert(s[s.len() - 1] == fs[i]);
            }
        }
    }
}

/// A sum over a narrower selector of non-negative weights is no larger.
pub proof fn lemma_sum_where_subset<A>(
    s: Seq<A>,
    sel1: spec_fn(A) -> bool,
    sel2: spec_fn(A) -> bool,
    f: spec_fn(A) -> int,
)
    requires
        forall|i: int| 0 <= i < s.len() && sel1(#[trigger] s[i]) ==> sel2(s[i]),
        forall|i: int| 0 <= i < s.len() && sel2(#[trigger] s[i]) ==> f(s[i]) >= 0,
    ensures
        sum_where(s, sel1, f) <= sum_where(s, sel2, f),
    decreases s.len(),
{
    if s.len() > 0 {
        assert(forall|i: int| 0 <= i < s.len() - 1 ==> #[trigger] s.drop_last()[i] == s[i]);
        lemma_sum_where_subset(s.drop_last(), sel1, sel2, f);
        assert(s.last() == s[s.len() - 1]);
    }
}

/// A collected set has no more values than the sequence has elements.
pub proof fn lemma_set_where_card_le<A, B>(s: Seq<A>, sel: spec_fn(A) -> bool, f: spec_fn(A) -> B)
    ensures
        set_where(s, sel, f).len() <= s.len(),
    decreases s.len(),
{
    broadcast use vstd::set::group_set_axioms;

    if s.len() > 0 {
        lemma_set_where_card_le(s.drop_last(), sel, f);
        lemma_set_where_finite(s.drop_last(), sel, f);
    }
}

/// What `first_where` returns: the first selected index, or -1 when no
/// element is selected.
pub proof fn lemma_first_where<A>(s: Seq<A>, p: spec_fn(A) -> bool)
    ensures
        first_where(s, p) == -1 ==> (forall|i: int| 0 <= i < s.len() ==> !p(#[trigger] s[i])),
        first_where(s, p) != -1 ==> 0 <= first_where(s, p) < s.len() && p(
            s[first_where(s, p)],
        ) && (forall|i: int| 0 <= i < first_where(s, p) ==> !p(#[trigger] s[i])),
    decreases s.len(),
{
    if s.len() > 0 && !p(s[0]) {
        lemma_first_where(s.skip(1), p);
        let rest = first_where(s.skip(1), p);
        if rest == -1 {
            assert forall|i: int| 0 <= i < s.len() implies !p(#[trigger] s[i]) by {
                if i > 0 {
                    assert(s.skip(1)[i - 1] == s[i]);
                }
            }
        } else {
            assert(s.skip(1)[rest] == s[rest + 1]);
            assert forall|i: int| 0 <= i < first_where(s, p) implies !p(#[trigger] s[i]) by {
                if i > 0 {
                    assert(s.skip(1)[i - 1] == s[i]);
                }
            }
        }
    }
}

} // verus!
