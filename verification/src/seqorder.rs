//! Generic order-theoretic helpers on sequences: the lexicographic order used
//! to compare candidate layouts, duplicate removal on sorted sequences, and
//! the bridge lemmas that identify a sorted permutation with `Seq::sort_by`.

use vstd::prelude::*;
use vstd::relations::*;
use vstd::seq_lib::*;

verus! {

/// Lexicographic less-or-equal on sequences: element by element, with a
/// strict prefix comparing below the longer sequence.
pub open spec fn lex_le<A>(s: Seq<A>, t: Seq<A>, leq: spec_fn(A, A) -> bool) -> bool
    decreases s.len(),
{
    if s.len() == 0 {
        true
    } else if t.len() == 0 {
        false
    } else if s[0] == t[0] {
        lex_le(s.drop_first(), t.drop_first(), leq)
    } else {
        leq(s[0], t[0])
    }
}

/// Every element of the sequence is below every later one, strictly.
pub open spec fn strict_sorted_by<A>(s: Seq<A>, leq: spec_fn(A, A) -> bool) -> bool {
    forall|i: int, j: int|
        0 <= i < j < s.len() ==> leq(#[trigger] s[i], #[trigger] s[j]) && s[i] != s[j]
}

/// Remove adjacent duplicates; on a sorted sequence this removes all
/// duplicates.
pub open spec fn dedup_sorted<A>(s: Seq<A>) -> Seq<A>
    decreases s.len(),
{
    if s.len() <= 1 {
        s
    } else if s[0] == s[1] {
        dedup_sorted(s.drop_first())
    } else {
        seq![s[0]] + dedup_sorted(s.drop_first())
    }
}

/// The lexicographic order is reflexive.
pub proof fn lemma_lex_refl<A>(s: Seq<A>, leq: spec_fn(A, A) -> bool)
    ensures
        lex_le(s, s, leq),
    decreases s.len(),
{
    if s.len() > 0 {
        lemma_lex_refl(s.drop_first(), leq);
    }
}

/// The lexicographic order is antisymmetric.
pub proof fn lemma_lex_antisym<A>(s: Seq<A>, t: Seq<A>, leq: spec_fn(A, A) -> bool)
    requires
        total_ordering(leq),
        lex_le(s, t, leq),
        lex_le(t, s, leq),
    ensures
        s == t,
    decreases s.len(),
{
    if s.len() == 0 {
        assert(t.len() == 0);
        assert(s =~= t);
    } else {
        assert(t.len() > 0);
        if s[0] == t[0] {
            lemma_lex_antisym(s.drop_first(), t.drop_first(), leq);
            assert(s =~= t) by {
                assert(forall|i: int|
                    1 <= i < s.len() ==> #[trigger] s[i] == s.drop_first()[i - 1] && #[trigger] t[i]
                        == t.drop_first()[i - 1]);
            }
        } else {
            assert(leq(s[0], t[0]) && leq(t[0], s[0]));
            assert(s[0] == t[0]);
            assert(false);
        }
    }
}

/// The lexicographic order is transitive.
pub proof fn lemma_lex_trans<A>(s: Seq<A>, t: Seq<A>, u: Seq<A>, leq: spec_fn(A, A) -> bool)
    requires
        total_ordering(leq),
        lex_le(s, t, leq),
        lex_le(t, u, leq),
    ensures
        lex_le(s, u, leq),
    decreases s.len(),
{
    if s.len() == 0 {
    } else {
        assert(t.len() > 0);
        assert(u.len() > 0);
        if s[0] == t[0] && t[0] == u[0] {
            lemma_lex_trans(s.drop_first(), t.drop_first(), u.drop_first(), leq);
        } else if s[0] == t[0] {
            assert(leq(t[0], u[0]));
            assert(s[0] != u[0] && leq(s[0], u[0]));
        } else if t[0] == u[0] {
            assert(leq(s[0], t[0]));
            assert(s[0] != u[0] && leq(s[0], u[0]));
        } else {
            assert(leq(s[0], t[0]) && leq(t[0], u[0]));
            assert(leq(s[0], u[0]));
            if s[0] == u[0] {
                assert(leq(t[0], s[0]) && leq(s[0], t[0]));
                assert(s[0] == t[0]);
                assert(false);
            }
        }
    }
}

/// The lexicographic order is total.
pub proof fn lemma_lex_connected<A>(s: Seq<A>, t: Seq<A>, leq: spec_fn(A, A) -> bool)
    requires
        total_ordering(leq),
    ensures
        lex_le(s, t, leq) || lex_le(t, s, leq),
    decreases s.len(),
{
    if s.len() > 0 && t.len() > 0 {
        if s[0] == t[0] {
            lemma_lex_connected(s.drop_first(), t.drop_first(), leq);
        } else {
            assert(leq(s[0], t[0]) || leq(t[0], s[0]));
        }
    }
}

/// Comparing two sequences that agree on their first `i` elements reduces to
/// comparing the remainders.
pub proof fn lemma_lex_skip<A>(s: Seq<A>, t: Seq<A>, leq: spec_fn(A, A) -> bool, i: int)
    requires
        0 <= i <= s.len(),
        i <= t.len(),
        forall|j: int| 0 <= j < i ==> s[j] == t[j],
    ensures
        lex_le(s, t, leq) == lex_le(s.skip(i), t.skip(i), leq),
    decreases i,
{
    if i > 0 {
        assert(s[0] == t[0]);
        assert(s.len() > 0 && t.len() > 0);
        lemma_lex_skip(s.drop_first(), t.drop_first(), leq, i - 1);
        assert(s.drop_first().skip(i - 1) =~= s.skip(i));
        assert(t.drop_first().skip(i - 1) =~= t.skip(i));
    } else {
        assert(s.skip(0) =~= s);
        assert(t.skip(0) =~= t);
    }
}

/// Appending one element either extends the deduplicated sequence or, when it
/// repeats the last element, leaves it unchanged.
pub proof fn lemma_dedup_push<A>(s: Seq<A>, x: A)
    ensures
        dedup_sorted(s.push(x)) == if s.len() > 0 && s.last() == x {
            dedup_sorted(s)
        } else {
            dedup_sorted(s).push(x)
        },
    decreases s.len(),
{
    let sp = s.push(x);
    if s.len() == 0 {
        assert(dedup_sorted(s).push(x) =~= sp);
    } else if s.len() == 1 {
        if s[0] == x {
            assert(sp[0] == sp[1]);
            assert(sp.drop_first() =~= s);
            assert(dedup_sorted(sp) == dedup_sorted(s));
        } else {
            assert(sp.drop_first() =~= seq![x]);
            assert(seq![sp[0]] + dedup_sorted(sp.drop_first()) =~= dedup_sorted(s).push(x));
        }
    } else {
        assert(sp.drop_first() =~= s.drop_first().push(x));
        lemma_dedup_push(s.drop_first(), x);
        assert(s.drop_first().last() == s.last());
        if s[0] == s[1] {
            assert(sp[0] == sp[1]);
        } else {
            assert(sp[0] != sp[1]);
            if s.last() == x {
                assert(dedup_sorted(sp) =~= dedup_sorted(s));
            } else {
                assert(seq![s[0]] + dedup_sorted(s.drop_first()).push(x) =~= (seq![s[0]]
                    + dedup_sorted(s.drop_first())).push(x));
            }
        }
    }
}

/// Deduplication keeps exactly the elements of the original sequence.
pub proof fn lemma_dedup_contains<A>(s: Seq<A>, x: A)
    ensures
        dedup_sorted(s).contains(x) == s.contains(x),
    decreases s.len(),
{
    if s.len() <= 1 {
    } else {
        lemma_dedup_contains(s.drop_first(), x);
        assert(s.drop_first().contains(x) ==> s.contains(x)) by {
            if s.drop_first().contains(x) {
                let i = choose|i: int|
                    0 <= i < s.drop_first().len() && s.drop_first()[i] == x;
                assert(s[i + 1] == x);
            }
        }
        if s[0] == s[1] {
            assert(s.contains(x) ==> s.drop_first().contains(x)) by {
                if s.contains(x) {
                    let i = choose|i: int| 0 <= i < s.len() && s[i] == x;
                    if i == 0 {
                        assert(s.drop_first()[0] == x);
                    } else {
                        assert(s.drop_first()[i - 1] == x);
                    }
                }
            }
        } else {
            let d = seq![s[0]] + dedup_sorted(s.drop_first());
            assert(dedup_sorted(s) == d);
            if s.contains(x) {
                let i = choose|i: int| 0 <= i < s.len() && s[i] == x;
                if i == 0 {
                    assert(d[0] == x);
                } else {
                    assert(s.drop_first()[i - 1] == x);
                    let j = choose|j: int|
                        0 <= j < dedup_sorted(s.drop_first()).len() && dedup_sorted(
                            s.drop_first(),
                        )[j] == x;
                    assert(d[j + 1] == x);
                }
                assert(d.contains(x));
            }
            if d.contains(x) {
                let i = choose|i: int| 0 <= i < d.len() && d[i] == x;
                if i == 0 {
                    assert(s[0] == x);
                } else {
                    assert(dedup_sorted(s.drop_first())[i - 1] == x);
                    assert(dedup_sorted(s.drop_first()).contains(x));
                    let j = choose|j: int|
                        0 <= j < s.drop_first().len() && s.drop_first()[j] == x;
                    assert(s[j + 1] == x);
                }
                assert(s.contains(x));
            }
        }
    }
}

/// Deduplicating a sorted sequence yields a strictly sorted sequence.
pub proof fn lemma_dedup_strict<A>(s: Seq<A>, leq: spec_fn(A, A) -> bool)
    requires
        total_ordering(leq),
        sorted_by(s, leq),
    ensures
        strict_sorted_by(dedup_sorted(s), leq),
    decreases s.len(),
{
    if s.len() <= 1 {
    } else {
        assert(sorted_by(s.drop_first(), leq)) by {
            assert(forall|i: int, j: int|
                0 <= i < j < s.drop_first().len() ==> #[trigger] leq(
                    s.drop_first()[i],
                    s.drop_first()[j],
                )) by {
                assert(forall|i: int, j: int|
                    0 <= i < j < s.drop_first().len() ==> #[trigger] s.drop_first()[i] == s[i + 1]
                        && #[trigger] s.drop_first()[j] == s[j + 1]);
            }
        }
        lemma_dedup_strict(s.drop_first(), leq);
        if s[0] == s[1] {
        } else {
            let d = dedup_sorted(s.drop_first());
            let whole = seq![s[0]] + d;
            assert forall|i: int, j: int| 0 <= i < j < whole.len() implies #[trigger] leq(
                whole[i],
                whole[j],
            ) && whole[i] != whole[j] by {
                if i == 0 {
                    assert(whole[i] == s[0]);
                    assert(whole[j] == d[j - 1]);
                    lemma_dedup_contains(s.drop_first(), d[j - 1]);
                    assert(d.contains(d[j - 1])) by {
                        assert(d[j - 1] == d[j - 1]);
                    }
                    assert(s.drop_first().contains(d[j - 1]));
                    let m = choose|m: int|
                        0 <= m < s.drop_first().len() && s.drop_first()[m] == d[j - 1];
                    assert(s[m + 1] == d[j - 1]);
                    assert(leq(s[0], s[m + 1]));
                    if s[0] == s[m + 1] {
                        // then s[1] sits between two copies of s[0], forcing s[0] == s[1]
                        assert(leq(s[0], s[1]));
                        if m + 1 == 1 {
                            assert(false);
                        } else {
                            assert(leq(s[1], s[m + 1]));
                            assert(leq(s[1], s[0]));
                            assert(s[0] == s[1]);
                            assert(false);
                        }
                    }
                } else {
                    assert(whole[i] == d[i - 1] && whole[j] == d[j - 1]);
                    assert(leq(d[i - 1], d[j - 1]) && d[i - 1] != d[j - 1]);
                }
            }
        }
    }
}

/// Two strictly sorted sequences with the same elements are equal.
pub proof fn lemma_strict_sorted_same_set<A>(s: Seq<A>, t: Seq<A>, leq: spec_fn(A, A) -> bool)
    requires
        total_ordering(leq),
        strict_sorted_by(s, leq),
        strict_sorted_by(t, leq),
        forall|x: A| s.contains(x) <==> t.contains(x),
    ensures
        s == t,
    decreases s.len(),
{
    if s.len() == 0 {
        if t.len() > 0 {
            assert(t[0] == t[0]);
            assert(t.contains(t[0]));
            assert(false);
        }
        assert(s =~= t);
    } else {
        assert(s.contains(s[0])) by {
            assert(s[0] == s[0]);
        }
        assert(t.contains(s[0]));
        assert(t.len() > 0);
        let j = choose|j: int| 0 <= j < t.len() && t[j] == s[0];
        assert(leq(t[0], t[j])) by {
            if j > 0 {
                assert(leq(t[0], t[j]) && t[0] != t[j]);
            }
        }
        assert(t.contains(t[0])) by {
            assert(t[0] == t[0]);
        }
        assert(s.contains(t[0]));
        let i = choose|i: int| 0 <= i < s.len() && s[i] == t[0];
        assert(leq(s[0], s[i])) by {
            if i > 0 {
                assert(leq(s[0], s[i]) && s[0] != s[i]);
            }
        }
        assert(leq(s[0], t[0]) && leq(t[0], s[0]));
        assert(s[0] == t[0]);
        lemma_drop_contains(s, leq);
        lemma_drop_contains(t, leq);
        assert forall|x: A| s.drop_first().contains(x) <==> t.drop_first().contains(x) by {
            assert(s.drop_first().contains(x) <==> s.contains(x) && x != s[0]);
            assert(t.drop_first().contains(x) <==> t.contains(x) && x != t[0]);
            assert(s.contains(x) <==> t.contains(x));
        }
        assert(strict_sorted_by(s.drop_first(), leq)) by {
            lemma_drop_strict(s, leq);
        }
        assert(strict_sorted_by(t.drop_first(), leq)) by {
            lemma_drop_strict(t, leq);
        }
        lemma_strict_sorted_same_set(s.drop_first(), t.drop_first(), leq);
        assert(s =~= t) by {
            assert(forall|k: int|
                1 <= k < s.len() ==> #[trigger] s[k] == s.drop_first()[k - 1] && #[trigger] t[k]
                    == t.drop_first()[k - 1]);
        }
    }
}

/// On a strictly sorted sequence, membership in the tail is membership in the
/// whole minus the head.
proof fn lemma_drop_contains<A>(s: Seq<A>, leq: spec_fn(A, A) -> bool)
    requires
        strict_sorted_by(s, leq),
        s.len() > 0,
    ensures
        forall|x: A| s.drop_first().contains(x) <==> s.contains(x) && x != s[0],
{
    assert forall|x: A| s.drop_first().contains(x) implies s.contains(x) && x != s[0] by {
        let i = choose|i: int| 0 <= i < s.drop_first().len() && s.drop_first()[i] == x;
        assert(s[i + 1] == x);
        assert(leq(s[0], s[i + 1]) && s[0] != s[i + 1]);
    }
    assert forall|x: A| s.contains(x) && x != s[0] implies s.drop_first().contains(x) by {
        let i = choose|i: int| 0 <= i < s.len() && s[i] == x;
        assert(i >= 1);
        assert(s.drop_first()[i - 1] == x);
    }
}

/// The tail of a strictly sorted sequence is strictly sorted.
proof fn lemma_drop_strict<A>(s: Seq<A>, leq: spec_fn(A, A) -> bool)
    requires
        strict_sorted_by(s, leq),
        s.len() > 0,
    ensures
        strict_sorted_by(s.drop_first(), leq),
{
    assert(forall|i: int, j: int|
        0 <= i < j < s.drop_first().len() ==> #[trigger] s.drop_first()[i] == s[i + 1]
            && #[trigger] s.drop_first()[j] == s[j + 1]);
}

/// Inserting an element at its ordered position preserves sortedness.
pub proof fn lemma_sorted_insert<A>(s: Seq<A>, i: int, x: A, leq: spec_fn(A, A) -> bool)
    requires
        sorted_by(s, leq),
        0 <= i <= s.len(),
        forall|j: int| 0 <= j < i ==> leq(#[trigger] s[j], x),
        forall|j: int| i <= j < s.len() ==> leq(x, #[trigger] s[j]),
    ensures
        sorted_by(s.insert(i, x), leq),
{
    let out = s.insert(i, x);
    s.insert_ensures(i, x);
    assert forall|a: int, b: int| 0 <= a < b < out.len() implies #[trigger] leq(
        out[a],
        out[b],
    ) by {
        if a < i && b < i {
            assert(out[a] == s[a] && out[b] == s[b]);
        } else if a < i && b == i {
            assert(out[a] == s[a]);
        } else if a < i && b > i {
            assert(out[a] == s[a] && out[b] == s[b - 1]);
            assert(leq(s[a], s[b - 1]));
        } else if a == i {
            assert(out[b] == s[b - 1]);
        } else {
            assert(out[a] == s[a - 1] && out[b] == s[b - 1]);
        }
    }
}

/// A sorted sequence with the multiset of `s` is `s.sort_by(leq)` itself.
pub proof fn lemma_sorted_version_unique<A>(s: Seq<A>, out: Seq<A>, leq: spec_fn(A, A) -> bool)
    requires
        total_ordering(leq),
        sorted_by(out, leq),
        out.to_multiset() == s.to_multiset(),
    ensures
        out == s.sort_by(leq),
{
    s.lemma_sort_by_ensures(leq);
    lemma_sorted_unique(out, s.sort_by(leq), leq);
}

/// Mapping two sequences with the same elements gives sequences with the
/// same elements.
pub proof fn lemma_map_same_set<A, B>(s: Seq<A>, t: Seq<A>, f: spec_fn(A) -> B)
    requires
        forall|x: A| s.contains(x) <==> t.contains(x),
    ensures
        forall|y: B|
            #![trigger s.map_values(f).contains(y)]
            #![trigger t.map_values(f).contains(y)]
            s.map_values(f).contains(y) <==> t.map_values(f).contains(y),
{
    assert forall|y: B| s.map_values(f).contains(y) implies t.map_values(f).contains(y) by {
        let i = choose|i: int| 0 <= i < s.map_values(f).len() && s.map_values(f)[i] == y;
        assert(s.contains(s[i])) by {
            assert(s[i] == s[i]);
        }
        assert(t.contains(s[i]));
        let j = choose|j: int| 0 <= j < t.len() && t[j] == s[i];
        assert(t.map_values(f)[j] == y);
        assert(t.map_values(f).contains(y));
    }
    assert forall|y: B| t.map_values(f).contains(y) implies s.map_values(f).contains(y) by {
        let i = choose|i: int| 0 <= i < t.map_values(f).len() && t.map_values(f)[i] == y;
        assert(t.contains(t[i])) by {
            assert(t[i] == t[i]);
        }
        assert(s.contains(t[i]));
        let j = choose|j: int| 0 <= j < s.len() && s[j] == t[i];
        assert(s.map_values(f)[j] == y);
        assert(s.map_values(f).contains(y));
    }
}

/// Sorting keeps exactly the elements of the original sequence.
pub proof fn lemma_sort_contains<A>(s: Seq<A>, leq: spec_fn(A, A) -> bool)
    requires
        total_ordering(leq),
    ensures
        forall|x: A| #[trigger] s.sort_by(leq).contains(x) <==> s.contains(x),
{
    broadcast use vstd::seq_lib::group_to_multiset_ensures;

    s.lemma_sort_by_ensures(leq);
    assert forall|x: A| #[trigger] s.sort_by(leq).contains(x) <==> s.contains(x) by {
        assert(s.to_multiset().count(x) == s.sort_by(leq).to_multiset().count(x));
    }
}

/// Sorting then deduplicating depends only on the set of elements.
pub proof fn lemma_dedup_sort_same_set<A>(s: Seq<A>, t: Seq<A>, leq: spec_fn(A, A) -> bool)
    requires
        total_ordering(leq),
        forall|x: A| s.contains(x) <==> t.contains(x),
    ensures
        dedup_sorted(s.sort_by(leq)) == dedup_sorted(t.sort_by(leq)),
{
    s.lemma_sort_by_ensures(leq);
    t.lemma_sort_by_ensures(leq);
    lemma_sort_contains(s, leq);
    lemma_sort_contains(t, leq);
    lemma_dedup_strict(s.sort_by(leq), leq);
    lemma_dedup_strict(t.sort_by(leq), leq);
    assert forall|x: A|
        dedup_sorted(s.sort_by(leq)).contains(x) <==> dedup_sorted(t.sort_by(leq)).contains(
            x,
        ) by {
        lemma_dedup_contains(s.sort_by(leq), x);
        lemma_dedup_contains(t.sort_by(leq), x);
    }
    lemma_strict_sorted_same_set(
        dedup_sorted(s.sort_by(leq)),
        dedup_sorted(t.sort_by(leq)),
        leq,
    );
}

/// Sorting then deduplicating keeps exactly the original elements.
pub proof fn lemma_dedup_sort_contains<A>(s: Seq<A>, leq: spec_fn(A, A) -> bool)
    requires
        total_ordering(leq),
    ensures
        forall|x: A| #[trigger] dedup_sorted(s.sort_by(leq)).contains(x) <==> s.contains(x),
{
    lemma_sort_contains(s, leq);
    assert forall|x: A| #[trigger]
        dedup_sorted(s.sort_by(leq)).contains(x) <==> s.contains(x) by {
        lemma_dedup_contains(s.sort_by(leq), x);
    }
}

/// Sorting then deduplicating gives an empty sequence exactly for an empty
/// input.
pub proof fn lemma_dedup_sort_len_zero<A>(s: Seq<A>, leq: spec_fn(A, A) -> bool)
    requires
        total_ordering(leq),
    ensures
        (dedup_sorted(s.sort_by(leq)).len() == 0) == (s.len() == 0),
{
    broadcast use vstd::seq_lib::group_to_multiset_ensures;

    s.lemma_sort_by_ensures(leq);
    assert(s.to_multiset().len() == s.len());
    assert(s.sort_by(leq).to_multiset().len() == s.sort_by(leq).len());
    assert(s.sort_by(leq).len() == s.len());
    if s.len() > 0 {
        lemma_dedup_last(s.sort_by(leq));
    }
}

/// Deduplication keeps the last element.
pub proof fn lemma_dedup_last<A>(s: Seq<A>)
    requires
        s.len() > 0,
    ensures
        dedup_sorted(s).len() > 0,
        dedup_sorted(s).last() == s.last(),
    decreases s.len(),
{
    if s.len() == 1 {
    } else {
        lemma_dedup_last(s.drop_first());
        assert(s.drop_first().last() == s.last());
        if s[0] == s[1] {
        } else {
            assert((seq![s[0]] + dedup_sorted(s.drop_first())).last() == dedup_sorted(
                s.drop_first(),
            ).last());
        }
    }
}

} // verus!
