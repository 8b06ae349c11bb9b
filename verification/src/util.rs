use vstd::prelude::*;

verus! {

/// Extending a prefix by one element extends its filtered image by that
/// element exactly when the predicate holds of it.
pub proof fn lemma_filter_take_push<T>(s: Seq<T>, p: spec_fn(T) -> bool, i: int)
    requires
        0 <= i < s.len(),
    ensures
        s.take(i + 1).filter(p) == if p(s[i]) {
            s.take(i).filter(p).push(s[i])
        } else {
            s.take(i).filter(p)
        },
{
    assert(s.take(i + 1) =~= s.take(i) + seq![s[i]]);
    Seq::<T>::filter_distributes_over_add(s.take(i), seq![s[i]], p);
    reveal(Seq::filter);
    assert(seq![s[i]].drop_last() =~= Seq::<T>::empty());
    assert(Seq::<T>::empty().filter(p) =~= Seq::<T>::empty());
    if p(s[i]) {
        assert(seq![s[i]].filter(p) =~= seq![s[i]]);
        assert(s.take(i).filter(p) + seq![s[i]] =~= s.take(i).filter(p).push(s[i]));
    } else {
        assert(seq![s[i]].filter(p) =~= Seq::<T>::empty());
        assert(s.take(i).filter(p) + Seq::<T>::empty() =~= s.take(i).filter(p));
    }
}

/// Prepending one element to a sequence grows its filtered image by that
/// element exactly when the predicate holds of it.
pub proof fn lemma_filter_cons<T>(x: T, s: Seq<T>, p: spec_fn(T) -> bool)
    ensures
        (seq![x] + s).filter(p) == if p(x) {
            seq![x] + s.filter(p)
        } else {
            s.filter(p)
        },
{
    Seq::<T>::filter_distributes_over_add(seq![x], s, p);
    reveal(Seq::filter);
    assert(seq![x].drop_last() =~= Seq::<T>::empty());
    assert(Seq::<T>::empty().filter(p) =~= Seq::<T>::empty());
    if p(x) {
        assert(seq![x].filter(p) =~= seq![x]);
    } else {
        assert(seq![x].filter(p) =~= Seq::<T>::empty());
        assert(Seq::<T>::empty() + s.filter(p) =~= s.filter(p));
    }
}

/// The sum of a sequence of counts.
pub open spec fn sum_int(s: Seq<int>) -> int
    decreases s.len(),
{
    if s.len() == 0 {
        0
    } else {
        sum_int(s.drop_last()) + s.last()
    }
}

/// The sum of a chart's values.
pub open spec fn sum_u64(s: Seq<u64>) -> int
    decreases s.len(),
{
    if s.len() == 0 {
        0
    } else {
        sum_u64(s.drop_last()) + s.last()
    }
}

/// Raising one entry of a sequence by one raises the sum by one.
pub proof fn lemma_sum_int_update(a: Seq<int>, b: Seq<int>, k: int)
    requires
        a.len() == b.len(),
        0 <= k < a.len(),
        b[k] == a[k] + 1,
        forall|t: int| 0 <= t < a.len() && t != k ==> a[t] == #[trigger] b[t],
    ensures
        sum_int(b) == sum_int(a) + 1,
    decreases a.len(),
{
    if k == a.len() - 1 {
        assert(a.drop_last() =~= b.drop_last());
    } else {
        lemma_sum_int_update(a.drop_last(), b.drop_last(), k);
    }
}

/// Two sequences with the same entries have the same sum.
pub proof fn lemma_sum_int_congruent(a: Seq<int>, b: Seq<int>)
    requires
        a.len() == b.len(),
        forall|t: int| 0 <= t < a.len() ==> a[t] == #[trigger] b[t],
    ensures
        sum_int(a) == sum_int(b),
    decreases a.len(),
{
    if a.len() > 0 {
        lemma_sum_int_congruent(a.drop_last(), b.drop_last());
    }
}

/// A chart's values sum to the same number as their mathematical
/// counterparts.
pub proof fn lemma_sum_u64_as_int(v: Seq<u64>, w: Seq<int>)
    requires
        v.len() == w.len(),
        forall|t: int| 0 <= t < v.len() ==> v[t] as int == #[trigger] w[t],
    ensures
        sum_u64(v) == sum_int(w),
    decreases v.len(),
{
    if v.len() > 0 {
        lemma_sum_u64_as_int(v.drop_last(), w.drop_last());
    }
}

/// A sequence of zeroes sums to zero.
pub proof fn lemma_sum_int_zero(s: Seq<int>)
    requires
        forall|t: int| 0 <= t < s.len() ==> s[t] == 0,
    ensures
        sum_int(s) == 0,
    decreases s.len(),
{
    if s.len() > 0 {
        lemma_sum_int_zero(s.drop_last());
    }
}

/// Filtering twice is filtering by the conjunction.
pub proof fn lemma_filter_filter<T>(
    s: Seq<T>,
    p: spec_fn(T) -> bool,
    q: spec_fn(T) -> bool,
    r: spec_fn(T) -> bool,
)
    requires
        forall|e: T| #[trigger] r(e) == (p(e) && q(e)),
    ensures
        s.filter(p).filter(q) == s.filter(r),
    decreases s.len(),
{
    reveal(Seq::filter);
    if s.len() == 0 {
        assert(s.filter(p).filter(q) =~= s.filter(r));
    } else {
        lemma_filter_filter(s.drop_last(), p, q, r);
        let e = s.last();
        assert(s.filter(p) == if p(e) {
            s.drop_last().filter(p).push(e)
        } else {
            s.drop_last().filter(p)
        });
        if p(e) {
            let fp = s.drop_last().filter(p);
            assert(fp.push(e).drop_last() =~= fp);
            assert(fp.push(e).last() == e);
            assert(fp.push(e).filter(q) == if q(e) {
                fp.filter(q).push(e)
            } else {
                fp.filter(q)
            });
        }
        assert(s.filter(p).filter(q) =~= s.filter(r));
    }
}

/// First occurrences: the elements of `s` not already in `seen`, each kept
/// at its first appearance, in order.
pub open spec fn dedup_from(s: Seq<Seq<char>>, seen: Seq<Seq<char>>) -> Seq<Seq<char>>
    decreases s.len(),
{
    if s.len() == 0 {
        seq![]
    } else if seen.contains(s[0]) {
        dedup_from(s.drop_first(), seen)
    } else {
        seq![s[0]] + dedup_from(s.drop_first(), seen.push(s[0]))
    }
}

/// Membership in the deduplicated list: everything that occurs in `s` and
/// was not seen before, and nothing else.
pub proof fn lemma_dedup_membership(s: Seq<Seq<char>>, seen: Seq<Seq<char>>)
    ensures
        forall|x: Seq<char>|
            #[trigger] dedup_from(s, seen).contains(x) <==> (s.contains(x) && !seen.contains(x)),
    decreases s.len(),
{
    if s.len() == 0 {
        assert forall|x: Seq<char>| !(#[trigger] dedup_from(s, seen).contains(x)) by {}
        assert forall|x: Seq<char>| !s.contains(x) by {
            if s.contains(x) {
                let t = choose|t: int| 0 <= t < s.len() && s[t] == x;
            }
        }
    } else if seen.contains(s[0]) {
        lemma_dedup_membership(s.drop_first(), seen);
        assert forall|x: Seq<char>| #[trigger] dedup_from(s, seen).contains(x) <==> (s.contains(x)
            && !seen.contains(x)) by {
            assert(dedup_from(s.drop_first(), seen).contains(x) == (s.drop_first().contains(x)
                && !seen.contains(x)));
            assert(dedup_from(s, seen) == dedup_from(s.drop_first(), seen));
            if s.contains(x) && !seen.contains(x) {
                let t = choose|t: int| 0 <= t < s.len() && s[t] == x;
                assert(t != 0);
                assert(s.drop_first()[t - 1] == x);
                assert(s.drop_first().contains(x));
            }
            if s.drop_first().contains(x) {
                let t = choose|t: int| 0 <= t < s.drop_first().len() && s.drop_first()[t] == x;
                assert(s[t + 1] == x);
            }
        }
    } else {
        lemma_dedup_membership(s.drop_first(), seen.push(s[0]));
        let d = dedup_from(s, seen);
        let d1 = dedup_from(s.drop_first(), seen.push(s[0]));
        assert forall|x: Seq<char>| #[trigger] d.contains(x) <==> (s.contains(x) && !seen.contains(
            x,
        )) by {
            if d.contains(x) {
                let t = choose|t: int| 0 <= t < d.len() && d[t] == x;
                if t == 0 {
                    assert(x == s[0]);
                    assert(s.contains(s[0]));
                } else {
                    assert(d1[t - 1] == x);
                    assert(d1.contains(x));
                    assert(s.drop_first().contains(x));
                    let u = choose|u: int|
                        0 <= u < s.drop_first().len() && s.drop_first()[u] == x;
                    assert(s[u + 1] == x);
                    assert(!seen.push(s[0]).contains(x));
                    assert(seen.push(s[0])[seen.len() as int] == s[0]);
                    if seen.contains(x) {
                        let w = choose|w: int| 0 <= w < seen.len() && seen[w] == x;
                        assert(seen.push(s[0])[w] == x);
                    }
                }
            }
            if s.contains(x) && !seen.contains(x) {
                if x == s[0] {
                    assert(d[0] == x);
                } else {
                    let t = choose|t: int| 0 <= t < s.len() && s[t] == x;
                    assert(t != 0);
                    assert(s.drop_first()[t - 1] == x);
                    if seen.push(s[0]).contains(x) {
                        let w = choose|w: int|
                            0 <= w < seen.push(s[0]).len() && seen.push(s[0])[w] == x;
                        if w < seen.len() {
                            assert(seen[w] == x);
                        }
                    }
                    assert(d1.contains(x));
                    let u = choose|u: int| 0 <= u < d1.len() && d1[u] == x;
                    assert(d[u + 1] == x);
                }
            }
        }
    }
}

/// The deduplicated list never repeats an element.
pub proof fn lemma_dedup_distinct(s: Seq<Seq<char>>, seen: Seq<Seq<char>>)
    ensures
        forall|i: int, j: int|
            0 <= i < j < dedup_from(s, seen).len() ==> #[trigger] dedup_from(s, seen)[i]
                != #[trigger] dedup_from(s, seen)[j],
    decreases s.len(),
{
    if s.len() == 0 {
    } else if seen.contains(s[0]) {
        lemma_dedup_distinct(s.drop_first(), seen);
        let d = dedup_from(s, seen);
        let d1 = dedup_from(s.drop_first(), seen);
        assert(d == d1);
        assert forall|i: int, j: int| 0 <= i < j < d.len() implies #[trigger] d[i]
            != #[trigger] d[j] by {
            assert(d1[i] != d1[j]);
        }
    } else {
        lemma_dedup_distinct(s.drop_first(), seen.push(s[0]));
        lemma_dedup_membership(s.drop_first(), seen.push(s[0]));
        let d = dedup_from(s, seen);
        let d1 = dedup_from(s.drop_first(), seen.push(s[0]));
        assert forall|i: int, j: int| 0 <= i < j < d.len() implies #[trigger] d[i]
            != #[trigger] d[j] by {
            if i == 0 {
                assert(d[j] == d1[j - 1]);
                assert(d1.contains(d1[j - 1]));
                assert(!seen.push(s[0]).contains(d1[j - 1]));
                if d1[j - 1] == s[0] {
                    assert(seen.push(s[0])[seen.len() as int] == s[0]);
                }
            } else {
                assert(d[i] == d1[i - 1]);
                assert(d[j] == d1[j - 1]);
            }
        }
    }
}

/// Appending one element to the scanned list: it joins the deduplicated
/// list at the end exactly when it is new.
pub proof fn lemma_dedup_push(s: Seq<Seq<char>>, seen: Seq<Seq<char>>, x: Seq<char>)
    ensures
        dedup_from(s.push(x), seen) == if seen.contains(x) || s.contains(x) {
            dedup_from(s, seen)
        } else {
            dedup_from(s, seen).push(x)
        },
    decreases s.len(),
{
    reveal_with_fuel(dedup_from, 3);
    lemma_dedup_membership(s, seen);
    if s.len() == 0 {
        if seen.contains(x) {
            assert(s.push(x)[0] == x);
            assert(s.push(x).drop_first() =~= Seq::<Seq<char>>::empty());
            assert(dedup_from(s.push(x), seen) =~~= dedup_from(s, seen));
        } else {
            assert(s.push(x)[0] == x);
            assert(s.push(x).drop_first() =~= Seq::<Seq<char>>::empty());
            assert(dedup_from(s.push(x), seen) =~~= seq![x]);
            assert(dedup_from(s, seen).push(x) =~~= seq![x]);
        }
    } else {
        assert(s.push(x)[0] == s[0]);
        assert(s.push(x).drop_first() =~= s.drop_first().push(x));
        if seen.contains(s[0]) {
            lemma_dedup_push(s.drop_first(), seen, x);
            assert(s.contains(x) <==> (s[0] == x || s.drop_first().contains(x))) by {
                lemma_cons_contains(s, x);
            }
            if s[0] == x {
                assert(seen.contains(x));
            }
        } else {
            lemma_dedup_push(s.drop_first(), seen.push(s[0]), x);
            assert(s.contains(x) <==> (s[0] == x || s.drop_first().contains(x))) by {
                lemma_cons_contains(s, x);
            }
            assert(seen.push(s[0]).contains(x) <==> (seen.contains(x) || s[0] == x)) by {
                lemma_push_contains(seen, s[0], x);
            }
            if !(seen.contains(x) || s.contains(x)) {
                assert(dedup_from(s.push(x), seen) =~~= seq![s[0]] + dedup_from(
                    s.drop_first(),
                    seen.push(s[0]),
                ).push(x));
                assert(seq![s[0]] + dedup_from(s.drop_first(), seen.push(s[0])).push(x) =~~= (
                seq![s[0]] + dedup_from(s.drop_first(), seen.push(s[0]))).push(x));
            }
        }
    }
}

/// Membership in a sequence with a head: the head, or a member of the
/// tail.
pub proof fn lemma_cons_contains(s: Seq<Seq<char>>, x: Seq<char>)
    requires
        s.len() > 0,
    ensures
        s.contains(x) <==> (s[0] == x || s.drop_first().contains(x)),
{
    if s.contains(x) {
        let t = choose|t: int| 0 <= t < s.len() && s[t] == x;
        if t > 0 {
            assert(s.drop_first()[t - 1] == x);
        }
    }
    if s.drop_first().contains(x) {
        let t = choose|t: int| 0 <= t < s.drop_first().len() && s.drop_first()[t] == x;
        assert(s[t + 1] == x);
    }
}

/// Membership in a sequence with one element appended.
pub proof fn lemma_push_contains(s: Seq<Seq<char>>, y: Seq<char>, x: Seq<char>)
    ensures
        s.push(y).contains(x) <==> (s.contains(x) || y == x),
{
    if s.push(y).contains(x) {
        let t = choose|t: int| 0 <= t < s.push(y).len() && s.push(y)[t] == x;
        if t < s.len() {
            assert(s[t] == x);
        }
    }
    if s.contains(x) {
        let t = choose|t: int| 0 <= t < s.len() && s[t] == x;
        assert(s.push(y)[t] == x);
    }
    if y == x {
        assert(s.push(y)[s.len() as int] == x);
    }
}

} // verus!
