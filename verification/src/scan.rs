use crate::text::contains_seq;
use crate::text::contains_str;
use vstd::multiset::Multiset;
use vstd::prelude::*;
use vstd::string::StrSliceExecFns;

verus! {

/// Lexicographic order on character sequences, by code point; the order in
/// which date-coded archive names are chronological.
pub open spec fn lex_le(a: Seq<char>, b: Seq<char>) -> bool
    decreases a.len(),
{
    if a.len() == 0 {
        true
    } else if b.len() == 0 {
        false
    } else if (a[0] as u32) < (b[0] as u32) {
        true
    } else if (a[0] as u32) > (b[0] as u32) {
        false
    } else {
        lex_le(a.drop_first(), b.drop_first())
    }
}

/// Any two strings compare one way or the other.
pub proof fn lemma_lex_total(a: Seq<char>, b: Seq<char>)
    ensures
        lex_le(a, b) || lex_le(b, a),
    decreases a.len(),
{
    if a.len() > 0 && b.len() > 0 && (a[0] as u32) == (b[0] as u32) {
        lemma_lex_total(a.drop_first(), b.drop_first());
    }
}

pub proof fn lemma_lex_trans(a: Seq<char>, b: Seq<char>, c: Seq<char>)
    requires
        lex_le(a, b),
        lex_le(b, c),
    ensures
        lex_le(a, c),
    decreases a.len(),
{
    if a.len() > 0 && b.len() > 0 && c.len() > 0 && (a[0] as u32) == (b[0] as u32) && (b[0] as u32)
        == (c[0] as u32) {
        lemma_lex_trans(a.drop_first(), b.drop_first(), c.drop_first());
    }
}

/// Whether the characters of `a` precede those of `b`.
pub fn str_lex_le(a: &str, b: &str) -> (r: bool)
    ensures
        r == lex_le(a@, b@),
{
    let al = a.unicode_len();
    let bl = b.unicode_len();
    let mut i: usize = 0;
    proof {
        assert(a@.skip(0) =~= a@);
        assert(b@.skip(0) =~= b@);
    }
    loop
        invariant
            al == a@.len(),
            bl == b@.len(),
            0 <= i <= al,
            0 <= i <= bl,
            lex_le(a@, b@) == lex_le(a@.skip(i as int), b@.skip(i as int)),
        decreases al - i,
    {
        if i >= al {
            return true;
        }
        if i >= bl {
            return false;
        }
        let ca = a.get_char(i);
        let cb = b.get_char(i);
        if (ca as u32) < (cb as u32) {
            return true;
        }
        if (ca as u32) > (cb as u32) {
            return false;
        }
        proof {
            assert(a@.skip(i as int).drop_first() =~= a@.skip(i + 1));
            assert(b@.skip(i as int).drop_first() =~= b@.skip(i + 1));
        }
        i += 1;
    }
}

/// `x` inserted into `s` after every entry that does not come after it;
/// entries equal to `x` keep their place before it.
pub open spec fn insert_lex(x: Seq<char>, s: Seq<Seq<char>>) -> Seq<Seq<char>>
    decreases s.len(),
{
    if s.len() == 0 {
        seq![x]
    } else if lex_le(s[0], x) {
        seq![s[0]] + insert_lex(x, s.drop_first())
    } else {
        seq![x] + s
    }
}

/// `s` sorted by insertion, a stable lexicographic sort.
pub open spec fn sort_lex(s: Seq<Seq<char>>) -> Seq<Seq<char>>
    decreases s.len(),
{
    if s.len() == 0 {
        seq![]
    } else {
        insert_lex(s.last(), sort_lex(s.drop_last()))
    }
}

/// Pairwise sortedness by the lexicographic order.
pub open spec fn lex_sorted(s: Seq<Seq<char>>) -> bool {
    forall|i: int, j: int| 0 <= i < j < s.len() ==> lex_le(#[trigger] s[i], #[trigger] s[j])
}

proof fn lemma_insert_lex_contains(x: Seq<char>, s: Seq<Seq<char>>)
    ensures
        insert_lex(x, s).len() == s.len() + 1,
        forall|k: int|
            0 <= k < insert_lex(x, s).len() ==> #[trigger] insert_lex(x, s)[k] == x || s.contains(
                insert_lex(x, s)[k],
            ),
    decreases s.len(),
{
    if s.len() > 0 && lex_le(s[0], x) {
        lemma_insert_lex_contains(x, s.drop_first());
        let r = insert_lex(x, s);
        let r1 = insert_lex(x, s.drop_first());
        assert forall|k: int| 0 <= k < r.len() implies #[trigger] r[k] == x || s.contains(
            r[k],
        ) by {
            if k == 0 {
                assert(r[0] == s[0]);
                assert(s.contains(s[0]));
            } else {
                assert(r[k] == r1[k - 1]);
                if r1[k - 1] != x {
                    assert(s.drop_first().contains(r1[k - 1]));
                    let t = choose|t: int|
                        0 <= t < s.drop_first().len() && s.drop_first()[t] == r1[k - 1];
                    assert(s[t + 1] == r1[k - 1]);
                }
            }
        }
    }
}

proof fn lemma_insert_lex_sorted(x: Seq<char>, s: Seq<Seq<char>>)
    requires
        lex_sorted(s),
    ensures
        lex_sorted(insert_lex(x, s)),
    decreases s.len(),
{
    let r = insert_lex(x, s);
    if s.len() == 0 {
    } else if lex_le(s[0], x) {
        assert(lex_sorted(s.drop_first())) by {
            assert forall|i: int, j: int|
                0 <= i < j < s.drop_first().len() implies lex_le(
                #[trigger] s.drop_first()[i],
                #[trigger] s.drop_first()[j],
            ) by {
                assert(s[i + 1] == s.drop_first()[i]);
                assert(s[j + 1] == s.drop_first()[j]);
            }
        }
        lemma_insert_lex_sorted(x, s.drop_first());
        lemma_insert_lex_contains(x, s.drop_first());
        let r1 = insert_lex(x, s.drop_first());
        assert forall|i: int, j: int| 0 <= i < j < r.len() implies lex_le(
            #[trigger] r[i],
            #[trigger] r[j],
        ) by {
            if i == 0 {
                assert(r[j] == r1[j - 1]);
                if r1[j - 1] == x {
                    assert(lex_le(s[0], x));
                } else {
                    assert(s.drop_first().contains(r1[j - 1]));
                    let t = choose|t: int|
                        0 <= t < s.drop_first().len() && s.drop_first()[t] == r1[j - 1];
                    assert(s[t + 1] == r1[j - 1]);
                    assert(lex_le(s[0], s[t + 1]));
                }
            } else {
                assert(r[i] == r1[i - 1]);
                assert(r[j] == r1[j - 1]);
            }
        }
    } else {
        lemma_lex_total(s[0], x);
        assert(lex_le(x, s[0]));
        assert forall|i: int, j: int| 0 <= i < j < r.len() implies lex_le(
            #[trigger] r[i],
            #[trigger] r[j],
        ) by {
            if i == 0 {
                assert(r[j] == s[j - 1]);
                if j == 1 {
                } else {
                    assert(lex_le(s[0], s[j - 1]));
                    lemma_lex_trans(x, s[0], s[j - 1]);
                }
            } else {
                assert(r[i] == s[i - 1]);
                assert(r[j] == s[j - 1]);
            }
        }
    }
}

/// The sorted sequence is sorted.
pub proof fn lemma_sort_lex_sorted(s: Seq<Seq<char>>)
    ensures
        lex_sorted(sort_lex(s)),
    decreases s.len(),
{
    if s.len() > 0 {
        lemma_sort_lex_sorted(s.drop_last());
        lemma_insert_lex_sorted(s.last(), sort_lex(s.drop_last()));
    }
}

proof fn lemma_insert_lex_multiset(x: Seq<char>, s: Seq<Seq<char>>)
    ensures
        insert_lex(x, s).to_multiset() == s.to_multiset().insert(x),
    decreases s.len(),
{
    broadcast use vstd::seq_lib::group_to_multiset_ensures;

    if s.len() == 0 {
        assert(insert_lex(x, s) =~= seq![x]);
        assert(seq![x] =~= Seq::<Seq<char>>::empty().push(x));
        assert(Seq::<Seq<char>>::empty().push(x).to_multiset() =~= Seq::<
            Seq<char>,
        >::empty().to_multiset().insert(x));
    } else if lex_le(s[0], x) {
        broadcast use vstd::seq_lib::lemma_multiset_commutative;
        broadcast use vstd::multiset::group_multiset_axioms;

        lemma_insert_lex_multiset(x, s.drop_first());
        let r = insert_lex(x, s);
        let r1 = insert_lex(x, s.drop_first());
        assert(r == seq![s[0]] + r1);
        assert(seq![s[0]] =~= Seq::<Seq<char>>::empty().push(s[0]));
        assert(seq![s[0]].to_multiset() =~= Multiset::<Seq<char>>::empty().insert(s[0]));
        assert(s =~= seq![s[0]] + s.drop_first());
        assert((seq![s[0]] + s.drop_first()).to_multiset() == seq![s[0]].to_multiset().add(
            s.drop_first().to_multiset(),
        ));
        assert((seq![s[0]] + r1).to_multiset() == seq![s[0]].to_multiset().add(r1.to_multiset()));
        assert(r.to_multiset() =~= s.to_multiset().insert(x));
    } else {
        broadcast use vstd::seq_lib::lemma_multiset_commutative;
        broadcast use vstd::multiset::group_multiset_axioms;

        let r = insert_lex(x, s);
        assert(r == seq![x] + s);
        assert(seq![x] =~= Seq::<Seq<char>>::empty().push(x));
        assert(seq![x].to_multiset() =~= Multiset::<Seq<char>>::empty().insert(x));
        assert((seq![x] + s).to_multiset() == seq![x].to_multiset().add(s.to_multiset()));
        assert(r.to_multiset() =~= s.to_multiset().insert(x));
    }
}

/// Sorting keeps exactly the same names, multiplicities included.
pub proof fn lemma_sort_lex_multiset(s: Seq<Seq<char>>)
    ensures
        sort_lex(s).to_multiset() == s.to_multiset(),
        sort_lex(s).len() == s.len(),
    decreases s.len(),
{
    broadcast use vstd::seq_lib::group_to_multiset_ensures;

    if s.len() == 0 {
        assert(sort_lex(s) =~= Seq::<Seq<char>>::empty());
    } else {
        lemma_sort_lex_multiset(s.drop_last());
        lemma_insert_lex_multiset(s.last(), sort_lex(s.drop_last()));
        lemma_insert_lex_contains(s.last(), sort_lex(s.drop_last()));
        assert(s =~= s.drop_last().push(s.last()));
        assert(s.drop_last().push(s.last()).to_multiset() == s.drop_last().to_multiset().insert(
            s.last(),
        ));
    }
}

/// Where the next entry belongs in an already sorted list, found by the
/// characterizing bounds the search loop establishes.
proof fn lemma_insert_lex_at(x: Seq<char>, s: Seq<Seq<char>>, j: int)
    requires
        0 <= j <= s.len(),
        forall|k: int| 0 <= k < j ==> lex_le(#[trigger] s[k], x),
        j < s.len() ==> !lex_le(s[j], x),
    ensures
        insert_lex(x, s) == s.subrange(0, j) + seq![x] + s.skip(j),
    decreases j,
{
    if j == 0 {
        if s.len() == 0 {
            assert(insert_lex(x, s) =~~= s.subrange(0, 0) + seq![x] + s.skip(0));
        } else {
            assert(!lex_le(s[0], x));
            assert(insert_lex(x, s) == seq![x] + s);
            assert(insert_lex(x, s) =~~= s.subrange(0, 0) + seq![x] + s.skip(0));
        }
    } else {
        assert(lex_le(s[0], x));
        assert forall|k: int| 0 <= k < j - 1 implies lex_le(#[trigger] s.drop_first()[k], x) by {
            assert(s.drop_first()[k] == s[k + 1]);
        }
        if j - 1 < s.drop_first().len() {
            assert(s.drop_first()[j - 1] == s[j]);
        }
        lemma_insert_lex_at(x, s.drop_first(), j - 1);
        assert(insert_lex(x, s) == seq![s[0]] + (s.drop_first().subrange(0, j - 1) + seq![x]
            + s.drop_first().skip(j - 1)));
        assert(seq![s[0]] + (s.drop_first().subrange(0, j - 1) + seq![x] + s.drop_first().skip(
            j - 1,
        )) =~~= s.subrange(0, j) + seq![x] + s.skip(j));
    }
}

/// The names sorted lexicographically; a stable insertion sort.
pub fn sort_names(names: &Vec<String>) -> (r: Vec<String>)
    ensures
        r.deep_view() == sort_lex(names.deep_view()),
{
    let n = names.len();
    let mut out: Vec<String> = Vec::new();
    proof {
        assert(names.deep_view().take(0) =~= Seq::<Seq<char>>::empty());
        assert(out.deep_view() =~~= sort_lex(names.deep_view().take(0)));
    }
    for i in 0..n
        invariant
            n == names@.len(),
            out.deep_view() == sort_lex(names.deep_view().take(i as int)),
            out@.len() == i,
    {
        let x = names[i].clone();
        let m = out.len();
        let mut j: usize = 0;
        while j < m && str_lex_le(out[j].as_str(), x.as_str())
            invariant
                m == out@.len(),
                0 <= j <= m,
                forall|k: int| 0 <= k < j ==> lex_le((#[trigger] out@[k])@, x@),
            decreases m - j,
        {
            j += 1;
        }
        let ghost prev_dv: Seq<Seq<char>> = out.deep_view();
        let ghost prev_v: Seq<String> = out@;
        out.insert(j, x);
        proof {
            let nv = names.deep_view();
            assert(nv.take(i + 1).drop_last() =~= nv.take(i as int));
            assert(nv.take(i + 1).last() == nv[i as int]);
            assert(nv[i as int] == names@[i as int]@);
            assert forall|k: int| 0 <= k < j implies lex_le(#[trigger] prev_dv[k], x@) by {
                assert(prev_dv[k] == prev_v[k]@);
            }
            if j < prev_v.len() {
                assert(prev_dv[j as int] == prev_v[j as int]@);
            }
            lemma_insert_lex_at(x@, prev_dv, j as int);
            assert forall|k: int|
                0 <= k < out.deep_view().len() implies #[trigger] out.deep_view()[k] == (
            prev_dv.subrange(0, j as int) + seq![x@] + prev_dv.skip(j as int))[k] by {
                assert(out.deep_view()[k] == out@[k]@);
                assert(out@ == prev_v.insert(j as int, x));
                if k < j {
                    assert(out@[k] == prev_v[k]);
                    assert(prev_dv[k] == prev_v[k]@);
                } else if k == j {
                    assert(out@[k] == x);
                } else {
                    assert(out@[k] == prev_v[k - 1]);
                    assert(prev_dv[k - 1] == prev_v[k - 1]@);
                }
            }
            assert(out.deep_view() =~~= insert_lex(x@, prev_dv));
            assert(out.deep_view() =~~= sort_lex(nv.take(i + 1)));
        }
    }
    proof {
        assert(names.deep_view().take(n as int) =~= names.deep_view());
    }
    out
}

/// A name with the debug marker in it names a diagnostic archive, which the
/// scanner ignores.
pub open spec fn is_debug_name(s: Seq<char>) -> bool {
    contains_seq(s, "debug"@)
}

/// The archive names selected for parsing, oldest first: all names sorted
/// lexicographically (date-coded names make that chronological), without
/// the newest one when it is known to duplicate the live log, and without
/// diagnostic archives.
pub open spec fn select_archives_spec(names: Seq<Seq<char>>, exclude_latest: bool) -> Seq<
    Seq<char>,
> {
    let sorted = sort_lex(names);
    let kept = if exclude_latest && sorted.len() > 0 {
        sorted.drop_last()
    } else {
        sorted
    };
    kept.filter(|s: Seq<char>| !is_debug_name(s))
}

/// Selects and orders the archives to parse from the directory's file
/// names.
pub fn select_archives(names: &Vec<String>, exclude_latest: bool) -> (r: Vec<String>)
    ensures
        r.deep_view() == select_archives_spec(names.deep_view(), exclude_latest),
{
    let mut sorted = sort_names(names);
    if exclude_latest && sorted.len() > 0 {
        sorted.pop();
    }
    let ghost kept: Seq<Seq<char>> = sorted.deep_view();
    proof {
        let sv = sort_lex(names.deep_view());
        if exclude_latest && sv.len() > 0 {
            assert(kept =~~= sv.drop_last()) by {
                assert forall|k: int| 0 <= k < sorted.deep_view().len() implies #[trigger] sorted
                    .deep_view()[k] == sv.drop_last()[k] by {
                    assert(sorted.deep_view()[k] == sorted@[k]@);
                }
            }
        }
    }
    let mut out: Vec<String> = Vec::new();
    let n = sorted.len();
    let pred = Ghost(|s: Seq<char>| !is_debug_name(s));
    proof {
        assert(kept.take(0) =~= Seq::<Seq<char>>::empty());
        reveal(Seq::filter);
        assert(out.deep_view() =~~= kept.take(0).filter(pred@));
    }
    for i in 0..n
        invariant
            n == sorted@.len(),
            kept == sorted.deep_view(),
            out.deep_view() == kept.take(i as int).filter(pred@),
            pred@ == (|s: Seq<char>| !is_debug_name(s)),
    {
        let keep = !contains_str(sorted[i].as_str(), "debug");
        let ghost prev_dv: Seq<Seq<char>> = out.deep_view();
        let ghost prev_v: Seq<String> = out@;
        if keep {
            let item = sorted[i].clone();
            out.push(item);
        }
        proof {
            assert(kept[i as int] == sorted@[i as int]@);
            assert(kept.take(i + 1) =~= kept.take(i as int) + seq![kept[i as int]]);
            Seq::<Seq<char>>::filter_distributes_over_add(
                kept.take(i as int),
                seq![kept[i as int]],
                pred@,
            );
            reveal(Seq::filter);
            assert(seq![kept[i as int]].drop_last() =~= Seq::<Seq<char>>::empty());
            assert(Seq::<Seq<char>>::empty().filter(pred@) =~= Seq::<Seq<char>>::empty());
            if keep {
                assert(seq![kept[i as int]].filter(pred@) =~= seq![kept[i as int]]);
                assert forall|k: int|
                    0 <= k < out.deep_view().len() implies #[trigger] out.deep_view()[k] == (
                prev_dv + seq![kept[i as int]])[k] by {
                    assert(out.deep_view()[k] == out@[k]@);
                    if k < prev_v.len() {
                        assert(out@[k] == prev_v[k]);
                        assert(prev_dv[k] == prev_v[k]@);
                    }
                }
                assert(out.deep_view() =~~= prev_dv + seq![kept[i as int]]);
                assert(out.deep_view() =~~= kept.take(i + 1).filter(pred@));
            } else {
                assert(seq![kept[i as int]].filter(pred@) =~= Seq::<Seq<char>>::empty());
                assert(out.deep_view() =~~= kept.take(i + 1).filter(pred@));
            }
        }
    }
    proof {
        assert(kept.take(n as int) =~= kept);
        assert(out.deep_view() =~~= select_archives_spec(names.deep_view(), exclude_latest));
    }
    out
}

} // verus!
