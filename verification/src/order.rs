//! The order of strings (by code point, as `Ord for str` compares them),
//! sorting and removal of adjacent duplicates.
use vstd::prelude::*;
use vstd::relations::{sorted_by, total_ordering};
use crate::text::{chars_of, views};

verus! {

/// `a` comes before `b` or equals it, comparing characters by code point
/// from the left; a proper prefix comes first. For UTF-8 strings this is the
/// byte order that `Ord for str` uses.
pub open spec fn lex_le(a: Seq<char>, b: Seq<char>) -> bool
    decreases a.len(),
{
    if a.len() == 0 {
        true
    } else if b.len() == 0 {
        false
    } else if a[0] != b[0] {
        (a[0] as u32) < (b[0] as u32)
    } else {
        lex_le(a.drop_first(), b.drop_first())
    }
}

/// The order of strings as a relation.
pub open spec fn str_leq() -> spec_fn(Seq<char>, Seq<char>) -> bool {
    |a: Seq<char>, b: Seq<char>| lex_le(a, b)
}

pub proof fn lemma_lex_refl(a: Seq<char>)
    ensures
        lex_le(a, a),
    decreases a.len(),
{
    if a.len() > 0 {
        lemma_lex_refl(a.drop_first());
    }
}

pub proof fn lemma_lex_antisym(a: Seq<char>, b: Seq<char>)
    requires
        lex_le(a, b),
        lex_le(b, a),
    ensures
        a == b,
    decreases a.len(),
{
    if a.len() > 0 && b.len() > 0 {
        lemma_char_eq(a[0], b[0]);
        lemma_lex_antisym(a.drop_first(), b.drop_first());
        assert(a =~= seq![a[0]] + a.drop_first());
        assert(b =~= seq![b[0]] + b.drop_first());
    }
}

pub proof fn lemma_char_eq(x: char, y: char)
    ensures
        (x as u32) == (y as u32) ==> x == y,
{
}

pub proof fn lemma_lex_trans(a: Seq<char>, b: Seq<char>, c: Seq<char>)
    requires
        lex_le(a, b),
        lex_le(b, c),
    ensures
        lex_le(a, c),
    decreases a.len(),
{
    if a.len() > 0 && b.len() > 0 && c.len() > 0 {
        lemma_char_eq(a[0], b[0]);
        lemma_char_eq(b[0], c[0]);
        lemma_char_eq(a[0], c[0]);
        if a[0] == b[0] && b[0] == c[0] {
            lemma_lex_trans(a.drop_first(), b.drop_first(), c.drop_first());
        }
    }
}

pub proof fn lemma_lex_total(a: Seq<char>, b: Seq<char>)
    ensures
        lex_le(a, b) || lex_le(b, a),
    decreases a.len(),
{
    if a.len() > 0 && b.len() > 0 {
        lemma_char_eq(a[0], b[0]);
        lemma_lex_total(a.drop_first(), b.drop_first());
    }
}

/// The order of strings is a total order.
pub proof fn lemma_str_leq_total()
    ensures
        total_ordering(str_leq()),
{
    assert forall|x: Seq<char>| #[trigger] str_leq()(x, x) by {
        lemma_lex_refl(x);
    }
    assert forall|x: Seq<char>, y: Seq<char>| #[trigger]
        str_leq()(x, y) && #[trigger] str_leq()(y, x) implies x == y by {
        lemma_lex_antisym(x, y);
    }
    assert forall|x: Seq<char>, y: Seq<char>, z: Seq<char>| #[trigger]
        str_leq()(x, y) && #[trigger] str_leq()(y, z) implies str_leq()(x, z) by {
        lemma_lex_trans(x, y, z);
    }
    assert forall|x: Seq<char>, y: Seq<char>| #[trigger]
        str_leq()(x, y) || #[trigger] str_leq()(y, x) by {
        lemma_lex_total(x, y);
    }
}

/// Whether `a` comes before `b` or equals it.
pub fn chars_le(a: &Vec<char>, b: &Vec<char>) -> (r: bool)
    ensures
        r == lex_le(a@, b@),
{
    let mut i: usize = 0;
    assert(a@.skip(0) =~= a@);
    assert(b@.skip(0) =~= b@);
    while i < a.len() && i < b.len() && a[i] == b[i]
        invariant
            i <= a.len(),
            i <= b.len(),
            lex_le(a@, b@) == lex_le(a@.skip(i as int), b@.skip(i as int)),
        decreases a.len() - i,
    {
        assert(a@.skip(i as int).drop_first() =~= a@.skip(i + 1));
        assert(b@.skip(i as int).drop_first() =~= b@.skip(i + 1));
        i = i + 1;
    }
    if i == a.len() {
        true
    } else if i == b.len() {
        false
    } else {
        assert(a@.skip(i as int)[0] == a@[i as int]);
        assert(b@.skip(i as int)[0] == b@[i as int]);
        (a[i] as u32) < (b[i] as u32)
    }
}

/// Whether string `a` comes before `b` or equals it.
pub fn str_le(a: &String, b: &String) -> (r: bool)
    ensures
        r == lex_le(a@, b@),
{
    let x = chars_of(a.as_str());
    let y = chars_of(b.as_str());
    chars_le(&x, &y)
}

/// Sorts strings in ascending order, as `Vec::sort` orders them.
pub fn sort_strings(v: Vec<String>) -> (r: Vec<String>)
    ensures
        views(r@) == views(v@).sort_by(str_leq()),
{
    let mut r: Vec<String> = Vec::new();
    let mut i: usize = 0;
    proof {
        lemma_str_leq_total();
        assert(views(v@).take(0) =~= views(r@));
    }
    while i < v.len()
        invariant
            i <= v.len(),
            total_ordering(str_leq()),
            sorted_by(views(r@), str_leq()),
            views(r@).to_multiset() == views(v@).take(i as int).to_multiset(),
        decreases v.len() - i,
    {
        let x = v[i].clone();
        let mut p: usize = 0;
        while p < r.len() && str_le(&r[p], &x)
            invariant
                p <= r.len(),
                forall|k: int| 0 <= k < p ==> lex_le(#[trigger] views(r@)[k], x@),
            decreases r.len() - p,
        {
            p = p + 1;
        }
        let ghost old_r = views(r@);
        r.insert(p, x);
        proof {
            assert(views(r@) =~= old_r.insert(p as int, x@));
            vstd::seq_lib::to_multiset_insert(old_r, p as int, x@);
            assert(views(v@).take(i + 1) =~= views(v@).take(i as int).push(x@));
            vstd::seq_lib::to_multiset_build(views(v@).take(i as int), x@);
            if p < old_r.len() {
                assert(!lex_le(old_r[p as int], x@));
                lemma_lex_total(old_r[p as int], x@);
            }
            assert forall|a: int, b: int| 0 <= a < b < views(r@).len() implies #[trigger] str_leq()(
                views(r@)[a],
                views(r@)[b],
            ) by {
                let s = views(r@);
                if b < p {
                } else if a > p {
                    assert(s[a] == old_r[a - 1] && s[b] == old_r[b - 1]);
                } else if a == p {
                    assert(s[b] == old_r[b - 1]);
                    if b - 1 > p {
                        assert(str_leq()(old_r[p as int], old_r[b - 1]));
                        lemma_lex_trans(x@, old_r[p as int], old_r[b - 1]);
                    }
                } else if b == p {
                    assert(s[a] == old_r[a]);
                } else {
                    assert(s[a] == old_r[a] && s[b] == old_r[b - 1]);
                }
            }
        }
        i = i + 1;
    }
    proof {
        assert(views(v@).take(v.len() as int) =~= views(v@));
        views(v@).lemma_sort_by_ensures(str_leq());
        vstd::seq_lib::lemma_sorted_unique(views(r@), views(v@).sort_by(str_leq()), str_leq());
    }
    r
}

/// `s` without elements equal to the one right before them, as `Vec::dedup`
/// leaves it.
pub open spec fn dedup(s: Seq<Seq<char>>) -> Seq<Seq<char>>
    decreases s.len(),
{
    if s.len() <= 1 {
        s
    } else if s.last() == s[s.len() - 2] {
        dedup(s.drop_last())
    } else {
        dedup(s.drop_last()).push(s.last())
    }
}

proof fn lemma_dedup_last(s: Seq<Seq<char>>)
    requires
        s.len() > 0,
    ensures
        dedup(s).len() > 0,
        dedup(s).last() == s.last(),
    decreases s.len(),
{
    if s.len() > 1 && s.last() == s[s.len() - 2] {
        lemma_dedup_last(s.drop_last());
    }
}

/// Every element of `dedup(s)` is an element of `s`.
proof fn lemma_dedup_from(s: Seq<Seq<char>>)
    ensures
        forall|k: int| 0 <= k < dedup(s).len() ==> s.contains(#[trigger] dedup(s)[k]),
    decreases s.len(),
{
    if s.len() > 1 {
        let pre = s.drop_last();
        lemma_dedup_from(pre);
        assert forall|k: int| 0 <= k < dedup(s).len() implies s.contains(#[trigger] dedup(s)[k]) by {
            if k < dedup(pre).len() {
                assert(dedup(s)[k] == dedup(pre)[k]);
                let m = choose|m: int| 0 <= m < pre.len() && pre[m] == dedup(pre)[k];
                assert(s[m] == pre[m]);
            } else {
                assert(dedup(s)[k] == s[s.len() - 1]);
            }
        }
    } else {
        assert forall|k: int| 0 <= k < dedup(s).len() implies s.contains(#[trigger] dedup(s)[k]) by {
            assert(dedup(s)[k] == s[k]);
        }
    }
}

/// Removing adjacent repeats keeps every element.
pub proof fn lemma_dedup_contains(s: Seq<Seq<char>>, x: Seq<char>)
    ensures
        dedup(s).contains(x) == s.contains(x),
    decreases s.len(),
{
    lemma_dedup_from(s);
    if dedup(s).contains(x) {
        let k = choose|k: int| 0 <= k < dedup(s).len() && dedup(s)[k] == x;
        assert(s.contains(dedup(s)[k]));
    }
    if s.len() > 1 && s.contains(x) {
        let pre = s.drop_last();
        lemma_dedup_contains(pre, x);
        let d = dedup(pre);
        let m = choose|m: int| 0 <= m < s.len() && s[m] == x;
        if m < s.len() - 1 || s.last() == s[s.len() - 2] {
            let i = if m < s.len() - 1 { m } else { s.len() - 2 };
            assert(pre[i] == x);
            let k = choose|k: int| 0 <= k < d.len() && d[k] == x;
            if s.last() != s[s.len() - 2] {
                assert(d.push(s.last())[k] == x);
            }
        } else {
            assert(d.push(s.last())[d.len() as int] == x);
        }
    }
}

/// Removing adjacent repeats from a sorted sequence leaves a strictly sorted
/// one: in order, and with no element twice.
pub proof fn lemma_dedup_sorted_distinct(s: Seq<Seq<char>>)
    requires
        sorted_by(s, str_leq()),
    ensures
        sorted_by(dedup(s), str_leq()),
        dedup(s).no_duplicates(),
    decreases s.len(),
{
    if s.len() > 1 {
        let pre = s.drop_last();
        assert(sorted_by(pre, str_leq())) by {
            assert forall|i: int, j: int| 0 <= i < j < pre.len() implies #[trigger] str_leq()(pre[i], pre[j]) by {
                assert(str_leq()(s[i], s[j]));
            }
        }
        lemma_dedup_sorted_distinct(pre);
        if s.last() != s[s.len() - 2] {
            let d = dedup(pre);
            let last = s.last();
            let prev = s[s.len() - 2];
            assert(str_leq()(prev, last));
            lemma_dedup_from(pre);
            assert forall|k: int| 0 <= k < d.len() implies lex_le(#[trigger] d[k], last) && d[k] != last by {
                assert(pre.contains(d[k]));
                let m = choose|m: int| 0 <= m < pre.len() && pre[m] == d[k];
                if m < pre.len() - 1 {
                    assert(str_leq()(pre[m], pre[pre.len() - 1]));
                } else {
                    lemma_lex_refl(d[k]);
                }
                assert(lex_le(d[k], prev));
                lemma_lex_trans(d[k], prev, last);
                if d[k] == last {
                    lemma_lex_antisym(prev, last);
                }
            }
            let r = d.push(last);
            assert(dedup(s) == r);
            assert forall|i: int, j: int| 0 <= i < j < r.len() implies #[trigger] str_leq()(r[i], r[j]) by {
                if j == r.len() - 1 {
                    assert(r[j] == last);
                    assert(r[i] == d[i]);
                } else {
                    assert(r[i] == d[i] && r[j] == d[j]);
                    assert(str_leq()(d[i], d[j]));
                }
            }
            assert forall|i: int, j: int| 0 <= i < r.len() && 0 <= j < r.len() && i != j implies r[i] != r[j] by {
                if i == r.len() - 1 {
                    assert(r[j] == d[j]);
                } else if j == r.len() - 1 {
                    assert(r[i] == d[i]);
                } else {
                    assert(r[i] == d[i] && r[j] == d[j]);
                }
            }
        }
    }
}

/// Removes consecutive repeated strings.
pub fn dedup_strings(v: Vec<String>) -> (r: Vec<String>)
    ensures
        views(r@) == dedup(views(v@)),
{
    let mut r: Vec<String> = Vec::new();
    let mut i: usize = 0;
    assert(views(v@).take(0) =~= views(r@));
    while i < v.len()
        invariant
            i <= v.len(),
            views(r@) == dedup(views(v@).take(i as int)),
            i > 0 ==> r.len() > 0 && views(r@).last() == views(v@)[i - 1],
        decreases v.len() - i,
    {
        let ghost s = views(v@).take(i + 1);
        assert(s.drop_last() =~= views(v@).take(i as int));
        if i == 0 || !(r[r.len() - 1] == v[i]) {
            let x = v[i].clone();
            r.push(x);
            proof {
                if i > 0 {
                    assert(views(r@) =~= dedup(views(v@).take(i as int)).push(x@));
                } else {
                    assert(views(r@) =~= s);
                }
            }
        } else {
            assert(s.last() == s[s.len() - 2]);
        }
        proof {
            lemma_dedup_last(s);
        }
        i = i + 1;
    }
    assert(views(v@).take(v.len() as int) =~= views(v@));
    r
}

} // verus!
