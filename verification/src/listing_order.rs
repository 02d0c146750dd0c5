//! The orders in which `ls` lists directory entries.
//!
//! Both sort by a key and keep entries with equal keys in the order the
//! directory gave them, as a stable sort does. The keys use Unicode lower
//! case and Unicode alphanumerics, computed by the standard library.
use vstd::prelude::*;
use vstd::relations::{sorted_by, total_ordering};
use crate::order::{
    chars_le, lemma_char_eq, lemma_lex_antisym, lemma_lex_refl, lemma_lex_total, lemma_lex_trans,
    lex_le,
};
use crate::text::{chars_of, string_from, views};

verus! {

/// Names the result of `str::to_lowercase`.
pub uninterp spec fn lowercase(s: Seq<char>) -> Seq<char>;

/// The lower-case form of a string.
///
/// Calls `str::to_lowercase`; its result is named `lowercase`, a function of
/// the string alone.
#[verifier::external_body]
fn to_lowercase(s: &str) -> (r: String)
    ensures
        r@ == lowercase(s@),
{
    s.to_lowercase()
}

/// Names the result of `char::is_alphanumeric`.
pub uninterp spec fn alphanumeric(c: char) -> bool;

/// Whether a character is alphabetic or numeric in Unicode.
///
/// Calls `char::is_alphanumeric`; its result is named `alphanumeric`, a
/// function of the character alone.
#[verifier::external_body]
fn is_alphanumeric(c: char) -> (r: bool)
    ensures
        r == alphanumeric(c),
{
    c.is_alphanumeric()
}

/// A sort key with the position it came from: a class, two strings, and
/// the position in the input, which breaks ties.
pub type SortEntry = (u8, Seq<char>, Seq<char>, nat);

/// The order of sort entries: by class, then each string, then the input
/// position.
pub open spec fn entry_le(a: SortEntry, b: SortEntry) -> bool {
    if a.0 != b.0 {
        a.0 < b.0
    } else if a.1 != b.1 {
        lex_le(a.1, b.1)
    } else if a.2 != b.2 {
        lex_le(a.2, b.2)
    } else {
        a.3 <= b.3
    }
}

/// The order of sort entries as a relation.
pub open spec fn entry_leq() -> spec_fn(SortEntry, SortEntry) -> bool {
    |a: SortEntry, b: SortEntry| entry_le(a, b)
}

proof fn lemma_entry_total()
    ensures
        total_ordering(entry_leq()),
{
    assert forall|x: SortEntry| #[trigger] entry_leq()(x, x) by {
    }
    assert forall|x: SortEntry, y: SortEntry| #[trigger] entry_leq()(x, y) && #[trigger] entry_leq()(y, x)
        implies x == y by {
        if x.1 != y.1 {
            lemma_lex_antisym(x.1, y.1);
        }
        if x.2 != y.2 {
            lemma_lex_antisym(x.2, y.2);
        }
    }
    assert forall|x: SortEntry, y: SortEntry, z: SortEntry| #[trigger] entry_leq()(x, y) && #[trigger] entry_leq()(y, z)
        implies entry_leq()(x, z) by {
        if lex_le(x.1, y.1) && lex_le(y.1, z.1) {
            lemma_lex_trans(x.1, y.1, z.1);
        }
        if lex_le(x.2, y.2) && lex_le(y.2, z.2) {
            lemma_lex_trans(x.2, y.2, z.2);
        }
        if x.1 == z.1 && lex_le(x.1, y.1) && lex_le(y.1, x.1) {
            lemma_lex_antisym(x.1, y.1);
        }
        if x.2 == z.2 && lex_le(x.2, y.2) && lex_le(y.2, x.2) {
            lemma_lex_antisym(x.2, y.2);
        }
    }
    assert forall|x: SortEntry, y: SortEntry| #[trigger] entry_leq()(x, y) || #[trigger] entry_leq()(y, x) by {
        lemma_lex_total(x.1, y.1);
        lemma_lex_total(x.2, y.2);
    }
}

/// The sort entries of a list of keys: each key with its position.
pub open spec fn keyed(keys: Seq<(u8, Seq<char>, Seq<char>)>) -> Seq<SortEntry> {
    Seq::new(keys.len(), |i: int| (keys[i].0, keys[i].1, keys[i].2, i as nat))
}

/// `names` reordered stably by `keys`: the name at each position of the
/// sorted entries.
pub open spec fn stable_sorted(names: Seq<Seq<char>>, keys: Seq<(u8, Seq<char>, Seq<char>)>) -> Seq<Seq<char>> {
    keyed(keys).sort_by(entry_leq()).map_values(|e: SortEntry| names[e.3 as int])
}

/// Mapping every element keeps two sequences with the same elements (counted
/// with repetition) so.
proof fn lemma_map_permutation<A, B>(l1: Seq<A>, l2: Seq<A>, f: spec_fn(A) -> B)
    requires
        l1.to_multiset() == l2.to_multiset(),
    ensures
        l1.map_values(f).to_multiset() == l2.map_values(f).to_multiset(),
    decreases l1.len(),
{
    broadcast use vstd::seq_lib::group_to_multiset_ensures;
    broadcast use vstd::multiset::group_multiset_axioms;

    if l1.len() > 0 {
        let a = l1.last();
        assert(l1.to_multiset().count(a) > 0);
        assert(l2.contains(a));
        let i = l2.index_of(a);
        assert(l2[i] == a);
        let d1 = l1.drop_last();
        let r2 = l2.remove(i);
        assert(l1 =~= d1.push(a));
        vstd::seq_lib::to_multiset_build(d1, a);
        vstd::seq_lib::to_multiset_remove(l2, i);
        assert(d1.to_multiset() =~= r2.to_multiset());
        lemma_map_permutation(d1, r2, f);
        let m1 = l1.map_values(f);
        let m2 = l2.map_values(f);
        assert(m1 =~= d1.map_values(f).push(f(a)));
        vstd::seq_lib::to_multiset_build(d1.map_values(f), f(a));
        assert(m2.remove(i) =~= r2.map_values(f));
        vstd::seq_lib::to_multiset_remove(m2, i);
        assert(m2[i] == f(a));
        assert(m2.to_multiset().count(f(a)) > 0);
        assert(m1.to_multiset() =~= m2.to_multiset());
    } else {
        assert(l2.to_multiset().len() == 0);
        assert(l2.len() == 0);
        assert(l1.map_values(f) =~= l2.map_values(f));
    }
}

/// Law of the listing orders: ordering names by keys neither drops nor
/// repeats a name; the result holds the same names, each as often.
pub proof fn lemma_stable_sorted_permutation(names: Seq<Seq<char>>, keys: Seq<(u8, Seq<char>, Seq<char>)>)
    requires
        keys.len() == names.len(),
    ensures
        stable_sorted(names, keys).to_multiset() == names.to_multiset(),
{
    let all = keyed(keys);
    lemma_entry_total();
    all.lemma_sort_by_ensures(entry_leq());
    let f = |e: SortEntry| names[e.3 as int];
    lemma_map_permutation(all.sort_by(entry_leq()), all, f);
    assert(all.map_values(f) =~= names);
}

/// The exec form of a sort key.
pub struct ExecKey {
    pub class: u8,
    pub first: Vec<char>,
    pub second: Vec<char>,
    pub index: usize,
}

/// The model of an exec key.
pub open spec fn key_view(k: ExecKey) -> SortEntry {
    (k.class, k.first@, k.second@, k.index as nat)
}

/// Whether key `a` comes before `b` or equals it.
fn key_le(a: &ExecKey, b: &ExecKey) -> (r: bool)
    ensures
        r == entry_le(key_view(*a), key_view(*b)),
{
    if a.class != b.class {
        return a.class < b.class;
    }
    let ab = chars_le(&a.first, &b.first);
    let ba = chars_le(&b.first, &a.first);
    proof {
        lemma_lex_refl(a.first@);
        if ab && ba {
            lemma_lex_antisym(a.first@, b.first@);
        }
    }
    if !(ab && ba) {
        return ab;
    }
    let ab2 = chars_le(&a.second, &b.second);
    let ba2 = chars_le(&b.second, &a.second);
    proof {
        lemma_lex_refl(a.second@);
        if ab2 && ba2 {
            lemma_lex_antisym(a.second@, b.second@);
        }
    }
    if !(ab2 && ba2) {
        return ab2;
    }
    a.index <= b.index
}

/// Orders `names` stably by their keys (`keys[i]` belongs to `names[i]`).
fn sort_by_keys(names: &Vec<String>, keys: Vec<(u8, Vec<char>, Vec<char>)>) -> (r: Vec<String>)
    requires
        keys.len() == names.len(),
    ensures
        views(r@) == stable_sorted(
            views(names@),
            keys@.map_values(|k: (u8, Vec<char>, Vec<char>)| (k.0, k.1@, k.2@)),
        ),
{
    let ghost kv = keys@.map_values(|k: (u8, Vec<char>, Vec<char>)| (k.0, k.1@, k.2@));
    let ghost all = keyed(kv);
    let mut sorted: Vec<ExecKey> = Vec::new();
    let mut keys = keys;
    let n = keys.len();
    let mut i: usize = 0;
    proof {
        lemma_entry_total();
        assert(all.take(0) =~= sorted@.map_values(|k: ExecKey| key_view(k)));
    }
    let ghost keys0 = keys@;
    while i < n
        invariant
            i <= n == keys0.len() == kv.len(),
            keys@ == keys0,
            kv == keys0.map_values(|k: (u8, Vec<char>, Vec<char>)| (k.0, k.1@, k.2@)),
            all == keyed(kv),
            total_ordering(entry_leq()),
            sorted_by(sorted@.map_values(|k: ExecKey| key_view(k)), entry_leq()),
            sorted@.map_values(|k: ExecKey| key_view(k)).to_multiset() == all.take(i as int).to_multiset(),
        decreases n - i,
    {
        let k = ExecKey { class: keys[i].0, first: keys[i].1.clone(), second: keys[i].2.clone(), index: i };
        assert(key_view(k) == all[i as int]);
        let ghost old_s = sorted@.map_values(|k: ExecKey| key_view(k));
        let mut p: usize = 0;
        while p < sorted.len() && key_le(&sorted[p], &k)
            invariant
                p <= sorted.len(),
                old_s == sorted@.map_values(|k: ExecKey| key_view(k)),
                forall|q: int| 0 <= q < p ==> entry_le(#[trigger] old_s[q], key_view(k)),
            decreases sorted.len() - p,
        {
            p = p + 1;
        }
        let ghost x = key_view(k);
        sorted.insert(p, k);
        proof {
            let s = sorted@.map_values(|k: ExecKey| key_view(k));
            assert(s =~= old_s.insert(p as int, x));
            vstd::seq_lib::to_multiset_insert(old_s, p as int, x);
            assert(all.take(i + 1) =~= all.take(i as int).push(x));
            vstd::seq_lib::to_multiset_build(all.take(i as int), x);
            if p < old_s.len() {
                assert(!entry_le(old_s[p as int], x));
                assert(entry_leq()(x, old_s[p as int]) || entry_leq()(old_s[p as int], x));
            }
            assert forall|a: int, b: int| 0 <= a < b < s.len() implies #[trigger] entry_leq()(s[a], s[b]) by {
                if b < p {
                    assert(s[a] == old_s[a] && s[b] == old_s[b]);
                    assert(entry_leq()(old_s[a], old_s[b]));
                } else if a > p {
                    assert(s[a] == old_s[a - 1] && s[b] == old_s[b - 1]);
                    assert(entry_leq()(old_s[a - 1], old_s[b - 1]));
                } else if a == p {
                    assert(s[b] == old_s[b - 1]);
                    if b - 1 > p {
                        assert(entry_leq()(old_s[p as int], old_s[b - 1]));
                        assert(entry_leq()(x, old_s[p as int]));
                    }
                } else if b == p {
                    assert(s[a] == old_s[a]);
                    assert(entry_le(old_s[a], x));
                } else {
                    assert(s[a] == old_s[a] && s[b] == old_s[b - 1]);
                    assert(entry_leq()(old_s[a], old_s[b - 1]));
                }
            }
        }
        i = i + 1;
    }
    proof {
        assert(all.take(n as int) =~= all);
        all.lemma_sort_by_ensures(entry_leq());
        vstd::seq_lib::lemma_sorted_unique(
            sorted@.map_values(|k: ExecKey| key_view(k)),
            all.sort_by(entry_leq()),
            entry_leq(),
        );
    }
    let ghost ss = sorted@.map_values(|k: ExecKey| key_view(k));
    assert(ss == all.sort_by(entry_leq()));
    proof {
        assert forall|q: int| 0 <= q < ss.len() implies (#[trigger] ss[q]).3 < names.len() by {
            all.lemma_sort_by_ensures(entry_leq());
            assert(ss.to_multiset() =~= all.to_multiset());
            assert(ss.contains(ss[q]));
            vstd::seq_lib::to_multiset_contains(ss, ss[q]);
            vstd::seq_lib::to_multiset_contains(all, ss[q]);
            assert(all.contains(ss[q]));
        }
    }
    let mut r: Vec<String> = Vec::new();
    let mut j: usize = 0;
    while j < sorted.len()
        invariant
            j <= sorted.len(),
            ss == sorted@.map_values(|k: ExecKey| key_view(k)),
            forall|q: int| 0 <= q < ss.len() ==> (#[trigger] ss[q]).3 < names.len(),
            views(r@) == ss.take(j as int).map_values(|e: SortEntry| views(names@)[e.3 as int]),
        decreases sorted.len() - j,
    {
        assert(ss[j as int].3 == sorted[j as int].index);
        let x = names[sorted[j].index].clone();
        proof { crate::text::lemma_views_push(r@, x); }
        r.push(x);
        assert(views(r@) =~= ss.take(j + 1).map_values(|e: SortEntry| views(names@)[e.3 as int]));
        j = j + 1;
    }
    assert(ss.take(sorted.len() as int) =~= ss);
    r
}


/// `s` without its leading dots, as `trim_start_matches('.')` leaves it.
pub open spec fn trim_start_dots(s: Seq<char>) -> Seq<char>
    decreases s.len(),
{
    if s.len() > 0 && s[0] == '.' {
        trim_start_dots(s.drop_first())
    } else {
        s
    }
}

/// Law of leading dots: the name is some dots followed by what
/// `trim_start_dots` leaves, which does not begin with a dot.
pub proof fn lemma_trim_start_dots(s: Seq<char>)
    ensures
        trim_start_dots(s).len() <= s.len(),
        trim_start_dots(s).len() == 0 || trim_start_dots(s)[0] != '.',
        s.skip(s.len() - trim_start_dots(s).len()) == trim_start_dots(s),
        forall|i: int| 0 <= i < s.len() - trim_start_dots(s).len() ==> s[i] == '.',
    decreases s.len(),
{
    if s.len() > 0 && s[0] == '.' {
        let r = s.drop_first();
        lemma_trim_start_dots(r);
        assert(s.skip(s.len() - trim_start_dots(s).len()) =~= r.skip(r.len() - trim_start_dots(r).len()));
        assert forall|i: int| 0 <= i < s.len() - trim_start_dots(s).len() implies s[i] == '.' by {
            if i > 0 {
                assert(s[i] == r[i - 1]);
            }
        }
    } else {
        assert(s.skip(0) =~= s);
    }
}

/// Whether a name is `.` or `..`.
pub open spec fn is_dot_entry(name: Seq<char>) -> bool {
    name == seq!['.'] || name == seq!['.', '.']
}

/// The sort key of a short listing: `.` and `..` first, ordered by name;
/// then the other names by their lower-case form without leading dots.
pub open spec fn dir_key(name: Seq<char>) -> (u8, Seq<char>, Seq<char>) {
    if is_dot_entry(name) {
        (0u8, name, seq![])
    } else {
        (1u8, lowercase(trim_start_dots(name)), seq![])
    }
}

/// The characters of `s` that are alphanumeric.
pub open spec fn alnum_only(s: Seq<char>) -> Seq<char>
    decreases s.len(),
{
    if s.len() == 0 {
        seq![]
    } else if alphanumeric(s.last()) {
        alnum_only(s.drop_last()).push(s.last())
    } else {
        alnum_only(s.drop_last())
    }
}

/// The sort key of a long listing: the lower-case form of the name's
/// alphanumeric characters, then the name itself.
pub open spec fn long_key(name: Seq<char>) -> (u8, Seq<char>, Seq<char>) {
    (0u8, lowercase(alnum_only(name)), name)
}

/// The characters after the leading dots of a name.
fn without_leading_dots(v: &Vec<char>) -> (r: Vec<char>)
    ensures
        r@ == trim_start_dots(v@),
{
    let mut i: usize = 0;
    assert(v@.skip(0) =~= v@);
    while i < v.len() && v[i] == '.'
        invariant
            i <= v.len(),
            trim_start_dots(v@) == trim_start_dots(v@.skip(i as int)),
        decreases v.len() - i,
    {
        assert(v@.skip(i as int).drop_first() =~= v@.skip(i + 1));
        i = i + 1;
    }
    let mut r: Vec<char> = Vec::new();
    let mut k = i;
    while k < v.len()
        invariant
            i <= k <= v.len(),
            r@ == v@.subrange(i as int, k as int),
        decreases v.len() - k,
    {
        r.push(v[k]);
        assert(v@.subrange(i as int, k + 1) =~= v@.subrange(i as int, k as int).push(v@[k as int]));
        k = k + 1;
    }
    assert(v@.subrange(i as int, v.len() as int) =~= v@.skip(i as int));
    r
}

/// The alphanumeric characters of a name.
fn alnum_chars(v: &Vec<char>) -> (r: Vec<char>)
    ensures
        r@ == alnum_only(v@),
{
    let mut r: Vec<char> = Vec::new();
    let mut i: usize = 0;
    assert(v@.take(0) =~= Seq::<char>::empty());
    while i < v.len()
        invariant
            i <= v.len(),
            r@ == alnum_only(v@.take(i as int)),
        decreases v.len() - i,
    {
        assert(v@.take(i + 1).drop_last() =~= v@.take(i as int));
        if is_alphanumeric(v[i]) {
            r.push(v[i]);
        }
        i = i + 1;
    }
    assert(v@.take(v.len() as int) =~= v@);
    r
}

/// The keys of names for one of the two listing orders.
fn keys_of(names: &Vec<String>, long: bool) -> (r: Vec<(u8, Vec<char>, Vec<char>)>)
    ensures
        r.len() == names.len(),
        forall|q: int| 0 <= q < r.len() ==> ((#[trigger] r@[q]).0, r@[q].1@, r@[q].2@) == (if long {
            long_key(names@[q]@)
        } else {
            dir_key(names@[q]@)
        }),
{
    let mut keys: Vec<(u8, Vec<char>, Vec<char>)> = Vec::new();
    let mut i: usize = 0;
    while i < names.len()
        invariant
            i <= names.len(),
            keys.len() == i,
            forall|q: int| 0 <= q < i ==> ((#[trigger] keys@[q]).0, keys@[q].1@, keys@[q].2@) == (if long {
                long_key(names@[q]@)
            } else {
                dir_key(names@[q]@)
            }),
        decreases names.len() - i,
    {
        let v = chars_of(names[i].as_str());
        if long {
            let a = alnum_chars(&v);
            let lower = to_lowercase(string_from(&a).as_str());
            keys.push((0u8, chars_of(lower.as_str()), v));
        } else {
            let dot = v.len() == 1 && v[0] == '.';
            let dotdot = v.len() == 2 && v[0] == '.' && v[1] == '.';
            proof {
                if dot {
                    assert(v@ =~= seq!['.']);
                }
                if dotdot {
                    assert(v@ =~= seq!['.', '.']);
                }
                if v@ == seq!['.'] {
                    assert(v@.len() == 1 && v@[0] == '.');
                }
                if v@ == seq!['.', '.'] {
                    assert(v@.len() == 2 && v@[0] == '.' && v@[1] == seq!['.', '.'][1]);
                }
            }
            if dot || dotdot {
                keys.push((0u8, v, Vec::new()));
            } else {
                let t = without_leading_dots(&v);
                let lower = to_lowercase(string_from(&t).as_str());
                keys.push((1u8, chars_of(lower.as_str()), Vec::new()));
            }
        }
        i = i + 1;
    }
    keys
}

/// Orders the names of a short listing: `.` and `..` first, then the other
/// names by their lower-case form without leading dots, names with equal
/// keys in the order given.
pub fn sort_dir_names(names: &Vec<String>) -> (r: Vec<String>)
    ensures
        views(r@) == stable_sorted(views(names@), views(names@).map_values(|n: Seq<char>| dir_key(n))),
{
    let keys = keys_of(names, false);
    assert(keys@.map_values(|k: (u8, Vec<char>, Vec<char>)| (k.0, k.1@, k.2@)) =~= views(names@).map_values(
        |n: Seq<char>| dir_key(n),
    ));
    sort_by_keys(names, keys)
}

/// Orders the names of a long listing: by the lower-case form of their
/// alphanumeric characters, then by name, names with equal keys in the
/// order given.
pub fn sort_long_names(names: &Vec<String>) -> (r: Vec<String>)
    ensures
        views(r@) == stable_sorted(views(names@), views(names@).map_values(|n: Seq<char>| long_key(n))),
{
    let keys = keys_of(names, true);
    assert(keys@.map_values(|k: (u8, Vec<char>, Vec<char>)| (k.0, k.1@, k.2@)) =~= views(names@).map_values(
        |n: Seq<char>| long_key(n),
    ));
    sort_by_keys(names, keys)
}


/// The sorted entries carry, each, the key at their own position, and come
/// in order.
proof fn lemma_sorted_entries(keys: Seq<(u8, Seq<char>, Seq<char>)>)
    ensures
        sorted_by(keyed(keys).sort_by(entry_leq()), entry_leq()),
        keyed(keys).sort_by(entry_leq()).len() == keys.len(),
        forall|k: int|
            0 <= k < keyed(keys).sort_by(entry_leq()).len() ==> {
                let e = #[trigger] keyed(keys).sort_by(entry_leq())[k];
                &&& e.3 < keys.len()
                &&& (e.0, e.1, e.2) == keys[e.3 as int]
            },
        keyed(keys).sort_by(entry_leq()).no_duplicates(),
{
    broadcast use vstd::seq_lib::group_to_multiset_ensures;

    let all = keyed(keys);
    let s = all.sort_by(entry_leq());
    lemma_entry_total();
    all.lemma_sort_by_ensures(entry_leq());
    assert(s.len() == all.len()) by {
        assert(s.to_multiset().len() == all.to_multiset().len());
    }
    assert forall|k: int| 0 <= k < s.len() implies {
        let e = #[trigger] s[k];
        &&& e.3 < keys.len()
        &&& (e.0, e.1, e.2) == keys[e.3 as int]
    } by {
        assert(s.to_multiset().count(s[k]) > 0);
        assert(all.contains(s[k]));
        let m = choose|m: int| 0 <= m < all.len() && all[m] == s[k];
        assert(all[m].3 == m);
    }
    assert forall|i: int, j: int| 0 <= i < s.len() && 0 <= j < s.len() && i != j implies s[i] != s[j] by {
        if s[i] == s[j] {
            let e = s[i];
            assert(all[e.3 as int] == e);
            assert(s.to_multiset().count(e) == all.to_multiset().count(e));
            assert(all.no_duplicates()) by {
                assert forall|a: int, b: int| 0 <= a < all.len() && 0 <= b < all.len() && a != b implies all[a]
                    != all[b] by {
                    assert(all[a].3 != all[b].3);
                }
            }
            all.lemma_multiset_has_no_duplicates();
            assert(all.to_multiset().count(e) == 1);
            assert(s.remove(i).to_multiset() == s.to_multiset().remove(s[i]));
            assert(s.remove(i).contains(e)) by {
                if i < j {
                    assert(s.remove(i)[j - 1] == e);
                } else {
                    assert(s.remove(i)[j] == e);
                }
            }
            assert(s.remove(i).to_multiset().count(e) > 0);
        }
    }
}

/// Law of stable ordering: ordering names by keys gives the names in
/// order of their keys (class, then first string, then second string), and
/// names with equal keys in the order they were given. Each name of the
/// result is the name at some position of the input, every position used
/// once, and the keys of the positions never decrease.
pub proof fn lemma_stable_sorted_order(names: Seq<Seq<char>>, keys: Seq<(u8, Seq<char>, Seq<char>)>)
    requires
        keys.len() == names.len(),
    ensures
        ({
            let r = stable_sorted(names, keys);
            let s = keyed(keys).sort_by(entry_leq());
            &&& r.len() == names.len()
            &&& forall|k: int| 0 <= k < r.len() ==> #[trigger] s[k].3 < names.len() && r[k] == names[s[k].3 as int]
            &&& forall|i: int, j: int| 0 <= i < j < r.len() ==> #[trigger] s[i].3 != #[trigger] s[j].3
            &&& forall|i: int, j: int|
                #![trigger s[i], s[j]]
                0 <= i < j < r.len() ==> {
                    let a = keys[s[i].3 as int];
                    let b = keys[s[j].3 as int];
                    ||| a.0 < b.0
                    ||| a.0 == b.0 && a.1 != b.1 && lex_le(a.1, b.1)
                    ||| a.0 == b.0 && a.1 == b.1 && a.2 != b.2 && lex_le(a.2, b.2)
                    ||| a == b && s[i].3 < s[j].3
                }
        }),
{
    lemma_sorted_entries(keys);
    let s = keyed(keys).sort_by(entry_leq());
    assert forall|i: int, j: int| 0 <= i < j < s.len() implies #[trigger] s[i].3 != #[trigger] s[j].3 by {
        assert(s[i] != s[j]);
        assert((s[i].0, s[i].1, s[i].2) == keys[s[i].3 as int]);
        assert((s[j].0, s[j].1, s[j].2) == keys[s[j].3 as int]);
    }
    assert forall|i: int, j: int| #![trigger s[i], s[j]] 0 <= i < j < s.len() implies {
        let a = keys[s[i].3 as int];
        let b = keys[s[j].3 as int];
        ||| a.0 < b.0
        ||| a.0 == b.0 && a.1 != b.1 && lex_le(a.1, b.1)
        ||| a.0 == b.0 && a.1 == b.1 && a.2 != b.2 && lex_le(a.2, b.2)
        ||| a == b && s[i].3 < s[j].3
    } by {
        assert(entry_leq()(s[i], s[j]));
        assert((s[i].0, s[i].1, s[i].2) == keys[s[i].3 as int]);
        assert((s[j].0, s[j].1, s[j].2) == keys[s[j].3 as int]);
        assert(s[i] != s[j]);
    }
}

/// Law of the short listing order: `.` and `..` come before every other
/// name, and the other names come in order of their lower-case form without
/// leading dots, the whole of it compared.
pub proof fn lemma_dir_order(names: Seq<Seq<char>>)
    ensures
        ({
            let r = stable_sorted(names, names.map_values(|n: Seq<char>| dir_key(n)));
            forall|i: int, j: int|
                0 <= i < j < r.len() ==> {
                    &&& (r[j] == seq!['.'] || r[j] == seq!['.', '.']) ==> (r[i] == seq!['.'] || r[i] == seq![
                        '.',
                        '.',
                    ])
                    &&& (r[i] != seq!['.'] && r[i] != seq!['.', '.'] && r[j] != seq!['.'] && r[j] != seq![
                        '.',
                        '.',
                    ]) ==> lex_le(lowercase(trim_start_dots(r[i])), lowercase(trim_start_dots(r[j])))
                }
        }),
{
    let keys = names.map_values(|n: Seq<char>| dir_key(n));
    lemma_stable_sorted_order(names, keys);
    let r = stable_sorted(names, keys);
    let s = keyed(keys).sort_by(entry_leq());
    assert forall|i: int, j: int| 0 <= i < j < r.len() implies {
        &&& (r[j] == seq!['.'] || r[j] == seq!['.', '.']) ==> (r[i] == seq!['.'] || r[i] == seq!['.', '.'])
        &&& (r[i] != seq!['.'] && r[i] != seq!['.', '.'] && r[j] != seq!['.'] && r[j] != seq!['.', '.'])
            ==> lex_le(lowercase(trim_start_dots(r[i])), lowercase(trim_start_dots(r[j])))
    } by {
        assert(s[i].3 < names.len() && r[i] == names[s[i].3 as int]);
        assert(s[j].3 < names.len() && r[j] == names[s[j].3 as int]);
        assert(keys[s[i].3 as int] == dir_key(r[i]));
        assert(keys[s[j].3 as int] == dir_key(r[j]));
        lemma_lex_refl(lowercase(trim_start_dots(r[i])));
    }
}

/// Law of the long listing order: names come in order of the lower-case
/// form of their alphanumeric characters, and names with equal forms in
/// order of the names themselves.
pub proof fn lemma_long_order(names: Seq<Seq<char>>)
    ensures
        ({
            let r = stable_sorted(names, names.map_values(|n: Seq<char>| long_key(n)));
            forall|i: int, j: int|
                0 <= i < j < r.len() ==> {
                    &&& lex_le(lowercase(alnum_only(r[i])), lowercase(alnum_only(r[j])))
                    &&& lowercase(alnum_only(r[i])) == lowercase(alnum_only(r[j])) ==> lex_le(r[i], r[j])
                }
        }),
{
    let keys = names.map_values(|n: Seq<char>| long_key(n));
    lemma_stable_sorted_order(names, keys);
    let r = stable_sorted(names, keys);
    let s = keyed(keys).sort_by(entry_leq());
    assert forall|i: int, j: int| 0 <= i < j < r.len() implies {
        &&& lex_le(lowercase(alnum_only(r[i])), lowercase(alnum_only(r[j])))
        &&& lowercase(alnum_only(r[i])) == lowercase(alnum_only(r[j])) ==> lex_le(r[i], r[j])
    } by {
        assert(s[i].3 < names.len() && r[i] == names[s[i].3 as int]);
        assert(s[j].3 < names.len() && r[j] == names[s[j].3 as int]);
        assert(keys[s[i].3 as int] == long_key(r[i]));
        assert(keys[s[j].3 as int] == long_key(r[j]));
        lemma_lex_refl(lowercase(alnum_only(r[i])));
        lemma_lex_refl(r[i]);
    }
}

} // verus!
