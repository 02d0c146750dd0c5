//! Character-level text utilities shared by the shell's parsers and formatters.
//!
//! Strings are modelled by their views, `Seq<char>`.
use vstd::prelude::*;

verus! {

// ───────────────────────────── conversions ─────────────────────────────

/// The characters of `s`, in order.
pub fn chars_of(s: &str) -> (v: Vec<char>)
    ensures
        v@ == s@,
{
    let mut v: Vec<char> = Vec::new();
    for c in it: s.chars()
        invariant
            v@ == it.seq().take(it.index() as int),
    {
        v.push(c);
    }
    v
}

/// Appends one character to a string.
/// Calls `String::push`, which appends `c` to the end of `s`.
#[verifier::external_body]
pub(crate) fn push_char(s: &mut String, c: char)
    ensures
        final(s)@ == old(s)@.push(c),
{
    s.push(c);
}

/// A string holding the characters of `v`.
pub fn string_from(v: &Vec<char>) -> (s: String)
    ensures
        s@ == v@,
{
    let mut s = String::new();
    let mut i: usize = 0;
    while i < v.len()
        invariant
            i <= v.len(),
            s@ == v@.take(i as int),
        decreases v.len() - i,
    {
        push_char(&mut s, v[i]);
        assert(v@.take(i as int).push(v@[i as int]) =~= v@.take(i + 1));
        i = i + 1;
    }
    assert(v@.take(v.len() as int) =~= v@);
    s
}

/// The views of a sequence of strings.
pub open spec fn views(v: Seq<String>) -> Seq<Seq<char>> {
    v.map_values(|s: String| s@)
}

/// Appending a string appends its view.
pub proof fn lemma_views_push(s: Seq<String>, x: String)
    ensures
        views(s.push(x)) == views(s).push(x@),
{
    assert(views(s.push(x)) =~= views(s).push(x@));
}

/// An element of a sequence with one more element is that element or one
/// of the others.
pub proof fn lemma_contains_push<A>(s: Seq<A>, x: A, n: A)
    ensures
        s.push(x).contains(n) == (s.contains(n) || n == x),
{
    if s.contains(n) {
        let k = choose|k: int| 0 <= k < s.len() && s[k] == n;
        assert(s.push(x)[k] == n);
    }
    if n == x {
        assert(s.push(x)[s.len() as int] == n);
    }
    if s.push(x).contains(n) {
        let k = choose|k: int| 0 <= k < s.len() + 1 && s.push(x)[k] == n;
        if k < s.len() {
            assert(s[k] == n);
        }
    }
}

// ───────────────────────────── whitespace ─────────────────────────────

/// Unicode `White_Space`: the characters that `char::is_whitespace` accepts.
pub open spec fn is_ws(c: char) -> bool {
    let u = c as u32;
    ||| 0x09 <= u <= 0x0d
    ||| u == 0x20
    ||| u == 0x85
    ||| u == 0xa0
    ||| u == 0x1680
    ||| 0x2000 <= u <= 0x200a
    ||| u == 0x2028
    ||| u == 0x2029
    ||| u == 0x202f
    ||| u == 0x205f
    ||| u == 0x3000
}

/// ASCII whitespace as `u8::is_ascii_whitespace` defines it:
/// space, tab, line feed, form feed and carriage return.
pub open spec fn is_ascii_ws(c: char) -> bool {
    c == ' ' || c == '\t' || c == '\n' || c == '\x0C' || c == '\r'
}

/// Whether `c` is Unicode white space.
pub fn is_whitespace(c: char) -> (r: bool)
    ensures
        r == is_ws(c),
{
    let u = c as u32;
    (0x09 <= u && u <= 0x0d) || u == 0x20 || u == 0x85 || u == 0xa0 || u == 0x1680 || (0x2000 <= u
        && u <= 0x200a) || u == 0x2028 || u == 0x2029 || u == 0x202f || u == 0x205f || u == 0x3000
}

/// Whether `c` is ASCII white space.
pub fn is_ascii_whitespace(c: char) -> (r: bool)
    ensures
        r == is_ascii_ws(c),
{
    c == ' ' || c == '\t' || c == '\n' || c == '\x0C' || c == '\r'
}

/// `s` without its leading white space.
pub open spec fn trim_start(s: Seq<char>) -> Seq<char>
    decreases s.len(),
{
    if s.len() > 0 && is_ws(s[0]) {
        trim_start(s.drop_first())
    } else {
        s
    }
}

/// `s` without its trailing white space.
pub open spec fn trim_end(s: Seq<char>) -> Seq<char>
    decreases s.len(),
{
    if s.len() > 0 && is_ws(s.last()) {
        trim_end(s.drop_last())
    } else {
        s
    }
}

/// Dropping leading white space keeps every other character.
proof fn lemma_trim_start_keeps(s: Seq<char>)
    ensures
        (exists|i: int| 0 <= i < s.len() && !is_ws(#[trigger] s[i])) <==> (exists|i: int|
            0 <= i < trim_start(s).len() && !is_ws(#[trigger] trim_start(s)[i])),
    decreases s.len(),
{
    let ts = trim_start(s);
    if s.len() > 0 && is_ws(s[0]) {
        let r = s.drop_first();
        lemma_trim_start_keeps(r);
        assert(ts == trim_start(r));
        if exists|i: int| 0 <= i < s.len() && !is_ws(#[trigger] s[i]) {
            let i = choose|i: int| 0 <= i < s.len() && !is_ws(#[trigger] s[i]);
            assert(i > 0);
            assert(r[i - 1] == s[i]);
            assert(!is_ws(r[i - 1]));
            let j = choose|j: int| 0 <= j < trim_start(r).len() && !is_ws(#[trigger] trim_start(r)[j]);
            assert(!is_ws(ts[j]));
        }
        if exists|i: int| 0 <= i < ts.len() && !is_ws(#[trigger] ts[i]) {
            let i = choose|i: int| 0 <= i < ts.len() && !is_ws(#[trigger] ts[i]);
            assert(!is_ws(trim_start(r)[i]));
            let j = choose|j: int| 0 <= j < r.len() && !is_ws(#[trigger] r[j]);
            assert(s[j + 1] == r[j]);
            assert(!is_ws(s[j + 1]));
        }
    } else {
        assert(ts == s);
    }
}

/// Dropping trailing white space leaves something exactly when there is a
/// character other than white space.
proof fn lemma_trim_end_nonempty(s: Seq<char>)
    ensures
        trim_end(s).len() > 0 <==> (exists|i: int| 0 <= i < s.len() && !is_ws(#[trigger] s[i])),
    decreases s.len(),
{
    if s.len() > 0 && is_ws(s.last()) {
        let r = s.drop_last();
        lemma_trim_end_nonempty(r);
        if exists|i: int| 0 <= i < s.len() && !is_ws(#[trigger] s[i]) {
            let i = choose|i: int| 0 <= i < s.len() && !is_ws(#[trigger] s[i]);
            assert(i < s.len() - 1);
            assert(r[i] == s[i]);
        }
        if exists|i: int| 0 <= i < r.len() && !is_ws(#[trigger] r[i]) {
            let i = choose|i: int| 0 <= i < r.len() && !is_ws(#[trigger] r[i]);
            assert(s[i] == r[i]);
        }
    } else if s.len() > 0 {
        assert(!is_ws(s[s.len() - 1]));
    }
}

/// Trimming leaves something exactly when the string holds a character
/// other than white space.
pub proof fn lemma_trim_nonempty(s: Seq<char>)
    ensures
        trim(s).len() > 0 <==> (exists|i: int| 0 <= i < s.len() && !is_ws(#[trigger] s[i])),
{
    lemma_trim_start_keeps(s);
    lemma_trim_end_nonempty(trim_start(s));
}

/// `s` without leading and trailing white space, as `str::trim` gives it.
pub open spec fn trim(s: Seq<char>) -> Seq<char> {
    trim_end(trim_start(s))
}

/// Removes leading and trailing white space.
pub fn trim_chars(s: &Vec<char>) -> (r: Vec<char>)
    ensures
        r@ == trim(s@),
{
    let n = s.len();
    let mut i: usize = 0;
    assert(s@.subrange(0, n as int) =~= s@);
    while i < n && is_whitespace(s[i])
        invariant
            i <= n == s.len(),
            trim_start(s@) == trim_start(s@.subrange(i as int, n as int)),
        decreases n - i,
    {
        assert(s@.subrange(i as int, n as int).drop_first() =~= s@.subrange(i + 1, n as int));
        i = i + 1;
    }
    let ghost t = s@.subrange(i as int, n as int);
    assert(trim_start(t) == t);
    let mut j: usize = n;
    while j > i && is_whitespace(s[j - 1])
        invariant
            i <= j <= n == s.len(),
            t == s@.subrange(i as int, n as int),
            trim_end(t) == trim_end(s@.subrange(i as int, j as int)),
        decreases j,
    {
        assert(s@.subrange(i as int, j as int).drop_last() =~= s@.subrange(i as int, j - 1));
        j = j - 1;
    }
    let mut r: Vec<char> = Vec::new();
    let mut k: usize = i;
    while k < j
        invariant
            i <= k <= j <= n == s.len(),
            r@ == s@.subrange(i as int, k as int),
        decreases j - k,
    {
        r.push(s[k]);
        assert(s@.subrange(i as int, k as int).push(s@[k as int]) =~= s@.subrange(
            i as int,
            k + 1,
        ));
        k = k + 1;
    }
    r
}

// ───────────────────────────── replacing ─────────────────────────────

/// What one character of a sanitised string becomes: a line feed turns into
/// the two characters `\` and `n`, anything else stays.
pub open spec fn sanitize_char(c: char) -> Seq<char> {
    if c == '\n' {
        seq!['\\', 'n']
    } else {
        seq![c]
    }
}

/// `s` with each line feed replaced by `\n` written out, as
/// `s.replace('\n', "\\n")` gives it.
pub open spec fn sanitize(s: Seq<char>) -> Seq<char>
    decreases s.len(),
{
    if s.len() == 0 {
        seq![]
    } else {
        sanitize_char(s[0]) + sanitize(s.drop_first())
    }
}

/// Law of sanitising: the result holds no line feed, and a string without
/// line feeds is left as it is.
pub proof fn lemma_sanitize_no_newline(s: Seq<char>)
    ensures
        forall|i: int| 0 <= i < sanitize(s).len() ==> #[trigger] sanitize(s)[i] != '\n',
        (forall|i: int| 0 <= i < s.len() ==> s[i] != '\n') ==> sanitize(s) == s,
    decreases s.len(),
{
    if s.len() > 0 {
        let r = s.drop_first();
        lemma_sanitize_no_newline(r);
        let h = sanitize_char(s[0]);
        let x = sanitize(r);
        assert(sanitize(s) == h + x);
        assert forall|i: int| 0 <= i < (h + x).len() implies #[trigger] (h + x)[i] != '\n' by {
            if i >= h.len() {
                assert((h + x)[i] == x[i - h.len()]);
            }
        }
        if forall|i: int| 0 <= i < s.len() ==> s[i] != '\n' {
            assert forall|i: int| 0 <= i < r.len() implies r[i] != '\n' by {
                assert(r[i] == s[i + 1]);
            }
            assert(s[0] != '\n');
            assert(h + x =~= s);
        }
    }
}

/// Replaces each line feed by the two characters `\n`.
pub fn sanitize_string(s: &String) -> (r: String)
    ensures
        r@ == sanitize(s@),
{
    let v = chars_of(s.as_str());
    let n = v.len();
    let mut out: Vec<char> = Vec::new();
    let mut i: usize = 0;
    assert(v@.skip(0) =~= v@);
    assert(out@ + v@ =~= v@);
    while i < n
        invariant
            i <= n == v.len(),
            out@ + sanitize(v@.skip(i as int)) == sanitize(v@),
        decreases n - i,
    {
        assert(v@.skip(i as int).drop_first() =~= v@.skip(i + 1));
        if v[i] == '\n' {
            out.push('\\');
            out.push('n');
        } else {
            out.push(v[i]);
        }
        assert(out@ + sanitize(v@.skip(i + 1)) =~= sanitize(v@)) by {
            assert(out@ =~= (out@.take(out@.len() - sanitize_char(v@[i as int]).len())) + sanitize_char(v@[i as int]));
        };
        i = i + 1;
    }
    assert(v@.skip(n as int) =~= Seq::<char>::empty());
    assert(out@ =~= sanitize(v@));
    string_from(&out)
}

/// `s` with each written-out `\n` (a backslash followed by `n`) replaced by a
/// line feed, scanning from the left, as `s.replace("\\n", "\n")` gives it.
pub open spec fn unescape_newlines(s: Seq<char>) -> Seq<char>
    decreases s.len(),
{
    if s.len() == 0 {
        seq![]
    } else if s.len() >= 2 && s[0] == '\\' && s[1] == 'n' {
        seq!['\n'] + unescape_newlines(s.skip(2))
    } else {
        seq![s[0]] + unescape_newlines(s.drop_first())
    }
}

/// Replaces each written-out `\n` by a line feed.
pub fn unescape_newlines_string(s: &String) -> (r: String)
    ensures
        r@ == unescape_newlines(s@),
{
    let v = chars_of(s.as_str());
    let n = v.len();
    let mut out: Vec<char> = Vec::new();
    let mut i: usize = 0;
    assert(v@.skip(0) =~= v@);
    assert(out@ + v@ =~= v@);
    while i < n
        invariant
            i <= n == v.len(),
            out@ + unescape_newlines(v@.skip(i as int)) == unescape_newlines(v@),
        decreases n - i,
    {
        let ghost rest = v@.skip(i as int);
        if i + 1 < n && v[i] == '\\' && v[i + 1] == 'n' {
            assert(rest.skip(2) =~= v@.skip(i + 2));
            out.push('\n');
            assert(out@ + unescape_newlines(v@.skip(i + 2)) =~= unescape_newlines(v@));
            i = i + 2;
        } else {
            assert(rest.drop_first() =~= v@.skip(i + 1));
            out.push(v[i]);
            assert(out@ + unescape_newlines(v@.skip(i + 1)) =~= unescape_newlines(v@));
            i = i + 1;
        }
    }
    assert(v@.skip(n as int) =~= Seq::<char>::empty());
    assert(out@ =~= unescape_newlines(v@));
    string_from(&out)
}

/// Turning written-out `\n` back into line feeds undoes the sanitising of a
/// string that holds no backslash.
pub proof fn lemma_unescape_sanitize(s: Seq<char>)
    requires
        forall|i: int| 0 <= i < s.len() ==> s[i] != '\\',
    ensures
        unescape_newlines(sanitize(s)) == s,
    decreases s.len(),
{
    if s.len() > 0 {
        let rest = s.drop_first();
        assert forall|i: int| 0 <= i < rest.len() implies rest[i] != '\\' by {
            assert(rest[i] == s[i + 1]);
        }
        lemma_unescape_sanitize(rest);
        let x = sanitize(rest);
        if s[0] == '\n' {
            let y = seq!['\\', 'n'] + x;
            assert(y.skip(2) =~= x);
            assert(unescape_newlines(y) == seq!['\n'] + unescape_newlines(x));
        } else {
            let y = seq![s[0]] + x;
            assert(y.drop_first() =~= x);
            assert(unescape_newlines(y) == seq![s[0]] + unescape_newlines(x));
        }
        assert(seq![s[0]] + rest =~= s);
    }
}

// ───────────────────────────── prefixes and words ─────────────────────────────

/// Whether `s` begins with `p`.
pub open spec fn starts_with(s: Seq<char>, p: Seq<char>) -> bool {
    p.len() <= s.len() && s.take(p.len() as int) == p
}

/// Whether `s` begins with `p`.
pub fn chars_start_with(s: &Vec<char>, p: &Vec<char>) -> (r: bool)
    ensures
        r == starts_with(s@, p@),
{
    if p.len() > s.len() {
        return false;
    }
    let mut i: usize = 0;
    while i < p.len()
        invariant
            i <= p.len() <= s.len(),
            s@.take(i as int) == p@.take(i as int),
        decreases p.len() - i,
    {
        if s[i] != p[i] {
            assert(s@.take(p.len() as int)[i as int] != p@[i as int]);
            return false;
        }
        assert(s@.take(i + 1) =~= s@.take(i as int).push(s@[i as int]));
        assert(p@.take(i + 1) =~= p@.take(i as int).push(p@[i as int]));
        i = i + 1;
    }
    assert(p@.take(p.len() as int) =~= p@);
    true
}

/// The parts of `parts` joined with `sep` between each two.
pub open spec fn join(parts: Seq<Seq<char>>, sep: Seq<char>) -> Seq<char>
    decreases parts.len(),
{
    if parts.len() == 0 {
        seq![]
    } else if parts.len() == 1 {
        parts[0]
    } else {
        join(parts.drop_last(), sep) + sep + parts.last()
    }
}

/// Joins strings with a separator, as `[String]::join` does.
pub fn join_strings(parts: &Vec<String>, sep: &str) -> (r: String)
    ensures
        r@ == join(views(parts@), sep@),
{
    let mut r = String::new();
    let mut i: usize = 0;
    assert(views(parts@).take(0) =~= Seq::<Seq<char>>::empty());
    while i < parts.len()
        invariant
            i <= parts.len(),
            r@ == join(views(parts@).take(i as int), sep@),
        decreases parts.len() - i,
    {
        let ghost t = views(parts@).take(i + 1);
        assert(t.drop_last() =~= views(parts@).take(i as int));
        if i > 0 {
            r.append(sep);
        }
        r.append(parts[i].as_str());
        proof {
            if i == 0 {
                assert(r@ =~= t[0]);
            }
        }
        i = i + 1;
    }
    assert(views(parts@).take(parts.len() as int) =~= views(parts@));
    r
}

/// `s` cut at each occurrence of `sep`, as `str::split` with a character
/// pattern cuts it: the empty string gives one empty part.
pub open spec fn split_on(s: Seq<char>, sep: char) -> Seq<Seq<char>>
    decreases s.len(),
{
    if s.len() == 0 {
        seq![seq![]]
    } else {
        let p = split_on(s.drop_last(), sep);
        if s.last() == sep {
            p.push(seq![])
        } else {
            p.update(p.len() - 1, p.last().push(s.last()))
        }
    }
}

pub proof fn lemma_split_nonempty(s: Seq<char>, sep: char)
    ensures
        split_on(s, sep).len() > 0,
    decreases s.len(),
{
    if s.len() > 0 {
        lemma_split_nonempty(s.drop_last(), sep);
    }
}

/// Whether `s` holds the character `c`.
pub open spec fn has_char(s: Seq<char>, c: char) -> bool {
    exists|i: int| 0 <= i < s.len() && s[i] == c
}

/// No part of a split holds the separator.
pub proof fn lemma_split_parts_free(s: Seq<char>, sep: char)
    ensures
        forall|k: int| 0 <= k < split_on(s, sep).len() ==> !has_char(#[trigger] split_on(s, sep)[k], sep),
    decreases s.len(),
{
    if s.len() > 0 {
        let q = s.drop_last();
        lemma_split_parts_free(q, sep);
        lemma_split_nonempty(q, sep);
        let p = split_on(q, sep);
        let r = split_on(s, sep);
        assert forall|k: int| 0 <= k < r.len() implies !has_char(#[trigger] r[k], sep) by {
            if s.last() == sep {
                if k < p.len() {
                    assert(r[k] == p[k]);
                } else {
                    assert(r[k] =~= Seq::<char>::empty());
                }
            } else if k < p.len() - 1 {
                assert(r[k] == p[k]);
            } else {
                let w = p.last().push(s.last());
                assert(r[k] == w);
                assert(!has_char(p[p.len() - 1], sep));
                if has_char(w, sep) {
                    let i = choose|i: int| 0 <= i < w.len() && w[i] == sep;
                    assert(i < p.last().len());
                    assert(p[p.len() - 1][i] == sep);
                }
            }
        }
    } else {
        assert(split_on(s, sep)[0] =~= Seq::<char>::empty());
    }
}

/// Splitting a string without the separator gives the string itself.
proof fn lemma_split_single(s: Seq<char>, sep: char)
    requires
        !has_char(s, sep),
    ensures
        split_on(s, sep) == seq![s],
    decreases s.len(),
{
    if s.len() > 0 {
        let q = s.drop_last();
        assert(!has_char(q, sep)) by {
            if has_char(q, sep) {
                let i = choose|i: int| 0 <= i < q.len() && q[i] == sep;
                assert(s[i] == sep);
            }
        }
        lemma_split_single(q, sep);
        assert(s.last() != sep) by {
            assert(s[s.len() - 1] == s.last());
        }
        let p = split_on(q, sep);
        assert(p.len() == 1 && p.last() == q);
        assert(q.push(s.last()) =~= s);
        assert(split_on(s, sep) == p.update(0, q.push(s.last())));
        assert(split_on(s, sep) =~= seq![s]);
    } else {
        assert(s =~= Seq::<char>::empty());
        assert(split_on(s, sep) =~= seq![s]);
    }
}

/// Splitting at a separator between two strings splits each of them.
proof fn lemma_split_append(x: Seq<char>, y: Seq<char>, sep: char)
    ensures
        split_on(x + seq![sep] + y, sep) == split_on(x, sep) + split_on(y, sep),
    decreases y.len(),
{
    let s = x + seq![sep] + y;
    if y.len() == 0 {
        assert(s.drop_last() =~= x);
        assert(split_on(s, sep) =~= split_on(x, sep) + split_on(y, sep));
    } else {
        let y1 = y.drop_last();
        lemma_split_append(x, y1, sep);
        lemma_split_nonempty(y1, sep);
        assert(s.drop_last() =~= x + seq![sep] + y1);
        assert(s.last() == y.last());
        assert(split_on(s, sep) =~= split_on(x, sep) + split_on(y, sep));
    }
}

/// Law: splitting parts joined with the separator gives back the parts,
/// when no part holds the separator.
pub proof fn lemma_split_join(parts: Seq<Seq<char>>, sep: char)
    requires
        parts.len() > 0,
        forall|k: int| 0 <= k < parts.len() ==> !has_char(#[trigger] parts[k], sep),
    ensures
        split_on(join(parts, seq![sep]), sep) == parts,
    decreases parts.len(),
{
    if parts.len() == 1 {
        lemma_split_single(parts[0], sep);
        assert(seq![parts[0]] =~= parts);
    } else {
        let pre = parts.drop_last();
        assert forall|k: int| 0 <= k < pre.len() implies !has_char(#[trigger] pre[k], sep) by {
            assert(pre[k] == parts[k]);
        }
        lemma_split_join(pre, sep);
        assert(!has_char(parts[parts.len() - 1], sep));
        lemma_split_single(parts.last(), sep);
        lemma_split_append(join(pre, seq![sep]), parts.last(), sep);
        assert(pre + seq![parts.last()] =~= parts);
    }
}

/// Law: joining the parts of a split with the separator gives back the string.
pub proof fn lemma_join_split(s: Seq<char>, sep: char)
    ensures
        join(split_on(s, sep), seq![sep]) == s,
    decreases s.len(),
{
    if s.len() > 0 {
        let q = s.drop_last();
        lemma_join_split(q, sep);
        lemma_split_nonempty(q, sep);
        let p = split_on(q, sep);
        if s.last() == sep {
            assert(p.push(seq![]).drop_last() =~= p);
            assert(join(p.push(seq![]), seq![sep]) =~= s);
        } else {
            let u = p.update(p.len() - 1, p.last().push(s.last()));
            if p.len() == 1 {
                assert(join(p, seq![sep]) == p[0]);
                assert(join(u, seq![sep]) =~= s);
            } else {
                assert(u.drop_last() =~= p.drop_last());
                assert(join(p, seq![sep]) == join(p.drop_last(), seq![sep]) + seq![sep] + p.last());
                assert(u.last() == p.last().push(s.last()));
                assert(join(u, seq![sep]) == join(u.drop_last(), seq![sep]) + seq![sep] + u.last());
                assert(s =~= q.push(s.last()));
                assert(join(u, seq![sep]) =~= s);
            }
        }
    } else {
        assert(join(seq![seq![]], seq![sep]) =~= s);
    }
}

/// Splits a string at each occurrence of `sep`.
pub fn split_string(s: &str, sep: char) -> (r: Vec<String>)
    ensures
        views(r@) == split_on(s@, sep),
{
    let v = chars_of(s);
    let mut parts: Vec<String> = Vec::new();
    let mut cur = String::new();
    let mut i: usize = 0;
    assert(v@.take(0) =~= Seq::<char>::empty());
    while i < v.len()
        invariant
            i <= v.len(),
            views(parts@).push(cur@) == split_on(v@.take(i as int), sep),
        decreases v.len() - i,
    {
        let ghost t = v@.take(i + 1);
        assert(t.drop_last() =~= v@.take(i as int));
        let ghost before = views(parts@);
        if v[i] == sep {
            parts.push(cur);
            cur = String::new();
            assert(views(parts@).push(cur@) =~= split_on(t, sep));
        } else {
            push_char(&mut cur, v[i]);
            assert(views(parts@).push(cur@) =~= split_on(t, sep));
        }
        i = i + 1;
    }
    assert(v@.take(v.len() as int) =~= v@);
    parts.push(cur);
    assert(views(parts@) =~= split_on(v@, sep));
    parts
}


// ───────────────────────────── substrings ─────────────────────────────

/// Whether `needle` occurs in `hay` as a contiguous substring (the empty
/// string occurs in every string).
pub open spec fn contains_sub(hay: Seq<char>, needle: Seq<char>) -> bool {
    exists|i: int| 0 <= i && i + needle.len() <= hay.len() && #[trigger] hay.subrange(i, i + needle.len()) == needle
}

/// Whether `needle` occurs in `hay` at position `i`.
fn occurs_at(hay: &Vec<char>, needle: &Vec<char>, i: usize) -> (r: bool)
    requires
        i + needle.len() <= hay.len(),
    ensures
        r == (hay@.subrange(i as int, i + needle.len()) == needle@),
{
    let mut k: usize = 0;
    while k < needle.len()
        invariant
            k <= needle.len(),
            i + needle.len() <= hay.len(),
            hay@.subrange(i as int, i + k) == needle@.take(k as int),
        decreases needle.len() - k,
    {
        if hay[i + k] != needle[k] {
            assert(hay@.subrange(i as int, i + needle.len())[k as int] != needle@[k as int]);
            return false;
        }
        assert(hay@.subrange(i as int, i + k + 1) =~= hay@.subrange(i as int, i + k).push(hay@[i + k]));
        assert(needle@.take(k + 1) =~= needle@.take(k as int).push(needle@[k as int]));
        k = k + 1;
    }
    assert(needle@.take(needle.len() as int) =~= needle@);
    true
}

/// Whether `needle` occurs in `hay`.
pub fn chars_contain(hay: &Vec<char>, needle: &Vec<char>) -> (r: bool)
    ensures
        r == contains_sub(hay@, needle@),
{
    if needle.len() == 0 {
        assert(hay@.subrange(0, 0 + needle@.len() as int) =~= needle@);
        return true;
    }
    if needle.len() > hay.len() {
        return false;
    }
    let mut i: usize = 0;
    while i <= hay.len() - needle.len()
        invariant
            1 <= needle.len() <= hay.len(),
            i <= hay.len() - needle.len() + 1,
            forall|k: int| 0 <= k < i ==> #[trigger] hay@.subrange(k, k + needle.len()) != needle@,
        decreases hay.len() - i,
    {
        if occurs_at(hay, needle, i) {
            return true;
        }
        i = i + 1;
    }
    false
}


// ───────────────────────────── numbers ─────────────────────────────

/// The character of a decimal digit.
pub open spec fn digit_char(d: nat) -> char {
    ((48 + d) as u8) as char
}

/// The decimal representation of `n`, without leading zeros.
pub open spec fn decimal(n: nat) -> Seq<char>
    decreases n,
{
    if n < 10 {
        seq![digit_char(n)]
    } else {
        decimal(n / 10).push(digit_char(n % 10))
    }
}

/// The number that decimal digits stand for.
pub open spec fn digits_value(s: Seq<char>) -> int
    decreases s.len(),
{
    if s.len() == 0 {
        0
    } else {
        digits_value(s.drop_last()) * 10 + ((s.last() as u32) - 48)
    }
}

/// Law of decimal numbers: the text is made of the digits `0` to `9`, read
/// back it gives the number, and it has no leading zero (except `0` itself).
pub proof fn lemma_decimal_reads_back(n: nat)
    ensures
        decimal(n).len() > 0,
        forall|i: int| 0 <= i < decimal(n).len() ==> '0' <= #[trigger] decimal(n)[i] <= '9',
        digits_value(decimal(n)) == n,
        decimal(n)[0] == '0' ==> n == 0,
    decreases n,
{
    if n >= 10 {
        lemma_decimal_reads_back(n / 10);
        let d = decimal(n / 10);
        let r = d.push(digit_char(n % 10));
        assert(r.drop_last() =~= d);
        assert(((48 + n % 10) as u8) as u32 == 48 + n % 10);
        assert forall|i: int| 0 <= i < r.len() implies '0' <= #[trigger] r[i] <= '9' by {
            if i < d.len() {
                assert(r[i] == d[i]);
            }
        }
        assert(r[0] == d[0]);
        assert(n / 10 > 0);
        assert((r.last() as u32) - 48 == n % 10);
        assert(digits_value(r) == digits_value(d) * 10 + (n % 10));
        assert((n / 10) * 10 + n % 10 == n);
    } else {
        let r = seq![digit_char(n)];
        assert(((48 + n) as u8) as u32 == 48 + n);
        assert(r.drop_last() =~= Seq::<char>::empty());
        assert((r.last() as u32) - 48 == n);
        assert(digits_value(r) == digits_value(r.drop_last()) * 10 + n);
    }
}

/// Writes `n` in decimal, as `n.to_string()` does.
pub fn u64_to_decimal(n: u64) -> (r: String)
    ensures
        r@ == decimal(n as nat),
{
    let mut m = n;
    let mut out: Vec<char> = Vec::new();
    assert(decimal(n as nat) =~= decimal(m as nat) + out@);
    while m >= 10
        invariant
            decimal(n as nat) == decimal(m as nat) + out@,
        decreases m,
    {
        let d = (m % 10) as u8;
        let c = (48u8 + d) as char;
        assert(c == digit_char((m % 10) as nat));
        assert(decimal(m as nat) == decimal((m / 10) as nat).push(c));
        let ghost before = out@;
        out.insert(0, c);
        assert(out@ =~= seq![c] + before);
        assert(decimal((m / 10) as nat) + out@ =~= decimal((m / 10) as nat).push(c) + before);
        m = m / 10;
    }
    let c = (48u8 + (m as u8)) as char;
    let ghost before = out@;
    out.insert(0, c);
    assert(out@ =~= seq![c] + before);
    let v = out;
    assert(v@ =~= decimal(n as nat));
    string_from(&v)
}

} // verus!
