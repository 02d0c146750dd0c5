//! Command history: recording entries and the reverse incremental search.
use vstd::prelude::*;
use crate::text::{
    chars_contain, chars_of, contains_sub, lemma_views_push, push_char, trim, trim_chars, views,
};

verus! {

/// Appends `entry` to the history unless it repeats the most recent entry.
/// Returns whether it was appended: then the caller also saves it to the
/// history file.
pub fn push_history(history: &mut Vec<String>, entry: String) -> (pushed: bool)
    ensures
        pushed == (old(history)@.len() == 0 || old(history)@.last()@ != entry@),
        pushed ==> views(final(history)@) == views(old(history)@).push(entry@),
        !pushed ==> final(history)@ == old(history)@,
{
    let n = history.len();
    if n == 0 || !(history[n - 1] == entry) {
        proof { lemma_views_push(history@, entry); }
        history.push(entry);
        true
    } else {
        false
    }
}

/// The lines of a history file that are entries: the non-blank ones.
pub open spec fn non_blank(lines: Seq<Seq<char>>) -> Seq<Seq<char>>
    decreases lines.len(),
{
    if lines.len() == 0 {
        seq![]
    } else if trim(lines.last()).len() > 0 {
        non_blank(lines.drop_last()).push(lines.last())
    } else {
        non_blank(lines.drop_last())
    }
}

/// No line that `non_blank` keeps is blank.
pub proof fn lemma_non_blank_kept(lines: Seq<Seq<char>>)
    ensures
        forall|k: int| 0 <= k < non_blank(lines).len() ==> trim(#[trigger] non_blank(lines)[k]).len() > 0,
    decreases lines.len(),
{
    if lines.len() > 0 {
        let pre = lines.drop_last();
        lemma_non_blank_kept(pre);
        let r = non_blank(lines);
        assert forall|k: int| 0 <= k < r.len() implies trim(#[trigger] r[k]).len() > 0 by {
            if k < non_blank(pre).len() {
                assert(r[k] == non_blank(pre)[k]);
            }
        }
    }
}

/// The history kept in a file: its lines, without the blank ones. No entry
/// of the result is empty or white space only.
pub fn history_entries(lines: &Vec<String>) -> (r: Vec<String>)
    ensures
        views(r@) == non_blank(views(lines@)),
        forall|k: int| 0 <= k < r@.len() ==> trim(#[trigger] r@[k]@).len() > 0,
{
    proof {
        lemma_non_blank_kept(views(lines@));
    }
    let ghost lv = views(lines@);
    let mut r: Vec<String> = Vec::new();
    let mut i: usize = 0;
    assert(lv.take(0) =~= Seq::<Seq<char>>::empty());
    while i < lines.len()
        invariant
            i <= lines.len(),
            lv == views(lines@),
            views(r@) == non_blank(lv.take(i as int)),
        decreases lines.len() - i,
    {
        assert(lv.take(i + 1).drop_last() =~= lv.take(i as int));
        assert(lv.take(i + 1).last() == lines@[i as int]@);
        let t = trim_chars(&chars_of(lines[i].as_str()));
        if t.len() > 0 {
            let x = lines[i].clone();
            proof { lemma_views_push(r@, x); }
            r.push(x);
        }
        i = i + 1;
    }
    assert(lv.take(lines.len() as int) =~= lv);
    assert forall|k: int| 0 <= k < r@.len() implies trim(#[trigger] r@[k]@).len() > 0 by {
        assert(views(r@)[k] == r@[k]@);
    }
    r
}

/// The indices of the entries of `history` that contain `query`, most
/// recent first.
pub open spec fn search_hits(history: Seq<Seq<char>>, query: Seq<char>) -> Seq<nat>
    decreases history.len(),
{
    if history.len() == 0 {
        seq![]
    } else {
        let rest = search_hits(history.drop_last(), query);
        if contains_sub(history.last(), query) {
            seq![(history.len() - 1) as nat] + rest
        } else {
            rest
        }
    }
}

/// The entry that a search shows: the `skip`-th most recent entry that
/// contains `query`, counting from 0.
pub open spec fn spec_find(history: Seq<Seq<char>>, query: Seq<char>, skip: nat) -> Option<nat> {
    let hits = search_hits(history, query);
    if skip < hits.len() {
        Some(hits[skip as int])
    } else {
        None
    }
}

/// Every string contains the empty string.
proof fn lemma_contains_empty(s: Seq<char>)
    ensures
        contains_sub(s, seq![]),
{
    let e = Seq::<char>::empty();
    assert(s.subrange(0, 0 + e.len() as int) =~= e);
}

/// With an empty query every entry is a hit, most recent first.
proof fn lemma_hits_empty_query(history: Seq<Seq<char>>)
    ensures
        search_hits(history, seq![]) == Seq::new(history.len(), |k: int| (history.len() - 1 - k) as nat),
    decreases history.len(),
{
    if history.len() > 0 {
        lemma_hits_empty_query(history.drop_last());
        lemma_contains_empty(history.last());
        assert(search_hits(history, seq![]) =~= Seq::new(history.len(), |k: int| (history.len() - 1 - k) as nat));
    } else {
        assert(search_hits(history, seq![]) =~= Seq::new(history.len(), |k: int| (history.len() - 1 - k) as nat));
    }
}

/// Law of the search with an empty query: it shows the `skip`-th most
/// recent entry, if the history has that many.
pub proof fn lemma_find_empty_query(history: Seq<Seq<char>>, skip: nat)
    ensures
        spec_find(history, seq![], skip) == (if skip < history.len() {
            Some((history.len() - 1 - skip) as nat)
        } else {
            None
        }),
{
    lemma_hits_empty_query(history);
}

/// The hits are exactly the entries that contain the query, newest first.
proof fn lemma_hits_facts(history: Seq<Seq<char>>, query: Seq<char>)
    ensures
        forall|k: int|
            0 <= k < search_hits(history, query).len() ==> {
                let i = #[trigger] search_hits(history, query)[k];
                i < history.len() && contains_sub(history[i as int], query)
            },
        forall|k: int, l: int|
            0 <= k < l < search_hits(history, query).len() ==> #[trigger] search_hits(history, query)[l]
                < #[trigger] search_hits(history, query)[k],
        forall|j: int|
            0 <= j < history.len() && contains_sub(#[trigger] history[j], query) ==> search_hits(
                history,
                query,
            ).contains(j as nat),
    decreases history.len(),
{
    if history.len() > 0 {
        let pre = history.drop_last();
        lemma_hits_facts(pre, query);
        let rest = search_hits(pre, query);
        let n = (history.len() - 1) as nat;
        assert forall|k: int| 0 <= k < rest.len() implies #[trigger] rest[k] < n && history[rest[k] as int]
            == pre[rest[k] as int] by {
        }
        if contains_sub(history.last(), query) {
            let hits = seq![n] + rest;
            assert(search_hits(history, query) == hits);
            assert forall|k: int| 0 <= k < hits.len() implies {
                let i = #[trigger] hits[k];
                i < history.len() && contains_sub(history[i as int], query)
            } by {
                if k > 0 {
                    assert(hits[k] == rest[k - 1]);
                }
            }
            assert forall|k: int, l: int| 0 <= k < l < hits.len() implies #[trigger] hits[l] < #[trigger] hits[k] by {
                assert(hits[l] == rest[l - 1]);
                if k > 0 {
                    assert(hits[k] == rest[k - 1]);
                }
            }
            assert forall|j: int| 0 <= j < history.len() && contains_sub(#[trigger] history[j], query) implies hits.contains(
                j as nat,
            ) by {
                if j < n {
                    assert(pre[j] == history[j]);
                    assert(rest.contains(j as nat));
                    let k = choose|k: int| 0 <= k < rest.len() && rest[k] == j as nat;
                    assert(hits[k + 1] == j as nat);
                } else {
                    assert(hits[0] == j as nat);
                }
            }
        } else {
            assert(search_hits(history, query) == rest);
            assert forall|j: int| 0 <= j < history.len() && contains_sub(#[trigger] history[j], query) implies rest.contains(
                j as nat,
            ) by {
                assert(j < n);
                assert(pre[j] == history[j]);
            }
        }
    }
}

/// Law of the reverse search: the entry shown contains the query; with no
/// Control-R it is the most recent entry that does; and each Control-R moves
/// to an older one: when a match is shown after `skip + 1` presses, one was
/// shown after `skip`, and it was more recent.
pub proof fn lemma_search_moves_older(history: Seq<Seq<char>>, query: Seq<char>, skip: nat)
    ensures
        spec_find(history, query, skip) matches Some(i) ==> i < history.len() && contains_sub(
            history[i as int],
            query,
        ),
        spec_find(history, query, 0) matches Some(i) ==> forall|j: int|
            i < j < history.len() ==> !contains_sub(#[trigger] history[j], query),
        spec_find(history, query, skip + 1) matches Some(j) ==> (spec_find(history, query, skip) matches Some(
            i,
        ) && j < i),
{
    lemma_hits_facts(history, query);
    let hits = search_hits(history, query);
    if skip < hits.len() {
        let i = hits[skip as int];
        assert(i < history.len() && contains_sub(history[i as int], query));
    }
    if hits.len() > 0 {
        let i = hits[0];
        assert forall|j: int| i < j < history.len() implies !contains_sub(#[trigger] history[j], query) by {
            if contains_sub(history[j], query) {
                assert(hits.contains(j as nat));
                let k = choose|k: int| 0 <= k < hits.len() && hits[k] == j as nat;
                if k > 0 {
                    assert(hits[k] < hits[0]);
                }
            }
        }
    }
    if skip + 1 < hits.len() {
        assert(hits[skip + 1int] < hits[skip as int]);
    }
}

/// Law of cycling with Control-R: each press moves to the next older match,
/// skipping none. Between the entry shown after `skip` presses and the one
/// shown after `skip + 1`, no entry contains the query; and when no entry is
/// shown after `skip + 1`, no entry older than the one shown after `skip`
/// contains it.
pub proof fn lemma_search_skips_no_match(history: Seq<Seq<char>>, query: Seq<char>, skip: nat)
    ensures
        spec_find(history, query, skip) matches Some(i) ==> (match spec_find(history, query, skip + 1) {
            Some(j) => forall|m: int| j < m < i ==> !contains_sub(#[trigger] history[m], query),
            None => forall|m: int| 0 <= m < i ==> !contains_sub(#[trigger] history[m], query),
        }),
{
    lemma_hits_facts(history, query);
    let hits = search_hits(history, query);
    if skip < hits.len() {
        let i = hits[skip as int];
        assert forall|m: int|
            0 <= m < i && contains_sub(#[trigger] history[m], query) implies skip + 1 < hits.len() && m
            <= hits[skip + 1int] by {
            assert(hits.contains(m as nat));
            let p = choose|p: int| 0 <= p < hits.len() && hits[p] == m as nat;
            if p <= skip {
                if p < skip {
                    assert(hits[skip as int] < hits[p]);
                }
            } else {
                if p > skip + 1 {
                    assert(hits[p] < hits[skip + 1int]);
                }
            }
        }
    }
}

/// Finds the `skip`-th history entry, from the most recent, that contains
/// `query`; returns its index. An empty query matches every entry.
pub fn find_in_history(history: &Vec<String>, query: &str, skip: usize) -> (r: Option<usize>)
    ensures
        (match r {
            Some(i) => Some(i as nat),
            None => None,
        }) == spec_find(views(history@), query@, skip as nat),
{
    let q = chars_of(query);
    if q.len() == 0 {
        proof {
            assert(query@ =~= Seq::<char>::empty());
            lemma_hits_empty_query(views(history@));
        }
        return if skip < history.len() {
            Some(history.len() - 1 - skip)
        } else {
            None
        };
    }
    let ghost h = views(history@);
    let ghost mut d: Seq<nat> = Seq::empty();
    let mut count: usize = 0;
    let mut i = history.len();
    assert(h.take(h.len() as int) =~= h);
    assert(d + search_hits(h, q@) =~= search_hits(h, q@));
    while i > 0
        invariant
            i <= history.len(),
            h == views(history@),
            q@ == query@,
            count <= skip,
            d.len() == count,
            search_hits(h, q@) == d + search_hits(h.take(i as int), q@),
        decreases i,
    {
        let ghost t = h.take(i as int);
        assert(t.drop_last() =~= h.take(i - 1));
        assert(t.last() == history@[i - 1]@);
        let e = chars_of(history[i - 1].as_str());
        if chars_contain(&e, &q) {
            assert(search_hits(t, q@) == seq![(i - 1) as nat] + search_hits(h.take(i - 1), q@));
            if count == skip {
                assert(search_hits(h, q@)[skip as int] == i - 1);
                return Some(i - 1);
            }
            proof {
                assert(d + search_hits(t, q@) =~= d.push((i - 1) as nat) + search_hits(h.take(i - 1), q@));
                d = d.push((i - 1) as nat);
            }
            count = count + 1;
        }
        i = i - 1;
    }
    assert(h.take(0) =~= Seq::<Seq<char>>::empty());
    assert(search_hits(h, q@) =~= d);
    None
}

// ───────────────────────────── reverse search ─────────────────────────────

/// A key press during the reverse search.
#[derive(Debug, Clone, Copy, PartialEq, Eq)]
pub enum SearchKey {
    Enter,
    Esc,
    Backspace,
    /// A character key, with whether Control was held.
    Char(char, bool),
    /// Any other key (an arrow, for instance).
    Other,
}

/// What the shell does after a key press of the reverse search.
#[derive(Debug, Clone, Copy, PartialEq, Eq)]
pub enum SearchAction {
    /// Keep searching and redraw.
    Continue,
    /// End the search, taking the shown entry if there is one.
    Accept(Option<usize>),
    /// End the search without an entry (Escape).
    Cancel,
    /// End the search without an entry (Control-C, echoed as `^C`).
    Interrupt,
}

/// The state of a reverse search: the query typed so far and how many
/// matches to skip (Control-R was pressed that many times).
#[derive(Debug)]
pub struct SearchState {
    pub query: String,
    pub skip: usize,
}

/// The model of one reverse-search step: the new query and skip, and the
/// action. The shown entry is the one found before the key.
pub open spec fn spec_search_step(
    history: Seq<Seq<char>>,
    query: Seq<char>,
    skip: nat,
    key: SearchKey,
) -> (Seq<char>, nat, SearchAction) {
    let shown = spec_find(history, query, skip);
    let accept = SearchAction::Accept(
        match shown {
            Some(i) => Some(i as usize),
            None => None,
        },
    );
    match key {
        SearchKey::Enter => (query, skip, accept),
        SearchKey::Esc => (query, skip, SearchAction::Cancel),
        SearchKey::Char(c, true) => if c == 'c' {
            (query, skip, SearchAction::Interrupt)
        } else if c == 'r' {
            (query, skip + 1, SearchAction::Continue)
        } else {
            (query, skip, accept)
        },
        SearchKey::Backspace => (
            if query.len() > 0 {
                query.drop_last()
            } else {
                query
            },
            0,
            SearchAction::Continue,
        ),
        SearchKey::Char(c, false) => (query.push(c), 0, SearchAction::Continue),
        SearchKey::Other => (query, skip, accept),
    }
}

/// Law of editing the search query: typing a character adds it at the end,
/// Backspace removes exactly the last character (nothing when the query is
/// empty), so typing a character and then Backspace gives the query back;
/// both start the matches over from the most recent one.
pub proof fn lemma_search_query_editing(history: Seq<Seq<char>>, query: Seq<char>, skip: nat, c: char)
    ensures
        ({
            let typed = spec_search_step(history, query, skip, SearchKey::Char(c, false));
            &&& typed.0.len() == query.len() + 1
            &&& typed.0[query.len() as int] == c
            &&& forall|i: int| 0 <= i < query.len() ==> #[trigger] typed.0[i] == query[i]
            &&& typed.1 == 0
            &&& typed.2 == SearchAction::Continue
        }),
        ({
            let erased = spec_search_step(history, query, skip, SearchKey::Backspace);
            &&& query.len() > 0 ==> erased.0.len() + 1 == query.len()
            &&& query.len() == 0 ==> erased.0.len() == 0
            &&& forall|i: int| 0 <= i < erased.0.len() ==> #[trigger] erased.0[i] == query[i]
            &&& erased.1 == 0
            &&& erased.2 == SearchAction::Continue
        }),
        spec_search_step(
            history,
            spec_search_step(history, query, skip, SearchKey::Char(c, false)).0,
            0,
            SearchKey::Backspace,
        ).0 == query,
{
    assert(query.push(c).drop_last() =~= query);
}

impl SearchState {
    /// A search with an empty query.
    pub fn new() -> (s: SearchState)
        ensures
            s.query@ == Seq::<char>::empty(),
            s.skip == 0,
    {
        SearchState { query: String::new(), skip: 0 }
    }

    /// The index of the entry the search shows now.
    pub fn shown(&self, history: &Vec<String>) -> (r: Option<usize>)
        ensures
            (match r {
                Some(i) => Some(i as nat),
                None => None,
            }) == spec_find(views(history@), self.query@, self.skip as nat),
    {
        find_in_history(history, self.query.as_str(), self.skip)
    }

    /// Handles one key of the reverse search (Control-R): typing extends the
    /// query, Backspace shortens it, Control-R skips to the next older match,
    /// Enter or any other key accepts the shown entry, Escape and Control-C
    /// cancel.
    pub fn step(&mut self, history: &Vec<String>, key: SearchKey) -> (r: SearchAction)
        requires
            old(self).skip < usize::MAX,
        ensures
            (final(self).query@, final(self).skip as nat, r) == spec_search_step(
                views(history@),
                old(self).query@,
                old(self).skip as nat,
                key,
            ),
    {
        let shown = self.shown(history);
        match key {
            SearchKey::Enter => SearchAction::Accept(shown),
            SearchKey::Esc => SearchAction::Cancel,
            SearchKey::Char(c, true) => {
                if c == 'c' {
                    SearchAction::Interrupt
                } else if c == 'r' {
                    self.skip = self.skip + 1;
                    SearchAction::Continue
                } else {
                    SearchAction::Accept(shown)
                }
            },
            SearchKey::Backspace => {
                let mut q = chars_of(self.query.as_str());
                if q.len() > 0 {
                    q.pop();
                }
                self.query = crate::text::string_from(&q);
                self.skip = 0;
                SearchAction::Continue
            },
            SearchKey::Char(c, false) => {
                push_char(&mut self.query, c);
                self.skip = 0;
                SearchAction::Continue
            },
            SearchKey::Other => SearchAction::Accept(shown),
        }
    }
}

} // verus!
