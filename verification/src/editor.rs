//! The decisions of the interactive line editor: what each key does to the
//! text being typed and to the history position. Reading keys and drawing
//! the prompt are the caller's part.
use vstd::prelude::*;
use crate::completion::{lemma_word_start_bound, word_start};
use crate::history::{non_blank, push_history};
use crate::parser::{parse_input, spec_parse, ParseResult};
use crate::text::{
    chars_contain, chars_of, contains_sub, has_char, is_ws, join, lemma_split_join, lemma_trim_nonempty, push_char, split_on,
    starts_with, string_from, trim, trim_chars, views,
};

verus! {

/// The text being typed: `buffer` holds the whole input, continuation lines
/// included; `purline` is its current (last) line.
#[derive(Debug)]
pub struct LineState {
    pub buffer: String,
    pub purline: String,
    /// Where history navigation stands: the length of the history when not
    /// navigating.
    pub history_index: usize,
    /// Whether the previous line was incomplete and this one continues it.
    pub continuation: bool,
}

/// Whether `line` ends `buffer`.
pub open spec fn is_suffix(line: Seq<char>, buffer: Seq<char>) -> bool {
    line.len() <= buffer.len() && buffer.skip(buffer.len() - line.len()) == line
}

/// The part of `buffer` before its current line.
pub open spec fn earlier_lines(buffer: Seq<char>, line: Seq<char>) -> Seq<char> {
    buffer.take(buffer.len() - line.len())
}

/// Whether an entered line is saved to the history: it is not blank and is a
/// single line.
pub open spec fn spec_should_record(buffer: Seq<char>) -> bool {
    trim(buffer).len() > 0 && !contains_sub(buffer, seq!['\n'])
}

/// `s` with `c` inserted at character position `k`, or appended when `k` is
/// at or past its end.
pub open spec fn insert_at(s: Seq<char>, k: nat, c: char) -> Seq<char> {
    if k >= s.len() {
        s.push(c)
    } else {
        s.insert(k as int, c)
    }
}

impl LineState {
    /// The well-formedness of the state: the current line ends the buffer.
    pub open spec fn wf(&self) -> bool {
        is_suffix(self.purline@, self.buffer@)
    }

    /// An empty line at the end of a history of `history_len` entries.
    pub fn new(history_len: usize) -> (s: LineState)
        ensures
            s.wf(),
            s.buffer@ == Seq::<char>::empty(),
            s.purline@ == Seq::<char>::empty(),
            s.history_index == history_len,
            !s.continuation,
    {
        let s = LineState { buffer: String::new(), purline: String::new(), history_index: history_len, continuation: false };
        assert(s.buffer@.skip(0) =~= s.purline@);
        s
    }

    /// Inserts a typed character at cursor position `cursor` of the current
    /// line (appends it when the cursor is at or past the end).
    pub fn insert_char(&mut self, cursor: usize, c: char)
        requires
            old(self).wf(),
        ensures
            final(self).wf(),
            final(self).purline@ == insert_at(old(self).purline@, cursor as nat, c),
            final(self).buffer@ == earlier_lines(old(self).buffer@, old(self).purline@) + final(self).purline@,
            final(self).history_index == old(self).history_index,
            final(self).continuation == old(self).continuation,
    {
        let b = chars_of(self.buffer.as_str());
        let mut p = chars_of(self.purline.as_str());
        let off = b.len() - p.len();
        let ghost prefix = b@.take(off as int);
        assert(b@ =~= prefix + p@);
        if cursor >= p.len() {
            p.push(c);
        } else {
            p.insert(cursor, c);
        }
        let mut nb: Vec<char> = Vec::new();
        let mut i: usize = 0;
        while i < off
            invariant
                i <= off <= b.len(),
                nb@ == b@.take(i as int),
            decreases off - i,
        {
            nb.push(b[i]);
            assert(b@.take(i + 1) =~= b@.take(i as int).push(b@[i as int]));
            i = i + 1;
        }
        let mut j: usize = 0;
        while j < p.len()
            invariant
                j <= p.len(),
                nb@ == prefix + p@.take(j as int),
                prefix == b@.take(off as int),
            decreases p.len() - j,
        {
            nb.push(p[j]);
            assert(prefix + p@.take(j + 1) =~= (prefix + p@.take(j as int)).push(p@[j as int]));
            j = j + 1;
        }
        assert(p@.take(p.len() as int) =~= p@);
        self.buffer = string_from(&nb);
        self.purline = string_from(&p);
        assert(self.buffer@.skip(self.buffer@.len() - self.purline@.len()) =~= self.purline@);
    }

    /// Backspace at cursor position `cursor`: removes the character before
    /// the cursor from the current line (and the buffer). Returns whether
    /// the line is redrawn: it is not empty and the cursor is not at its
    /// start.
    pub fn backspace(&mut self, cursor: usize) -> (redraw: bool)
        requires
            old(self).wf(),
        ensures
            final(self).wf(),
            redraw == (old(self).purline@.len() > 0 && cursor > 0),
            final(self).purline@ == (if redraw && cursor - 1 < old(self).purline@.len() {
                old(self).purline@.remove(cursor - 1)
            } else {
                old(self).purline@
            }),
            final(self).buffer@ == earlier_lines(old(self).buffer@, old(self).purline@) + final(self).purline@,
            final(self).history_index == old(self).history_index,
            final(self).continuation == old(self).continuation,
    {
        let b = chars_of(self.buffer.as_str());
        let mut p = chars_of(self.purline.as_str());
        let off = b.len() - p.len();
        let ghost prefix = b@.take(off as int);
        assert(b@ =~= prefix + p@);
        let redraw = p.len() > 0 && cursor > 0;
        if !(redraw && cursor - 1 < p.len()) {
            return redraw;
        }
        p.remove(cursor - 1);
        let mut nb: Vec<char> = Vec::new();
        let mut i: usize = 0;
        while i < off
            invariant
                i <= off <= b.len(),
                nb@ == b@.take(i as int),
            decreases off - i,
        {
            nb.push(b[i]);
            assert(b@.take(i + 1) =~= b@.take(i as int).push(b@[i as int]));
            i = i + 1;
        }
        let mut j: usize = 0;
        while j < p.len()
            invariant
                j <= p.len(),
                nb@ == prefix + p@.take(j as int),
                prefix == b@.take(off as int),
            decreases p.len() - j,
        {
            nb.push(p[j]);
            assert(prefix + p@.take(j + 1) =~= (prefix + p@.take(j as int)).push(p@[j as int]));
            j = j + 1;
        }
        assert(p@.take(p.len() as int) =~= p@);
        self.buffer = string_from(&nb);
        self.purline = string_from(&p);
        assert(self.buffer@.skip(self.buffer@.len() - self.purline@.len()) =~= self.purline@);
        redraw
    }

    /// Applies the only completion offered: appends what it adds to the word
    /// being typed, to the line and the buffer.
    pub fn apply_completion(&mut self, completion: &String)
        requires
            old(self).wf(),
            starts_with(completion@, old(self).purline@.skip(word_start(old(self).purline@) as int)),
        ensures
            final(self).wf(),
            final(self).purline@ == old(self).purline@ + completion@.skip(
                (old(self).purline@.len() - word_start(old(self).purline@)) as int,
            ),
            final(self).buffer@ == old(self).buffer@ + completion@.skip(
                (old(self).purline@.len() - word_start(old(self).purline@)) as int,
            ),
            final(self).history_index == old(self).history_index,
            final(self).continuation == old(self).continuation,
    {
        let word = crate::completion::last_word(self.purline.as_str());
        proof { lemma_word_start_bound(self.purline@); }
        let w = word.unicode_len();
        let c = chars_of(completion.as_str());
        let mut i = w;
        let ghost pb = self.buffer@;
        let ghost pp = self.purline@;
        while i < c.len()
            invariant
                w <= i <= c.len(),
                c@ == completion@,
                self.buffer@ == pb + c@.subrange(w as int, i as int),
                self.purline@ == pp + c@.subrange(w as int, i as int),
                self.history_index == old(self).history_index,
                self.continuation == old(self).continuation,
            decreases c.len() - i,
        {
            push_char(&mut self.buffer, c[i]);
            push_char(&mut self.purline, c[i]);
            assert(pb + c@.subrange(w as int, i + 1) =~= (pb + c@.subrange(w as int, i as int)).push(c@[i as int]));
            assert(pp + c@.subrange(w as int, i + 1) =~= (pp + c@.subrange(w as int, i as int)).push(c@[i as int]));
            i = i + 1;
        }
        assert(c@.subrange(w as int, c.len() as int) =~= c@.skip(w as int));
        assert(self.buffer@.skip(self.buffer@.len() - self.purline@.len()) =~= self.purline@);
    }

    /// Up arrow: shows the previous history entry, if there is one. Returns
    /// whether it moved.
    pub fn history_up(&mut self, history: &Vec<String>) -> (moved: bool)
        requires
            old(self).history_index <= history.len(),
        ensures
            moved == (old(self).history_index > 0),
            moved ==> final(self).history_index == old(self).history_index - 1
                && final(self).buffer@ == history@[final(self).history_index as int]@
                && final(self).purline@ == final(self).buffer@,
            !moved ==> *final(self) == *old(self),
            final(self).continuation == old(self).continuation,
            final(self).wf() || !moved,
            final(self).history_index <= history.len(),
    {
        if self.history_index > 0 {
            self.history_index = self.history_index - 1;
            self.buffer = history[self.history_index].clone();
            self.purline = history[self.history_index].clone();
            assert(self.buffer@.skip(0) =~= self.purline@);
            true
        } else {
            false
        }
    }

    /// Down arrow: shows the next history entry, or an empty line past the
    /// most recent one. Returns whether it moved.
    pub fn history_down(&mut self, history: &Vec<String>) -> (moved: bool)
        requires
            old(self).history_index <= history.len(),
        ensures
            moved == (old(self).history_index < history.len()),
            moved ==> final(self).history_index == old(self).history_index + 1 && final(self).purline@
                == final(self).buffer@ && (if final(self).history_index < history.len() {
                final(self).buffer@ == history@[final(self).history_index as int]@
            } else {
                final(self).buffer@ == Seq::<char>::empty()
            }),
            !moved ==> *final(self) == *old(self),
            final(self).continuation == old(self).continuation,
            final(self).wf() || !moved,
            final(self).history_index <= history.len(),
    {
        if self.history_index < history.len() {
            self.history_index = self.history_index + 1;
            if self.history_index < history.len() {
                self.buffer = history[self.history_index].clone();
                self.purline = history[self.history_index].clone();
            } else {
                self.buffer = String::new();
                self.purline = String::new();
            }
            assert(self.buffer@.skip(0) =~= self.purline@);
            true
        } else {
            false
        }
    }

    /// Takes the entry chosen by a reverse search (when there is one) as the
    /// line, and leaves history navigation.
    pub fn take_search_result(&mut self, found: Option<String>, history_len: usize)
        requires
            old(self).wf(),
        ensures
            final(self).wf(),
            match found {
                Some(f) => final(self).buffer@ == f@ && final(self).purline@ == f@,
                None => final(self).buffer@ == old(self).buffer@ && final(self).purline@ == old(self).purline@,
            },
            final(self).history_index == history_len,
            final(self).continuation == old(self).continuation,
    {
        match found {
            Some(f) => {
                self.buffer = f.clone();
                self.purline = f;
                assert(self.buffer@.skip(0) =~= self.purline@);
            },
            None => {},
        }
        self.history_index = history_len;
    }

    /// Control-C: saves the line to the history when it is a non-blank single
    /// line (returns whether an entry was appended, for the history file),
    /// then starts a fresh, non-continued line.
    pub fn interrupt(&mut self, history: &mut Vec<String>) -> (pushed: bool)
        ensures
            final(self).wf(),
            final(self).buffer@ == Seq::<char>::empty(),
            final(self).purline@ == Seq::<char>::empty(),
            !final(self).continuation,
            final(self).history_index == final(history)@.len(),
            pushed ==> spec_should_record(old(self).buffer@) && views(final(history)@) == views(
                old(history)@,
            ).push(old(self).buffer@),
            !pushed ==> final(history)@ == old(history)@,
            spec_should_record(old(self).buffer@) ==> pushed == (old(history)@.len() == 0
                || old(history)@.last()@ != old(self).buffer@),
    {
        let pushed = if should_record(&self.buffer) {
            push_history(history, self.buffer.clone())
        } else {
            false
        };
        self.history_index = history.len();
        self.buffer = String::new();
        self.purline = String::new();
        self.continuation = false;
        assert(self.buffer@.skip(0) =~= self.purline@);
        pushed
    }

    /// Enter: parses the whole input. A complete input is returned with its
    /// commands for the caller to run; it is saved to the
    /// history when it is a non-blank single line, and a fresh line starts.
    /// An incomplete input gets a line feed and continues on a new line.
    pub fn submit(&mut self, history: &mut Vec<String>) -> (r: (ParseResult, bool))
        ensures
            final(self).wf(),
            final(self).purline@ == Seq::<char>::empty(),
            r.0@ == spec_parse(old(self).buffer@),
            (r.0 is Commands) ==> {
                &&& final(self).buffer@ == Seq::<char>::empty()
                &&& !final(self).continuation
                &&& final(self).history_index == final(history)@.len()
                &&& r.1 ==> spec_should_record(old(self).buffer@) && views(final(history)@) == views(
                    old(history)@,
                ).push(old(self).buffer@)
                &&& !r.1 ==> final(history)@ == old(history)@
                &&& spec_should_record(old(self).buffer@) ==> r.1 == (old(history)@.len() == 0
                    || old(history)@.last()@ != old(self).buffer@)
            },
            (r.0 is Incomplete) ==> {
                &&& final(self).buffer@ == old(self).buffer@.push('\n')
                &&& final(self).continuation
                &&& final(self).history_index == old(self).history_index
                &&& !r.1
                &&& final(history)@ == old(history)@
            },
    {
        self.purline = String::new();
        let parsed = parse_input(self.buffer.as_str());
        match parsed {
            ParseResult::Commands(cmds) => {
                let pushed = if should_record(&self.buffer) {
                    push_history(history, self.buffer.clone())
                } else {
                    false
                };
                self.history_index = history.len();
                self.buffer = String::new();
                self.continuation = false;
                assert(self.buffer@.skip(0) =~= self.purline@);
                (ParseResult::Commands(cmds), pushed)
            },
            ParseResult::Incomplete => {
                push_char(&mut self.buffer, '\n');
                self.continuation = true;
                assert(self.buffer@.skip(self.buffer@.len() as int) =~= self.purline@);
                (ParseResult::Incomplete, false)
            },
        }
    }
}

/// Law of line editing: Backspace right after typing a character removes
/// that character again. A character typed at cursor position `cursor`
/// lands at `min(cursor, line length)`, and Backspace with the cursor just
/// after that position gives back the line as it was.
pub proof fn lemma_backspace_undoes_insert(line: Seq<char>, cursor: nat, c: char)
    ensures
        ({
            let at = if cursor >= line.len() { line.len() } else { cursor };
            let typed = insert_at(line, cursor, c);
            &&& typed.len() == line.len() + 1
            &&& typed[at as int] == c
            &&& typed.remove(at as int) == line
        }),
{
    let at = if cursor >= line.len() { line.len() } else { cursor };
    let typed = insert_at(line, cursor, c);
    assert(typed.remove(at as int) =~= line);
}

/// Law of the history file: the entries that the editor saves (non-blank
/// single lines, one per line of the file) all come back when the file is
/// loaded, in order: loading drops only blank lines.
pub proof fn lemma_saved_entries_reload(entries: Seq<Seq<char>>)
    requires
        forall|i: int| 0 <= i < entries.len() ==> spec_should_record(#[trigger] entries[i]),
    ensures
        non_blank(entries) == entries,
    decreases entries.len(),
{
    if entries.len() > 0 {
        let pre = entries.drop_last();
        assert forall|i: int| 0 <= i < pre.len() implies spec_should_record(#[trigger] pre[i]) by {
            assert(pre[i] == entries[i]);
        }
        lemma_saved_entries_reload(pre);
        assert(spec_should_record(entries[entries.len() - 1]));
        assert(pre.push(entries.last()) =~= entries);
    }
}

/// Law of the history file, end to end: entries saved one per line (each
/// followed by a line feed) are read back as lines, and loading keeps every
/// one of them, in order; in particular the entry saved last is the last one
/// loaded.
pub proof fn lemma_history_file_round_trip(entries: Seq<Seq<char>>)
    requires
        entries.len() > 0,
        forall|i: int| 0 <= i < entries.len() ==> spec_should_record(#[trigger] entries[i]),
    ensures
        non_blank(split_on(join(entries, seq!['\n']), '\n')) == entries,
{
    assert forall|i: int| 0 <= i < entries.len() implies !has_char(#[trigger] entries[i], '\n') by {
        if has_char(entries[i], '\n') {
            let j = choose|j: int| 0 <= j < entries[i].len() && entries[i][j] == '\n';
            assert(entries[i].subrange(j, j + 1) =~= seq!['\n']);
            assert(spec_should_record(entries[i]));
        }
    }
    lemma_split_join(entries, '\n');
    lemma_saved_entries_reload(entries);
}

/// Law of recording: a line is saved to the history exactly when it holds a
/// character other than white space and no line feed, whatever else it
/// holds (separators, quotes, backslashes and all).
pub proof fn lemma_records_non_blank_lines(buffer: Seq<char>)
    ensures
        spec_should_record(buffer) <==> ((exists|i: int| 0 <= i < buffer.len() && !is_ws(#[trigger] buffer[i]))
            && (forall|i: int| 0 <= i < buffer.len() ==> #[trigger] buffer[i] != '\n')),
{
    lemma_trim_nonempty(buffer);
    if exists|i: int| 0 <= i < buffer.len() && buffer[i] == '\n' {
        let i = choose|i: int| 0 <= i < buffer.len() && buffer[i] == '\n';
        assert(buffer.subrange(i, i + 1) =~= seq!['\n']);
    }
    if contains_sub(buffer, seq!['\n']) {
        let i = choose|i: int| 0 <= i && i + 1 <= buffer.len() && #[trigger] buffer.subrange(i, i + 1) == seq!['\n'];
        assert(buffer[i] == buffer.subrange(i, i + 1)[0]);
    }
}

/// Whether an entered input is saved to the history: it is not blank and
/// holds no line feed.
pub fn should_record(buffer: &String) -> (r: bool)
    ensures
        r == spec_should_record(buffer@),
{
    let v = chars_of(buffer.as_str());
    let t = trim_chars(&v);
    let nl = vec!['\n'];
    assert(nl@ =~= seq!['\n']);
    t.len() > 0 && !chars_contain(&v, &nl)
}

/// The width of the prompt: two characters for a continuation line (`> `),
/// else the shown directory and `$ `.
pub fn prompt_len(display_dir: &str, continuation: bool) -> (r: usize)
    requires
        display_dir@.len() + 2 <= usize::MAX,
    ensures
        r == (if continuation { 2 } else { display_dir@.len() + 2 }),
{
    if continuation {
        2
    } else {
        display_dir.unicode_len() + 2
    }
}

} // verus!
