//! Splitting a command line into commands and their arguments.
use vstd::prelude::*;
use crate::text::{
    chars_of, is_whitespace, is_ws, join, lemma_views_push, push_char, sanitize, sanitize_string, string_from, trim,
    trim_chars, views,
};

verus! {

/// The quoting context of the tokenizer.
#[derive(PartialEq, Eq, Structural, Clone, Copy)]
pub enum Mode {
    Normal,
    Single,
    Double,
}

/// The state of the tokenizer between two characters.
#[verifier::ext_equal]
pub struct TokState {
    pub mode: Mode,
    pub escaped: bool,
    pub token: Seq<char>,
    pub args: Seq<Seq<char>>,
    pub cmds: Seq<(Seq<Seq<char>>, bool)>,
    pub next_req: bool,
}

/// The state before the first character.
pub open spec fn tok_start() -> TokState {
    TokState {
        mode: Mode::Normal,
        escaped: false,
        token: seq![],
        args: seq![],
        cmds: seq![],
        next_req: false,
    }
}

/// `args` with `token` appended, unless the token is empty.
pub open spec fn spec_flush_token(token: Seq<char>, args: Seq<Seq<char>>) -> Seq<Seq<char>> {
    if token.len() > 0 {
        args.push(token)
    } else {
        args
    }
}

/// `cmds` with the command `args` appended, unless it has no words.
pub open spec fn spec_flush_args(
    args: Seq<Seq<char>>,
    cmds: Seq<(Seq<Seq<char>>, bool)>,
    req: bool,
) -> Seq<(Seq<Seq<char>>, bool)> {
    if args.len() > 0 {
        cmds.push((args, req))
    } else {
        cmds
    }
}

/// Ends the current word and the current command.
pub open spec fn end_command(st: TokState, next_req: bool) -> TokState {
    TokState {
        mode: st.mode,
        escaped: st.escaped,
        token: seq![],
        args: seq![],
        cmds: spec_flush_args(spec_flush_token(st.token, st.args), st.cmds, st.next_req),
        next_req,
    }
}

/// One step of the tokenizer on a non-empty remaining input: the new state and
/// how many characters it consumed (two for `&&`, otherwise one).
pub open spec fn tok_step(st: TokState, rest: Seq<char>) -> (TokState, nat) {
    let c = rest[0];
    if st.escaped {
        let token = match st.mode {
            Mode::Normal => st.token.push(c),
            Mode::Double => if c == '"' || c == '\\' {
                st.token.push(c)
            } else {
                st.token.push('\\').push(c)
            },
            Mode::Single => st.token.push('\\').push(c),
        };
        (TokState { escaped: false, token, ..st }, 1)
    } else {
        match st.mode {
            Mode::Normal => if c == '\\' {
                (TokState { escaped: true, ..st }, 1)
            } else if c == '\'' {
                (TokState { mode: Mode::Single, ..st }, 1)
            } else if c == '"' {
                (TokState { mode: Mode::Double, ..st }, 1)
            } else if c == ';' {
                (end_command(st, false), 1)
            } else if c == '&' {
                if rest.len() > 1 && rest[1] == '&' {
                    (end_command(st, true), 2)
                } else {
                    (end_command(st, false), 1)
                }
            } else if is_ws(c) {
                (TokState { token: seq![], args: spec_flush_token(st.token, st.args), ..st }, 1)
            } else {
                (TokState { token: st.token.push(c), ..st }, 1)
            },
            Mode::Single => if c == '\'' {
                (TokState { mode: Mode::Normal, ..st }, 1)
            } else {
                (TokState { token: st.token.push(c), ..st }, 1)
            },
            Mode::Double => if c == '\\' {
                (TokState { escaped: true, ..st }, 1)
            } else if c == '"' {
                (TokState { mode: Mode::Normal, ..st }, 1)
            } else {
                (TokState { token: st.token.push(c), ..st }, 1)
            },
        }
    }
}

/// Runs the tokenizer from state `st` over `rest`: `None` when the input ends
/// inside quotes or after a lone backslash, else the commands, each with its
/// words and whether it runs only after a success (`&&`).
pub open spec fn tok_run(st: TokState, rest: Seq<char>) -> Option<Seq<(Seq<Seq<char>>, bool)>>
    decreases rest.len(),
{
    if rest.len() == 0 {
        if st.escaped || st.mode != Mode::Normal {
            None
        } else {
            Some(spec_flush_args(spec_flush_token(st.token, st.args), st.cmds, st.next_req))
        }
    } else {
        let (next, k) = tok_step(st, rest);
        if 1 <= k <= rest.len() {
            tok_run(next, rest.skip(k as int))
        } else {
            None
        }
    }
}

/// The commands that a line holds, or `None` where it is incomplete.
pub open spec fn tokenize(input: Seq<char>) -> Option<Seq<(Seq<Seq<char>>, bool)>> {
    tok_run(tok_start(), input)
}

/// The view of tokenized commands.
pub open spec fn commands_view(v: Seq<(Vec<String>, bool)>) -> Seq<(Seq<Seq<char>>, bool)> {
    v.map_values(|p: (Vec<String>, bool)| (views(p.0@), p.1))
}

/// Moves a non-empty token into `args` and empties it.
fn flush_token(token: &mut String, args: &mut Vec<String>)
    ensures
        final(token)@ == Seq::<char>::empty(),
        views(final(args)@) == spec_flush_token(old(token)@, views(old(args)@)),
{
    if token.as_str().is_empty() {
        assert(views(args@) =~= spec_flush_token(old(token)@, views(old(args)@)));
    } else {
        args.push(token.clone());
        assert(views(args@) =~= spec_flush_token(old(token)@, views(old(args)@)));
        *token = String::new();
    }
}

/// Moves a non-empty word list into `commands` and empties it.
fn flush_args(args: &mut Vec<String>, commands: &mut Vec<(Vec<String>, bool)>, req: bool)
    ensures
        final(args)@ == Seq::<String>::empty(),
        commands_view(final(commands)@) == spec_flush_args(
            views(old(args)@),
            commands_view(old(commands)@),
            req,
        ),
{
    if args.len() == 0 {
        assert(commands_view(commands@) =~= spec_flush_args(
            views(old(args)@),
            commands_view(old(commands)@),
            req,
        ));
    } else {
        let mut taken: Vec<String> = Vec::new();
        std::mem::swap(&mut taken, args);
        commands.push((taken, req));
        assert(commands_view(commands@) =~= spec_flush_args(
            views(old(args)@),
            commands_view(old(commands)@),
            req,
        ));
    }
}


/// Inside single quotes, every character other than a single quote is
/// taken literally into the current word.
proof fn lemma_single_quoted(st: TokState, s: Seq<char>, rest: Seq<char>)
    requires
        st.mode == Mode::Single,
        !st.escaped,
        forall|i: int| 0 <= i < s.len() ==> s[i] != '\'',
    ensures
        tok_run(st, s + rest) == tok_run(TokState { token: st.token + s, ..st }, rest),
    decreases s.len(),
{
    if s.len() == 0 {
        assert(s + rest =~= rest);
        assert(st.token + s =~= st.token);
    } else {
        let input = s + rest;
        assert(input[0] == s[0]);
        let next = TokState { token: st.token.push(s[0]), ..st };
        assert(tok_step(st, input) == (next, 1nat));
        assert(input.skip(1) =~= s.drop_first() + rest);
        lemma_single_quoted(next, s.drop_first(), rest);
        assert(next.token + s.drop_first() =~= st.token + s);
    }
}

/// Whether `c` needs no quoting: it is no white space, quote, backslash or
/// separator.
pub open spec fn is_plain(c: char) -> bool {
    !is_ws(c) && c != '\'' && c != '"' && c != '\\' && c != ';' && c != '&'
}

/// Outside quotes, plain characters are taken into the current word.
proof fn lemma_plain_word(st: TokState, s: Seq<char>, rest: Seq<char>)
    requires
        st.mode == Mode::Normal,
        !st.escaped,
        forall|i: int| 0 <= i < s.len() ==> is_plain(#[trigger] s[i]),
    ensures
        tok_run(st, s + rest) == tok_run(TokState { token: st.token + s, ..st }, rest),
    decreases s.len(),
{
    if s.len() == 0 {
        assert(s + rest =~= rest);
        assert(st.token + s =~= st.token);
    } else {
        let input = s + rest;
        assert(input[0] == s[0]);
        assert(is_plain(s[0]));
        let next = TokState { token: st.token.push(s[0]), ..st };
        assert(tok_step(st, input) == (next, 1nat));
        assert(input.skip(1) =~= s.drop_first() + rest);
        assert forall|i: int| 0 <= i < s.drop_first().len() implies is_plain(#[trigger] s.drop_first()[i]) by {
            assert(s.drop_first()[i] == s[i + 1]);
        }
        lemma_plain_word(next, s.drop_first(), rest);
        assert(next.token + s.drop_first() =~= st.token + s);
    }
}

/// Law of single quotes: a single-quoted text is one word, taken literally,
/// white space, double quotes, backslashes and separators included (an
/// empty pair of quotes gives no word).
pub proof fn lemma_single_quotes_literal(s: Seq<char>)
    requires
        forall|i: int| 0 <= i < s.len() ==> s[i] != '\'',
    ensures
        tokenize(seq!['\''] + s + seq!['\'']) == Some(
            if s.len() > 0 {
                seq![(seq![s], false)]
            } else {
                Seq::<(Seq<Seq<char>>, bool)>::empty()
            },
        ),
{
    let input = seq!['\''] + s + seq!['\''];
    let st0 = tok_start();
    let st1 = TokState { mode: Mode::Single, ..st0 };
    assert(input[0] == '\'');
    assert(tok_step(st0, input) == (st1, 1nat));
    assert(input.skip(1) =~= s + seq!['\'']);
    lemma_single_quoted(st1, s, seq!['\'']);
    let st2 = TokState { token: st1.token + s, ..st1 };
    let st3 = TokState { mode: Mode::Normal, ..st2 };
    assert(tok_step(st2, seq!['\'']) == (st3, 1nat));
    assert(seq!['\''].skip(1) =~= Seq::<char>::empty());
    assert(st1.token + s =~= s);
    assert(tokenize(input) == tok_run(st1, s + seq!['\'']));
    assert(tok_run(st2, seq!['\'']) == tok_run(st3, Seq::<char>::empty()));
    assert(tok_run(st3, Seq::<char>::empty()) == Some(spec_flush_args(spec_flush_token(s, seq![]), seq![], false)));
    if s.len() > 0 {
        assert(spec_flush_args(spec_flush_token(s, seq![]), seq![], false) =~= seq![(seq![s], false)]);
    } else {
        assert(spec_flush_token(s, seq![]) =~= Seq::<Seq<char>>::empty());
    }
}

/// Law of continuation: a line that opens a single quote and does not close
/// it is incomplete.
pub proof fn lemma_unclosed_quote_incomplete(s: Seq<char>)
    requires
        forall|i: int| 0 <= i < s.len() ==> s[i] != '\'',
    ensures
        tokenize(seq!['\''] + s) is None,
{
    let input = seq!['\''] + s;
    let st0 = tok_start();
    let st1 = TokState { mode: Mode::Single, ..st0 };
    assert(input[0] == '\'');
    assert(tok_step(st0, input) == (st1, 1nat));
    assert(input.skip(1) =~= s + Seq::<char>::empty());
    lemma_single_quoted(st1, s, Seq::<char>::empty());
}

/// Inside double quotes, every character other than a double quote or a
/// backslash is taken literally into the current word.
proof fn lemma_double_quoted(st: TokState, s: Seq<char>, rest: Seq<char>)
    requires
        st.mode == Mode::Double,
        !st.escaped,
        forall|i: int| 0 <= i < s.len() ==> s[i] != '"' && s[i] != '\\',
    ensures
        tok_run(st, s + rest) == tok_run(TokState { token: st.token + s, ..st }, rest),
    decreases s.len(),
{
    if s.len() == 0 {
        assert(s + rest =~= rest);
        assert(st.token + s =~= st.token);
    } else {
        let input = s + rest;
        assert(input[0] == s[0]);
        let next = TokState { token: st.token.push(s[0]), ..st };
        assert(tok_step(st, input) == (next, 1nat));
        assert(input.skip(1) =~= s.drop_first() + rest);
        lemma_double_quoted(next, s.drop_first(), rest);
        assert(next.token + s.drop_first() =~= st.token + s);
    }
}

/// Law of double quotes: a double-quoted text without backslashes is one
/// word, taken literally, white space, single quotes and separators included
/// (an empty pair of quotes gives no word).
pub proof fn lemma_double_quotes_literal(s: Seq<char>)
    requires
        forall|i: int| 0 <= i < s.len() ==> s[i] != '"' && s[i] != '\\',
    ensures
        tokenize(seq!['"'] + s + seq!['"']) == Some(
            if s.len() > 0 {
                seq![(seq![s], false)]
            } else {
                Seq::<(Seq<Seq<char>>, bool)>::empty()
            },
        ),
{
    let input = seq!['"'] + s + seq!['"'];
    let st0 = tok_start();
    let st1 = TokState { mode: Mode::Double, ..st0 };
    assert(input[0] == '"');
    assert(tok_step(st0, input) == (st1, 1nat));
    assert(input.skip(1) =~= s + seq!['"']);
    lemma_double_quoted(st1, s, seq!['"']);
    let st2 = TokState { token: st1.token + s, ..st1 };
    let st3 = TokState { mode: Mode::Normal, ..st2 };
    assert(tok_step(st2, seq!['"']) == (st3, 1nat));
    assert(seq!['"'].skip(1) =~= Seq::<char>::empty());
    assert(st1.token + s =~= s);
    assert(tokenize(input) == tok_run(st1, s + seq!['"']));
    assert(tok_run(st2, seq!['"']) == tok_run(st3, Seq::<char>::empty()));
    assert(tok_run(st3, Seq::<char>::empty()) == Some(spec_flush_args(spec_flush_token(s, seq![]), seq![], false)));
    if s.len() > 0 {
        assert(spec_flush_args(spec_flush_token(s, seq![]), seq![], false) =~= seq![(seq![s], false)]);
    } else {
        assert(spec_flush_token(s, seq![]) =~= Seq::<Seq<char>>::empty());
    }
}

/// Whether `c` may stand in an unquoted word: no white space, quote,
/// backslash, `;` or `&`.
proof fn lemma_unquoted_plain(s: Seq<char>)
    requires
        forall|i: int|
            0 <= i < s.len() ==> !is_ws(#[trigger] s[i]) && s[i] != '\'' && s[i] != '"' && s[i] != '\\'
                && s[i] != ';' && s[i] != '&',
    ensures
        forall|i: int| 0 <= i < s.len() ==> is_plain(#[trigger] s[i]),
{
}

/// Law of quoting inside a word: quotes never start or end a word. A word
/// made of unquoted text `a`, a quoted text `s` and unquoted text `b` is the
/// one word `a + s + b`, for double quotes (`s` without `"` or `\`) and for
/// single quotes (`s` without `'`) alike.
pub proof fn lemma_quotes_inside_word(a: Seq<char>, s: Seq<char>, b: Seq<char>, double: bool)
    requires
        a.len() + s.len() + b.len() > 0,
        forall|i: int|
            0 <= i < a.len() ==> !is_ws(#[trigger] a[i]) && a[i] != '\'' && a[i] != '"' && a[i] != '\\'
                && a[i] != ';' && a[i] != '&',
        forall|i: int|
            0 <= i < b.len() ==> !is_ws(#[trigger] b[i]) && b[i] != '\'' && b[i] != '"' && b[i] != '\\'
                && b[i] != ';' && b[i] != '&',
        double ==> forall|i: int| 0 <= i < s.len() ==> s[i] != '"' && s[i] != '\\',
        !double ==> forall|i: int| 0 <= i < s.len() ==> s[i] != '\'',
    ensures
        tokenize(a + seq![if double { '"' } else { '\'' }] + s + seq![if double { '"' } else { '\'' }] + b)
            == Some(seq![(seq![a + s + b], false)]),
{
    let q = if double { '"' } else { '\'' };
    let input = a + seq![q] + s + seq![q] + b;
    lemma_unquoted_plain(a);
    lemma_unquoted_plain(b);
    let st0 = tok_start();
    let rest1 = seq![q] + s + seq![q] + b;
    assert(input =~= a + rest1);
    lemma_plain_word(st0, a, rest1);
    let st1 = TokState { token: st0.token + a, ..st0 };
    assert(st0.token + a =~= a);
    let m = if double { Mode::Double } else { Mode::Single };
    let st2 = TokState { mode: m, ..st1 };
    assert(rest1[0] == q);
    assert(tok_step(st1, rest1) == (st2, 1nat));
    let rest2 = s + (seq![q] + b);
    assert(rest1.skip(1) =~= rest2);
    if double {
        lemma_double_quoted(st2, s, seq![q] + b);
    } else {
        lemma_single_quoted(st2, s, seq![q] + b);
    }
    let st3 = TokState { token: st2.token + s, ..st2 };
    let st4 = TokState { mode: Mode::Normal, ..st3 };
    let rest3 = seq![q] + b;
    assert(rest3[0] == q);
    assert(tok_step(st3, rest3) == (st4, 1nat));
    assert(rest3.skip(1) =~= b + Seq::<char>::empty());
    lemma_plain_word(st4, b, Seq::<char>::empty());
    let st5 = TokState { token: st4.token + b, ..st4 };
    assert(st5.token =~= a + s + b);
    assert(tok_run(st5, Seq::<char>::empty()) == Some(spec_flush_args(spec_flush_token(a + s + b, seq![]), seq![], false)));
    assert(spec_flush_args(spec_flush_token(a + s + b, seq![]), seq![], false) =~= seq![(seq![a + s + b], false)]);
    assert(tok_run(st0, input) == tok_run(st1, rest1));
    assert(tok_run(st1, rest1) == tok_run(st2, rest2));
    assert(tok_run(st2, rest2) == tok_run(st3, rest3));
    assert(tok_run(st3, rest3) == tok_run(st4, b + Seq::<char>::empty()));
}

/// Law of backslashes in double quotes: `\"` and `\\` give the quote and
/// the backslash; before any other character the backslash is kept.
pub proof fn lemma_double_quote_escape(c: char)
    ensures
        tokenize(seq!['"', '\\', c, '"']) == Some(
            seq![(seq![if c == '"' || c == '\\' { seq![c] } else { seq!['\\', c] }], false)],
        ),
{
    let input = seq!['"', '\\', c, '"'];
    let w = if c == '"' || c == '\\' { seq![c] } else { seq!['\\', c] };
    let st0 = tok_start();
    let st1 = TokState { mode: Mode::Double, ..st0 };
    let st2 = TokState { escaped: true, ..st1 };
    let st3 = TokState { escaped: false, token: w, ..st2 };
    let st4 = TokState { mode: Mode::Normal, ..st3 };
    assert(tok_step(st0, input) == (st1, 1nat));
    assert(input.skip(1) =~= seq!['\\', c, '"']);
    assert(tok_step(st1, seq!['\\', c, '"']) == (st2, 1nat));
    assert(seq!['\\', c, '"'].skip(1) =~= seq![c, '"']);
    assert(tok_step(st2, seq![c, '"']).0 =~= st3);
    assert(seq![c, '"'].skip(1) =~= seq!['"']);
    assert(tok_step(st3, seq!['"']) == (st4, 1nat));
    assert(seq!['"'].skip(1) =~= Seq::<char>::empty());
    assert(spec_flush_args(spec_flush_token(w, seq![]), seq![], false) =~= seq![(seq![w], false)]);
    assert(tok_run(st4, Seq::<char>::empty()) == Some(seq![(seq![w], false)]));
    assert(tok_run(st3, seq!['"']) == tok_run(st4, Seq::<char>::empty()));
    assert(tok_run(st2, seq![c, '"']) == tok_run(st3, seq!['"']));
    assert(tok_run(st1, seq!['\\', c, '"']) == tok_run(st2, seq![c, '"']));
    assert(tok_run(st0, input) == tok_run(st1, seq!['\\', c, '"']));
}

/// Law of continuation for double quotes: a line that opens a double quote
/// and does not close it is incomplete.
pub proof fn lemma_unclosed_double_quote_incomplete(s: Seq<char>)
    requires
        forall|i: int| 0 <= i < s.len() ==> s[i] != '"' && s[i] != '\\',
    ensures
        tokenize(seq!['"'] + s) is None,
{
    let input = seq!['"'] + s;
    let st0 = tok_start();
    let st1 = TokState { mode: Mode::Double, ..st0 };
    assert(input[0] == '"');
    assert(tok_step(st0, input) == (st1, 1nat));
    assert(input.skip(1) =~= s + Seq::<char>::empty());
    lemma_double_quoted(st1, s, Seq::<char>::empty());
}

/// Law of the backslash: outside quotes, a backslash makes the character
/// after it a word of its own, whatever that character is (a quote, a
/// separator or white space included).
pub proof fn lemma_escaped_char(c: char)
    ensures
        tokenize(seq!['\\', c]) == Some(seq![(seq![seq![c]], false)]),
{
    let input = seq!['\\', c];
    let st0 = tok_start();
    let st1 = TokState { escaped: true, ..st0 };
    assert(tok_step(st0, input) == (st1, 1nat));
    assert(input.skip(1) =~= seq![c]);
    let st2 = TokState { escaped: false, token: seq![c], ..st1 };
    assert(tok_step(st1, seq![c]).0 =~= st2);
    assert(seq![c].skip(1) =~= Seq::<char>::empty());
    assert(spec_flush_args(spec_flush_token(seq![c], seq![]), seq![], false) =~= seq![(seq![seq![c]], false)]);
    assert(tok_run(st2, Seq::<char>::empty()) == Some(seq![(seq![seq![c]], false)]));
    assert(tok_run(st1, seq![c]) == tok_run(st2, Seq::<char>::empty()));
    assert(tokenize(input) == tok_run(st1, seq![c]));
}

/// Law of continuation for a backslash: a line of plain characters that
/// ends with a backslash is incomplete.
pub proof fn lemma_trailing_backslash_incomplete(a: Seq<char>)
    requires
        forall|i: int| 0 <= i < a.len() ==> is_plain(#[trigger] a[i]),
    ensures
        tokenize(a + seq!['\\']) is None,
{
    let st0 = tok_start();
    lemma_plain_word(st0, a, seq!['\\']);
    let st1 = TokState { token: st0.token + a, ..st0 };
    let st2 = TokState { escaped: true, ..st1 };
    assert(tok_step(st1, seq!['\\']) == (st2, 1nat));
    assert(seq!['\\'].skip(1) =~= Seq::<char>::empty());
    assert(tok_run(st1, seq!['\\']) == tok_run(st2, Seq::<char>::empty()));
    assert(st0.token + a =~= a);
}

/// Whether every word is non-empty.
pub open spec fn words_nonempty(args: Seq<Seq<char>>) -> bool {
    forall|k: int| 0 <= k < args.len() ==> (#[trigger] args[k]).len() > 0
}

/// Whether every command has at least one word, and no word is empty.
pub open spec fn commands_nonempty(cmds: Seq<(Seq<Seq<char>>, bool)>) -> bool {
    forall|k: int| 0 <= k < cmds.len() ==> (#[trigger] cmds[k]).0.len() > 0 && words_nonempty(cmds[k].0)
}

/// The tokenizer state holds only non-empty words and commands.
pub open spec fn tok_nonempty(st: TokState) -> bool {
    words_nonempty(st.args) && commands_nonempty(st.cmds)
}

/// Ending a word and a command keeps words and commands non-empty.
proof fn lemma_flush_nonempty(token: Seq<char>, args: Seq<Seq<char>>, cmds: Seq<(Seq<Seq<char>>, bool)>, req: bool)
    requires
        words_nonempty(args),
        commands_nonempty(cmds),
    ensures
        words_nonempty(spec_flush_token(token, args)),
        commands_nonempty(spec_flush_args(spec_flush_token(token, args), cmds, req)),
{
    let a = spec_flush_token(token, args);
    assert forall|k: int| 0 <= k < a.len() implies (#[trigger] a[k]).len() > 0 by {
        if k < args.len() {
            assert(a[k] == args[k]);
        }
    }
    let c = spec_flush_args(a, cmds, req);
    assert forall|k: int| 0 <= k < c.len() implies (#[trigger] c[k]).0.len() > 0 && words_nonempty(c[k].0) by {
        if k < cmds.len() {
            assert(c[k] == cmds[k]);
        }
    }
}

/// One step of the tokenizer keeps words and commands non-empty.
proof fn lemma_step_nonempty(st: TokState, rest: Seq<char>)
    requires
        rest.len() > 0,
        tok_nonempty(st),
    ensures
        tok_nonempty(tok_step(st, rest).0),
{
    lemma_flush_nonempty(st.token, st.args, st.cmds, st.next_req);
    let next = tok_step(st, rest).0;
    assert(words_nonempty(next.args)) by {
        assert(Seq::<Seq<char>>::empty().len() == 0);
    }
}

/// A run of the tokenizer that ends keeps words and commands non-empty.
proof fn lemma_run_nonempty(st: TokState, rest: Seq<char>)
    requires
        tok_nonempty(st),
    ensures
        tok_run(st, rest) matches Some(c) ==> commands_nonempty(c),
    decreases rest.len(),
{
    if rest.len() == 0 {
        lemma_flush_nonempty(st.token, st.args, st.cmds, st.next_req);
    } else {
        let (next, k) = tok_step(st, rest);
        lemma_step_nonempty(st, rest);
        if 1 <= k <= rest.len() {
            lemma_run_nonempty(next, rest.skip(k as int));
        }
    }
}

/// Law of words: a complete line gives no empty word (so `''` and `""`
/// alone give none) and no command without words (so empty stretches
/// between separators give none).
pub proof fn lemma_no_empty_words(s: Seq<char>)
    ensures
        tokenize(s) matches Some(c) ==> commands_nonempty(c),
{
    assert(tok_nonempty(tok_start()));
    lemma_run_nonempty(tok_start(), s);
}

/// Plain words separated by single spaces, read from a state outside
/// quotes with an empty current word: all but the last become words, the
/// last is the current word.
proof fn lemma_spaced_words(st: TokState, words: Seq<Seq<char>>, rest: Seq<char>)
    requires
        st.mode == Mode::Normal,
        !st.escaped,
        st.token.len() == 0,
        words.len() > 0,
        forall|k: int| 0 <= k < words.len() ==> (#[trigger] words[k]).len() > 0,
        forall|k: int, i: int| 0 <= k < words.len() && 0 <= i < words[k].len() ==> is_plain(#[trigger] words[k][i]),
    ensures
        tok_run(st, join(words, seq![' ']) + rest) == tok_run(
            TokState { token: words.last(), args: st.args + words.drop_last(), ..st },
            rest,
        ),
    decreases words.len(),
{
    if words.len() == 1 {
        assert(join(words, seq![' ']) == words[0]);
        assert forall|i: int| 0 <= i < words[0].len() implies is_plain(#[trigger] words[0][i]) by {
            assert(is_plain(words[0][i]));
        }
        lemma_plain_word(st, words[0], rest);
        assert(st.token + words[0] =~= words.last());
        assert(st.args + words.drop_last() =~= st.args);
    } else {
        let pre = words.drop_last();
        let last = words.last();
        assert forall|k: int| 0 <= k < pre.len() implies (#[trigger] pre[k]).len() > 0 by {
            assert(pre[k] == words[k]);
        }
        assert forall|k: int, i: int| 0 <= k < pre.len() && 0 <= i < pre[k].len() implies is_plain(
            #[trigger] pre[k][i],
        ) by {
            assert(pre[k] == words[k]);
        }
        let tail = seq![' '] + last + rest;
        assert(join(words, seq![' ']) + rest =~= join(pre, seq![' ']) + tail);
        lemma_spaced_words(st, pre, tail);
        let st1 = TokState { token: pre.last(), args: st.args + pre.drop_last(), ..st };
        assert(tail[0] == ' ');
        assert(is_ws(' '));
        let st2 = TokState { token: seq![], args: spec_flush_token(st1.token, st1.args), ..st1 };
        assert(tok_step(st1, tail) == (st2, 1nat));
        assert(pre[pre.len() - 1].len() > 0);
        assert(st2.args =~= st.args + pre);
        assert(tail.skip(1) =~= last + rest);
        assert forall|i: int| 0 <= i < last.len() implies is_plain(#[trigger] last[i]) by {
            assert(is_plain(words[words.len() - 1][i]));
        }
        lemma_plain_word(st2, last, rest);
        assert(st2.token + last =~= last);
        assert(pre =~= words.drop_last());
    }
}

/// Law of words: plain words separated by single spaces are one command
/// with those words, in order.
pub proof fn lemma_plain_words(words: Seq<Seq<char>>)
    requires
        words.len() > 0,
        forall|k: int| 0 <= k < words.len() ==> (#[trigger] words[k]).len() > 0,
        forall|k: int, i: int| 0 <= k < words.len() && 0 <= i < words[k].len() ==> is_plain(#[trigger] words[k][i]),
    ensures
        tokenize(join(words, seq![' '])) == Some(seq![(words, false)]),
{
    let st = tok_start();
    lemma_spaced_words(st, words, seq![]);
    assert(join(words, seq![' ']) + Seq::<char>::empty() =~= join(words, seq![' ']));
    let fin = TokState { token: words.last(), args: st.args + words.drop_last(), ..st };
    assert(st.args + words.drop_last() =~= words.drop_last());
    assert(words[words.len() - 1].len() > 0);
    assert(spec_flush_token(words.last(), words.drop_last()) =~= words);
    assert(tok_run(fin, Seq::<char>::empty()) == Some(seq![(words, false)]));
}

/// Law of separators: two plain words around `;`, `&` or `&&` are two
/// commands; the second runs only after a success exactly for `&&`.
pub proof fn lemma_separated_words(a: Seq<char>, sep: Seq<char>, b: Seq<char>)
    requires
        a.len() > 0,
        b.len() > 0,
        forall|i: int| 0 <= i < a.len() ==> is_plain(#[trigger] a[i]),
        forall|i: int| 0 <= i < b.len() ==> is_plain(#[trigger] b[i]),
        sep == seq![';'] || sep == seq!['&'] || sep == seq!['&', '&'],
    ensures
        tokenize(a + sep + b) == Some(seq![(seq![a], false), (seq![b], sep == seq!['&', '&'])]),
{
    let st0 = tok_start();
    assert(a + sep + b =~= a + (sep + b));
    lemma_plain_word(st0, a, sep + b);
    let st1 = TokState { token: st0.token + a, ..st0 };
    assert(st0.token + a =~= a);
    let rest = sep + b;
    assert(rest[0] == sep[0]);
    let req = sep == seq!['&', '&'];
    let k: nat = if req { 2 } else { 1 };
    let st2 = end_command(st1, req);
    if sep == seq!['&'] {
        assert(rest.len() > 1 && rest[1] == b[0]);
        assert(is_plain(b[0]));
    }
    if req {
        assert(rest[1] == '&');
    }
    assert(tok_step(st1, rest) == (st2, k));
    assert(rest.skip(k as int) =~= b + Seq::<char>::empty());
    lemma_plain_word(st2, b, Seq::<char>::empty());
    assert(spec_flush_token(a, seq![]) =~= seq![a]);
    assert(st2.cmds =~= seq![(seq![a], false)]);
    assert(st2.token + b =~= b);
    assert(spec_flush_args(spec_flush_token(b, seq![]), st2.cmds, req) =~= seq![(seq![a], false), (seq![b], req)]);
}

/// The abstract tokenizer state of the executable one.
pub open spec fn state_of(
    mode: Mode,
    escaped: bool,
    token: Seq<char>,
    args: Seq<String>,
    cmds: Seq<(Vec<String>, bool)>,
    next_req: bool,
) -> TokState {
    TokState { mode, escaped, token, args: views(args), cmds: commands_view(cmds), next_req }
}

/// Splits `input` into commands. Each command is its list of words and
/// whether it runs only when the one before it succeeded (it follows `&&`).
/// Quotes and backslashes group and escape characters; `;`, `&` and `&&`
/// separate commands. A line that ends inside quotes or after a backslash is
/// refused with the error `Incomplete`.
pub fn parse_tokens(input: &str) -> (r: Result<Vec<(Vec<String>, bool)>, String>)
    ensures
        match r {
            Ok(cmds) => tokenize(input@) == Some(commands_view(cmds@)) && commands_nonempty(
                commands_view(cmds@),
            ),
            Err(e) => tokenize(input@) is None && e@ == "Incomplete"@,
        },
{
    proof { lemma_no_empty_words(input@); }
    let v = chars_of(input);
    let n = v.len();
    let mut commands: Vec<(Vec<String>, bool)> = Vec::new();
    let mut current_args: Vec<String> = Vec::new();
    let mut current_token = String::new();
    let mut next_req: bool = false;
    let mut mode = Mode::Normal;
    let mut escaped = false;
    let mut i: usize = 0;
    assert(v@.skip(0) =~= v@);
    assert(views(current_args@) =~= Seq::<Seq<char>>::empty());
    assert(commands_view(commands@) =~= Seq::<(Seq<Seq<char>>, bool)>::empty());
    assert(state_of(mode, escaped, current_token@, current_args@, commands@, next_req) =~= tok_start());
    while i < n
        invariant
            i <= n == v.len(),
            v@ == input@,
            tok_run(
                state_of(mode, escaped, current_token@, current_args@, commands@, next_req),
                v@.skip(i as int),
            ) == tokenize(input@),
        decreases n - i,
    {
        let ghost st = state_of(mode, escaped, current_token@, current_args@, commands@, next_req);
        let ghost rest = v@.skip(i as int);
        let c = v[i];
        assert(rest[0] == c);
        let mut k: usize = 1;
        if escaped {
            match mode {
                Mode::Normal => push_char(&mut current_token, c),
                Mode::Double => {
                    if c == '"' || c == '\\' {
                        push_char(&mut current_token, c);
                    } else {
                        push_char(&mut current_token, '\\');
                        push_char(&mut current_token, c);
                    }
                },
                Mode::Single => {
                    push_char(&mut current_token, '\\');
                    push_char(&mut current_token, c);
                },
            }
            escaped = false;
        } else {
            match mode {
                Mode::Normal => {
                    if c == '\\' {
                        escaped = true;
                    } else if c == '\'' {
                        mode = Mode::Single;
                    } else if c == '"' {
                        mode = Mode::Double;
                    } else if c == ';' {
                        flush_token(&mut current_token, &mut current_args);
                        flush_args(&mut current_args, &mut commands, next_req);
                        next_req = false;
                    } else if c == '&' {
                        if i + 1 < n && v[i + 1] == '&' {
                            assert(rest[1] == v@[i + 1]);
                            k = 2;
                            flush_token(&mut current_token, &mut current_args);
                            flush_args(&mut current_args, &mut commands, next_req);
                            next_req = true;
                        } else {
                            flush_token(&mut current_token, &mut current_args);
                            flush_args(&mut current_args, &mut commands, next_req);
                            next_req = false;
                        }
                    } else if is_whitespace(c) {
                        flush_token(&mut current_token, &mut current_args);
                    } else {
                        push_char(&mut current_token, c);
                    }
                },
                Mode::Single => {
                    if c == '\'' {
                        mode = Mode::Normal;
                    } else {
                        push_char(&mut current_token, c);
                    }
                },
                Mode::Double => {
                    if c == '\\' {
                        escaped = true;
                    } else if c == '"' {
                        mode = Mode::Normal;
                    } else {
                        push_char(&mut current_token, c);
                    }
                },
            }
        }
        let ghost next = state_of(mode, escaped, current_token@, current_args@, commands@, next_req);
        assert(tok_step(st, rest).0 =~= next);
        assert(tok_step(st, rest).1 == k);
        assert(rest.skip(k as int) =~= v@.skip(i + k));
        i = i + k;
    }
    assert(v@.skip(n as int) =~= Seq::<char>::empty());
    if escaped || mode != Mode::Normal {
        return Err(String::from_str("Incomplete"));
    }
    flush_token(&mut current_token, &mut current_args);
    flush_args(&mut current_args, &mut commands, next_req);
    Ok(commands)
}


/// All supported built-in commands, carrying their parsed arguments.
#[derive(Debug, PartialEq)]
pub enum CommandEnum {
    Rm(Vec<String>),
    Cp(Vec<String>),
    Mv(Vec<String>),
    Pwd,
    /// The sanitised arguments, then the raw ones.
    Cd(Vec<String>, Vec<String>),
    Echo(Vec<String>),
    /// The raw directory names, then the sanitised ones.
    Mkdir(Vec<String>, Vec<String>),
    Exit,
    /// A command that is not built in: spawned as an external process.
    Unknown(String, Vec<String>),
    Cat(Vec<String>),
    Ls(Vec<String>),
    /// Clear the terminal screen.
    Clear,
}

/// The mathematical model of a command: its words as character sequences.
pub enum CommandSpec {
    Rm(Seq<Seq<char>>),
    Cp(Seq<Seq<char>>),
    Mv(Seq<Seq<char>>),
    Pwd,
    Cd(Seq<Seq<char>>, Seq<Seq<char>>),
    Echo(Seq<Seq<char>>),
    Mkdir(Seq<Seq<char>>, Seq<Seq<char>>),
    Exit,
    Unknown(Seq<char>, Seq<Seq<char>>),
    Cat(Seq<Seq<char>>),
    Ls(Seq<Seq<char>>),
    Clear,
}

impl View for CommandEnum {
    type V = CommandSpec;

    open spec fn view(&self) -> CommandSpec {
        match self {
            CommandEnum::Rm(a) => CommandSpec::Rm(views(a@)),
            CommandEnum::Cp(a) => CommandSpec::Cp(views(a@)),
            CommandEnum::Mv(a) => CommandSpec::Mv(views(a@)),
            CommandEnum::Pwd => CommandSpec::Pwd,
            CommandEnum::Cd(a, b) => CommandSpec::Cd(views(a@), views(b@)),
            CommandEnum::Echo(a) => CommandSpec::Echo(views(a@)),
            CommandEnum::Mkdir(a, b) => CommandSpec::Mkdir(views(a@), views(b@)),
            CommandEnum::Exit => CommandSpec::Exit,
            CommandEnum::Unknown(c, a) => CommandSpec::Unknown(c@, views(a@)),
            CommandEnum::Cat(a) => CommandSpec::Cat(views(a@)),
            CommandEnum::Ls(a) => CommandSpec::Ls(views(a@)),
            CommandEnum::Clear => CommandSpec::Clear,
        }
    }
}

/// The outcome of parsing a line: its commands, each with whether it runs only
/// after a success (`&&`), or `Incomplete` when the line needs a continuation.
#[derive(Debug, PartialEq)]
pub enum ParseResult {
    Commands(Vec<(CommandEnum, bool)>),
    Incomplete,
}

/// The model of a parse outcome.
pub enum ParseSpec {
    Commands(Seq<(CommandSpec, bool)>),
    Incomplete,
}

/// The model of a list of parsed commands.
pub open spec fn parsed_view(v: Seq<(CommandEnum, bool)>) -> Seq<(CommandSpec, bool)> {
    v.map_values(|p: (CommandEnum, bool)| (p.0@, p.1))
}

impl View for ParseResult {
    type V = ParseSpec;

    open spec fn view(&self) -> ParseSpec {
        match self {
            ParseResult::Commands(v) => ParseSpec::Commands(parsed_view(v@)),
            ParseResult::Incomplete => ParseSpec::Incomplete,
        }
    }
}

/// Each word sanitised: line feeds written out as `\n`.
pub open spec fn sanitize_all(words: Seq<Seq<char>>) -> Seq<Seq<char>> {
    words.map_values(|w: Seq<char>| sanitize(w))
}

/// The command that a non-empty word list names.
pub open spec fn classify(words: Seq<Seq<char>>) -> CommandSpec {
    let name = words[0];
    let raw = words.drop_first();
    let san = sanitize_all(raw);
    if name == "ls"@ {
        CommandSpec::Ls(san)
    } else if name == "cat"@ {
        CommandSpec::Cat(san)
    } else if name == "cp"@ {
        CommandSpec::Cp(san)
    } else if name == "pwd"@ {
        CommandSpec::Pwd
    } else if name == "cd"@ {
        CommandSpec::Cd(san, raw)
    } else if name == "echo"@ {
        CommandSpec::Echo(raw)
    } else if name == "rm"@ {
        CommandSpec::Rm(san)
    } else if name == "mkdir"@ {
        CommandSpec::Mkdir(raw, san)
    } else if name == "mv"@ {
        CommandSpec::Mv(san)
    } else if name == "exit"@ {
        CommandSpec::Exit
    } else if name == "clear"@ {
        CommandSpec::Clear
    } else {
        CommandSpec::Unknown(name, raw)
    }
}

/// The commands of a tokenized line, in order, without empty word lists.
pub open spec fn spec_commands(tok: Seq<(Seq<Seq<char>>, bool)>) -> Seq<(CommandSpec, bool)>
    decreases tok.len(),
{
    if tok.len() == 0 {
        seq![]
    } else {
        let rest = spec_commands(tok.drop_last());
        let words = tok.last().0;
        if words.len() == 0 {
            rest
        } else {
            rest.push((classify(words), tok.last().1))
        }
    }
}

/// What parsing a whole line gives: the model of `parse_input`.
pub open spec fn spec_parse(input: Seq<char>) -> ParseSpec {
    let t = trim(input);
    if t.len() == 0 {
        ParseSpec::Commands(seq![])
    } else {
        match tokenize(t) {
            None => ParseSpec::Incomplete,
            Some(tok) => ParseSpec::Commands(spec_commands(tok)),
        }
    }
}

/// Whether a word is the given literal.
fn word_is(w: &String, lit: &str) -> (r: bool)
    ensures
        r == (w@ == lit@),
{
    *w == String::from_str(lit)
}

/// Each argument with line feeds written out.
fn sanitize_words(words: &Vec<String>, from: usize) -> (r: Vec<String>)
    requires
        from <= words.len(),
    ensures
        views(r@) == sanitize_all(views(words@).skip(from as int)),
{
    let mut r: Vec<String> = Vec::new();
    let mut i = from;
    while i < words.len()
        invariant
            from <= i <= words.len(),
            views(r@) == sanitize_all(views(words@).subrange(from as int, i as int)),
        decreases words.len() - i,
    {
        let w = sanitize_string(&words[i]);
        proof { lemma_views_push(r@, w); }
        r.push(w);
        assert(views(r@) =~= sanitize_all(views(words@).subrange(from as int, i + 1)));
        i = i + 1;
    }
    assert(views(words@).subrange(from as int, words.len() as int) =~= views(words@).skip(from as int));
    r
}

/// The words from position `from` on.
fn words_from(words: &Vec<String>, from: usize) -> (r: Vec<String>)
    requires
        from <= words.len(),
    ensures
        views(r@) == views(words@).skip(from as int),
{
    let mut r: Vec<String> = Vec::new();
    let mut i = from;
    while i < words.len()
        invariant
            from <= i <= words.len(),
            views(r@) == views(words@).subrange(from as int, i as int),
        decreases words.len() - i,
    {
        let w = words[i].clone();
        proof { lemma_views_push(r@, w); }
        r.push(w);
        assert(views(r@) =~= views(words@).subrange(from as int, i + 1));
        i = i + 1;
    }
    assert(views(words@).subrange(from as int, words.len() as int) =~= views(words@).skip(from as int));
    r
}

/// Parses one input line into commands.
///
/// The line is trimmed; an empty line gives no commands. A line that ends
/// inside quotes or after a backslash is `Incomplete`. Otherwise each command
/// is classified by its first word; the arguments of most built-ins are
/// sanitised (line feeds written out as `\n`).
pub fn parse_input(input: &str) -> (r: ParseResult)
    ensures
        r@ == spec_parse(input@),
{
    let chars = chars_of(input);
    let trimmed = trim_chars(&chars);
    if trimmed.len() == 0 {
        assert(parsed_view(Seq::<(CommandEnum, bool)>::empty()) =~= Seq::<(CommandSpec, bool)>::empty());
        return ParseResult::Commands(Vec::new());
    }
    let line = string_from(&trimmed);
    match parse_tokens(line.as_str()) {
        Err(_) => ParseResult::Incomplete,
        Ok(tokenized) => {
            let ghost tok = commands_view(tokenized@);
            let mut cmds: Vec<(CommandEnum, bool)> = Vec::new();
            let mut i: usize = 0;
            assert(tok.take(0) =~= Seq::<(Seq<Seq<char>>, bool)>::empty());
            assert(parsed_view(cmds@) =~= Seq::<(CommandSpec, bool)>::empty());
            while i < tokenized.len()
                invariant
                    i <= tokenized.len(),
                    tok == commands_view(tokenized@),
                    parsed_view(cmds@) == spec_commands(tok.take(i as int)),
                decreases tokenized.len() - i,
            {
                let ghost pre = tok.take(i as int);
                assert(tok.take(i + 1).drop_last() =~= pre);
                assert(tok.take(i + 1).last() == tok[i as int]);
                let args = &tokenized[i].0;
                let req = tokenized[i].1;
                if args.len() == 0 {
                    i = i + 1;
                    continue;
                }
                let name = &args[0];
                let ghost words = views(args@);
                assert(words.drop_first() =~= words.skip(1));
                let parsed = if word_is(name, "ls") {
                    CommandEnum::Ls(sanitize_words(args, 1))
                } else if word_is(name, "cat") {
                    CommandEnum::Cat(sanitize_words(args, 1))
                } else if word_is(name, "cp") {
                    CommandEnum::Cp(sanitize_words(args, 1))
                } else if word_is(name, "pwd") {
                    CommandEnum::Pwd
                } else if word_is(name, "cd") {
                    CommandEnum::Cd(sanitize_words(args, 1), words_from(args, 1))
                } else if word_is(name, "echo") {
                    CommandEnum::Echo(words_from(args, 1))
                } else if word_is(name, "rm") {
                    CommandEnum::Rm(sanitize_words(args, 1))
                } else if word_is(name, "mkdir") {
                    CommandEnum::Mkdir(words_from(args, 1), sanitize_words(args, 1))
                } else if word_is(name, "mv") {
                    CommandEnum::Mv(sanitize_words(args, 1))
                } else if word_is(name, "exit") {
                    CommandEnum::Exit
                } else if word_is(name, "clear") {
                    CommandEnum::Clear
                } else {
                    CommandEnum::Unknown(name.clone(), words_from(args, 1))
                };
                cmds.push((parsed, req));
                assert(parsed_view(cmds@) =~= spec_commands(tok.take(i + 1)));
                i = i + 1;
            }
            assert(tok.take(tokenized.len() as int) =~= tok);
            ParseResult::Commands(cmds)
        },
    }
}


// ───────────────────────────── running a chain ─────────────────────────────

/// Where the run of a parsed line stands: the next command to consider,
/// whether the last command that ran succeeded, and whether the run is over.
#[derive(Debug, Clone, Copy, PartialEq, Eq, Structural)]
pub struct ChainState {
    pub next: usize,
    pub last_ok: bool,
    pub stopped: bool,
}

impl ChainState {
    /// The state before the first command: nothing ran, which counts as success.
    pub fn new() -> (s: ChainState)
        ensures
            s == chain_start(),
    {
        ChainState { next: 0, last_ok: true, stopped: false }
    }

    /// Records whether the command that just ran succeeded.
    pub fn record(&mut self, ok: bool)
        ensures
            *final(self) == chain_record(*old(self), ok),
    {
        self.last_ok = ok;
    }
}

/// The state before the first command.
pub open spec fn chain_start() -> ChainState {
    ChainState { next: 0, last_ok: true, stopped: false }
}

/// The state after recording an outcome.
pub open spec fn chain_record(st: ChainState, ok: bool) -> ChainState {
    ChainState { last_ok: ok, ..st }
}

/// The "only after success" flags of a parsed line.
pub open spec fn requirements(cmds: Seq<(CommandEnum, bool)>) -> Seq<bool> {
    cmds.map_values(|p: (CommandEnum, bool)| p.1)
}

/// The first command from position `from` on that is not skipped: a
/// command after `&&` is skipped when the last command that ran failed.
/// Skipping a command runs nothing, so the last outcome stays as it was.
pub open spec fn skip_from(reqs: Seq<bool>, from: nat, last_ok: bool) -> nat
    decreases reqs.len() - from,
{
    if from < reqs.len() && reqs[from as int] && !last_ok {
        skip_from(reqs, from + 1, last_ok)
    } else {
        from
    }
}

/// One decision: the index of the command to run next and the new state, or
/// `None` when the line is done. Commands after `&&` are skipped while the
/// last command that ran failed; commands after `;` or `&` always run.
pub open spec fn chain_step(reqs: Seq<bool>, st: ChainState) -> (Option<nat>, ChainState) {
    let n = skip_from(reqs, st.next as nat, st.last_ok);
    if st.stopped || n >= reqs.len() {
        (None, ChainState { stopped: true, ..st })
    } else {
        (Some(n), ChainState { next: (n + 1) as usize, ..st })
    }
}

/// Where the first command not skipped lies: at or after `from`, within the
/// line, and every command between is skipped.
proof fn lemma_skip_from(reqs: Seq<bool>, from: nat, last_ok: bool)
    requires
        from <= reqs.len(),
    ensures
        from <= skip_from(reqs, from, last_ok) <= reqs.len(),
        skip_from(reqs, from, last_ok) < reqs.len() ==> !(reqs[skip_from(reqs, from, last_ok) as int]
            && !last_ok),
    decreases reqs.len() - from,
{
    if from < reqs.len() && reqs[from as int] && !last_ok {
        lemma_skip_from(reqs, from + 1, last_ok);
    }
}

/// Decides which command of a parsed line runs next, honouring `&&`: a
/// command that follows `&&` runs only if the last command that ran
/// succeeded, and is skipped otherwise; commands after `;` and `&` always
/// run. The caller runs the command at the returned index and records its
/// outcome with [`ChainState::record`]; `None` means the line is done.
pub fn execute_all(cmds: &Vec<(CommandEnum, bool)>, state: &mut ChainState) -> (r: Option<usize>)
    requires
        old(state).next <= cmds.len(),
    ensures
        (match r {
            Some(i) => Some(i as nat),
            None => None,
        }) == chain_step(requirements(cmds@), *old(state)).0,
        *final(state) == chain_step(requirements(cmds@), *old(state)).1,
        final(state).next <= cmds.len(),
{
    let ghost reqs = requirements(cmds@);
    proof { lemma_skip_from(reqs, state.next as nat, state.last_ok); }
    let mut n = state.next;
    while n < cmds.len() && cmds[n].1 && !state.last_ok
        invariant
            old(state).next <= n <= cmds.len(),
            *state == *old(state),
            reqs == requirements(cmds@),
            skip_from(reqs, n as nat, state.last_ok) == skip_from(reqs, old(state).next as nat, state.last_ok),
        decreases cmds.len() - n,
    {
        assert(reqs[n as int] == cmds@[n as int].1);
        n = n + 1;
    }
    assert(n < cmds.len() ==> reqs[n as int] == cmds@[n as int].1);
    if state.stopped || n >= cmds.len() {
        state.stopped = true;
        None
    } else {
        state.next = n + 1;
        Some(n)
    }
}

/// The indices of the commands that run, from position `from` on, when the
/// last command that ran before it succeeded exactly when `last_ok`, and
/// command `i` succeeds exactly when `outcomes[i]`: a command after `&&`
/// runs only after a success, any other command always runs.
pub open spec fn runs_from(reqs: Seq<bool>, outcomes: Seq<bool>, from: nat, last_ok: bool) -> Seq<nat>
    decreases reqs.len() - from,
{
    if from >= reqs.len() {
        seq![]
    } else if reqs[from as int] && !last_ok {
        runs_from(reqs, outcomes, from + 1, last_ok)
    } else {
        seq![from] + runs_from(reqs, outcomes, from + 1, outcomes[from as int])
    }
}

/// The indices that `execute_all` hands out, in order, when command `i`
/// succeeds exactly when `outcomes[i]`.
pub open spec fn chain_runs(reqs: Seq<bool>, outcomes: Seq<bool>, st: ChainState) -> Seq<nat>
    decreases reqs.len() - st.next, if st.stopped { 0int } else { 1int },
{
    let (r, next) = chain_step(reqs, st);
    match r {
        None => seq![],
        Some(i) => if i < outcomes.len() && next.next > st.next {
            seq![i] + chain_runs(reqs, outcomes, chain_record(next, outcomes[i as int]))
        } else {
            seq![]
        },
    }
}

/// From any position, the commands skipped before the next one that runs
/// change nothing.
proof fn lemma_runs_skip(reqs: Seq<bool>, outcomes: Seq<bool>, from: nat, last_ok: bool)
    requires
        from <= reqs.len(),
    ensures
        runs_from(reqs, outcomes, from, last_ok) == runs_from(
            reqs,
            outcomes,
            skip_from(reqs, from, last_ok),
            last_ok,
        ),
    decreases reqs.len() - from,
{
    if from < reqs.len() && reqs[from as int] && !last_ok {
        lemma_runs_skip(reqs, outcomes, from + 1, last_ok);
    }
}

/// `execute_all` hands out exactly the commands of `runs_from`.
proof fn lemma_chain_runs_from(reqs: Seq<bool>, outcomes: Seq<bool>, from: nat, last_ok: bool)
    requires
        outcomes.len() == reqs.len(),
        reqs.len() < usize::MAX,
        from <= reqs.len(),
    ensures
        chain_runs(reqs, outcomes, ChainState { next: from as usize, last_ok, stopped: false })
            == runs_from(reqs, outcomes, from, last_ok),
    decreases reqs.len() - from,
{
    let st = ChainState { next: from as usize, last_ok, stopped: false };
    lemma_skip_from(reqs, from, last_ok);
    lemma_runs_skip(reqs, outcomes, from, last_ok);
    let n = skip_from(reqs, from, last_ok);
    if n < reqs.len() {
        lemma_chain_runs_from(reqs, outcomes, n + 1, outcomes[n as int]);
        let next = ChainState { next: (n + 1) as usize, last_ok, stopped: false };
        assert(chain_step(reqs, st) == (Some(n), next));
        assert(chain_record(next, outcomes[n as int]) == ChainState {
            next: (n + 1) as usize,
            last_ok: outcomes[n as int],
            stopped: false,
        });
    }
}

/// The commands that run lie within the line, in increasing order.
proof fn lemma_runs_order(reqs: Seq<bool>, outcomes: Seq<bool>, from: nat, last_ok: bool)
    ensures
        forall|k: int|
            0 <= k < runs_from(reqs, outcomes, from, last_ok).len() ==> from <= #[trigger] runs_from(
                reqs,
                outcomes,
                from,
                last_ok,
            )[k] < reqs.len(),
        forall|k: int, l: int|
            0 <= k < l < runs_from(reqs, outcomes, from, last_ok).len() ==> #[trigger] runs_from(
                reqs,
                outcomes,
                from,
                last_ok,
            )[k] < #[trigger] runs_from(reqs, outcomes, from, last_ok)[l],
    decreases reqs.len() - from,
{
    if from < reqs.len() {
        if reqs[from as int] && !last_ok {
            lemma_runs_order(reqs, outcomes, from + 1, last_ok);
            let r = runs_from(reqs, outcomes, from + 1, last_ok);
            assert(runs_from(reqs, outcomes, from, last_ok) == r);
            assert forall|k: int| 0 <= k < r.len() implies from <= #[trigger] r[k] < reqs.len() by {
            }
        } else {
            let rest = runs_from(reqs, outcomes, from + 1, outcomes[from as int]);
            lemma_runs_order(reqs, outcomes, from + 1, outcomes[from as int]);
            let r = seq![from] + rest;
            assert(runs_from(reqs, outcomes, from, last_ok) == r);
            assert forall|k: int| 0 <= k < r.len() implies from <= #[trigger] r[k] < reqs.len() by {
                if k > 0 {
                    assert(r[k] == rest[k - 1]);
                }
            }
            assert forall|k: int, l: int| 0 <= k < l < r.len() implies #[trigger] r[k] < #[trigger] r[l] by {
                assert(r[l] == rest[l - 1]);
                if k > 0 {
                    assert(r[k] == rest[k - 1]);
                }
            }
        }
    }
}

/// Every command not after `&&` runs.
proof fn lemma_runs_unconditional(reqs: Seq<bool>, outcomes: Seq<bool>, from: nat, last_ok: bool, i: nat)
    requires
        from <= i < reqs.len(),
        !reqs[i as int],
    ensures
        runs_from(reqs, outcomes, from, last_ok).contains(i),
    decreases i - from,
{
    if from == i {
        assert(runs_from(reqs, outcomes, from, last_ok)[0] == i);
    } else if reqs[from as int] && !last_ok {
        lemma_runs_unconditional(reqs, outcomes, from + 1, last_ok, i);
    } else {
        let rest = runs_from(reqs, outcomes, from + 1, outcomes[from as int]);
        lemma_runs_unconditional(reqs, outcomes, from + 1, outcomes[from as int], i);
        let k = choose|k: int| 0 <= k < rest.len() && rest[k] == i;
        assert((seq![from] + rest)[k + 1] == i);
    }
}

/// Law of chaining: the commands of a line run in order, each at most once:
/// a command after `;` or `&` always runs, and a command after `&&` runs
/// exactly when the last command that ran before it succeeded (a skipped
/// command does not count as having run).
pub proof fn lemma_chain_runs(reqs: Seq<bool>, outcomes: Seq<bool>)
    requires
        outcomes.len() == reqs.len(),
        reqs.len() < usize::MAX,
    ensures
        chain_runs(reqs, outcomes, chain_start()) == runs_from(reqs, outcomes, 0, true),
        forall|k: int, l: int|
            0 <= k < l < chain_runs(reqs, outcomes, chain_start()).len() ==> #[trigger] chain_runs(
                reqs,
                outcomes,
                chain_start(),
            )[k] < #[trigger] chain_runs(reqs, outcomes, chain_start())[l],
        forall|k: int|
            0 <= k < chain_runs(reqs, outcomes, chain_start()).len() ==> #[trigger] chain_runs(
                reqs,
                outcomes,
                chain_start(),
            )[k] < reqs.len(),
        forall|i: int|
            0 <= i < reqs.len() && !reqs[i] ==> #[trigger] chain_runs(reqs, outcomes, chain_start()).contains(
                i as nat,
            ),
{
    lemma_chain_runs_from(reqs, outcomes, 0, true);
    lemma_runs_order(reqs, outcomes, 0, true);
    assert forall|i: int| 0 <= i < reqs.len() && !reqs[i] implies #[trigger] chain_runs(
        reqs,
        outcomes,
        chain_start(),
    ).contains(i as nat) by {
        lemma_runs_unconditional(reqs, outcomes, 0, true, i as nat);
    }
}

} // verus!
