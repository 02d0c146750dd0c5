//! The greeting printed when the shell starts.
use vstd::prelude::*;
use crate::ls::spaces;
use vstd::string::StringSliceAdditionalSpecFns;

verus! {

pub const RESET: &'static str = "\x1b[0m";

pub const NEON_BLUE: &'static str = "\x1b[38;2;0;180;255m";

pub const DIM: &'static str = "\x1b[2m";

pub const BANNER: &'static str = r#"
  ███╗   ███╗ █████╗  ██████╗       ███████╗██╗  ██╗███████╗██╗     ██╗
  ████╗ ████║██╔══██╗██╔════╝       ██╔════╝██║  ██║██╔════╝██║     ██║
  ██╔████╔██║███████║██║      █████╗███████╗███████║█████╗  ██║     ██║
  ██║╚██╔╝██║██╔══██║██║      ╚════╝╚════██║██╔══██║██╔══╝  ██║     ██║
  ██║ ╚═╝ ██║██║  ██║╚██████        ███████║██║  ██║███████╗███████╗███████╗
  ╚═╝     ╚═╝╚═╝  ╚═╝ ╚═════╝       ╚══════╝╚═╝  ╚═╝╚══════╝╚══════╝╚══════╝
"#;

pub const HINT: &'static str = "  Type a command to get started. Use Ctrl+D or 'exit' to quit.\n";

/// `s` centred in `w` characters, as `{:^w$}` writes it: the extra room is
/// split with the smaller half on the left.
pub open spec fn center(s: Seq<char>, w: nat) -> Seq<char> {
    if s.len() < w {
        let pad = (w - s.len()) as nat;
        spaces(pad / 2) + s + spaces((pad - pad / 2) as nat)
    } else {
        s
    }
}

/// Appends `n` spaces to a string.
fn push_spaces(s: &mut String, n: usize)
    ensures
        final(s)@ == old(s)@ + spaces(n as nat),
{
    let mut i: usize = 0;
    while i < n
        invariant
            i <= n,
            s@ == old(s)@ + spaces(i as nat),
        decreases n - i,
    {
        crate::text::push_char(s, ' ');
        assert(old(s)@ + spaces((i + 1) as nat) =~= old(s)@ + spaces(i as nat) + seq![' ']);
        i = i + 1;
    }
}

/// Centres a string in `w` characters.
pub fn centered(s: &str, w: usize) -> (r: String)
    ensures
        r@ == center(s@, w as nat),
{
    let n = s.unicode_len();
    if n < w {
        let pad = w - n;
        let mut r = String::new();
        push_spaces(&mut r, pad / 2);
        r.append(s);
        push_spaces(&mut r, pad - pad / 2);
        assert(r@ =~= center(s@, w as nat));
        r
    } else {
        String::from_str(s)
    }
}

/// The subtitle under the banner: "Go for it!" and a line feed, after as
/// many spaces as centre it in sixty columns by its byte length.
pub fn get_centered_subtitle() -> (r: String)
    ensures
        r@ == spaces(24) + "Go for it!\n"@,
{
    let subtitle = "Go for it!\n";
    proof {
        reveal_strlit("Go for it!\n");
        broadcast use vstd::string::is_ascii_spec_bytes;
        assert(vstd::string::is_ascii(subtitle));
        assert(subtitle.spec_bytes().len() == 11);
    }
    let banner_width: usize = 60;
    let padding = (banner_width - subtitle.len()) / 2;
    assert(padding == 24);
    let mut r = String::new();
    push_spaces(&mut r, padding);
    r.append(subtitle);
    r
}

/// The greeting: the banner in neon blue, the subtitle centred in sixty
/// columns and the hint, both dimmed, each on its own line.
pub fn welcome() -> (r: String)
    ensures
        r@ == NEON_BLUE@ + BANNER@ + RESET@ + seq!['\n'] + DIM@ + center(spaces(24) + "Go for it!\n"@, 60)
            + RESET@ + seq!['\n'] + DIM@ + HINT@ + RESET@ + seq!['\n'],
{
    let sub = get_centered_subtitle();
    let mut r = String::new();
    r.append(NEON_BLUE);
    r.append(BANNER);
    r.append(RESET);
    crate::text::push_char(&mut r, '\n');
    r.append(DIM);
    r.append(centered(sub.as_str(), 60).as_str());
    r.append(RESET);
    crate::text::push_char(&mut r, '\n');
    r.append(DIM);
    r.append(HINT);
    r.append(RESET);
    crate::text::push_char(&mut r, '\n');
    r
}

} // verus!
