//! Text formatting utilities: truncation with an ellipsis, terminal
//! styling, and padding helpers for the timeline column.

use vstd::prelude::*;

verus! {

/// What `truncate` returns: `s` unchanged when it fits within `max_len`
/// characters or when `max_len` leaves no room for an ellipsis, else the
/// first `max_len - 3` characters of `s` followed by `"..."` — exactly
/// `max_len` characters in all.
pub open spec fn spec_truncate(s: Seq<char>, max_len: int) -> Seq<char> {
    if s.len() > max_len && max_len > 3 {
        s.subrange(0, max_len - 3) + seq!['.', '.', '.']
    } else {
        s
    }
}

/// Truncation bound: for `max_len > 3` the result never exceeds
/// `max_len` characters, and a string that had to be cut comes out at
/// exactly `max_len`.
pub proof fn lemma_truncate_bound(s: Seq<char>, max_len: int)
    requires
        max_len > 3,
    ensures
        spec_truncate(s, max_len).len() <= max_len,
        s.len() > max_len ==> spec_truncate(s, max_len).len() == max_len,
{
}

/// Shortens `s` to at most `max_len` characters, marking the cut with an
/// ellipsis.  With `max_len <= 3` there is no room for the ellipsis and
/// `s` comes back whole, however long it is.
pub fn truncate(s: &str, max_len: usize) -> (r: String)
    ensures
        r@ == spec_truncate(s@, max_len as int),
{
    let len = s.unicode_len();
    if len > max_len && max_len > 3 {
        let head = s.substring_char(0, max_len - 3);
        let r = head.to_owned().concat("...");
        proof {
            reveal_strlit("...");
            assert(r@ =~= spec_truncate(s@, max_len as int));
        }
        r
    } else {
        s.to_owned()
    }
}

/// The styling prefix that switches the terminal to light gray.
pub open spec fn gray_prefix() -> Seq<char> {
    "\x1b[38;5;255m"@
}

/// The styling suffix that resets the terminal's colors.
pub open spec fn style_reset() -> Seq<char> {
    "\x1b[0m"@
}

/// What `gray` returns: `s` wrapped in the gray styling codes.
pub open spec fn spec_gray(s: Seq<char>) -> Seq<char> {
    gray_prefix() + s + style_reset()
}

/// Wraps `s` in the terminal styling codes for a light gray (dimmed)
/// rendering.
pub fn gray(s: &str) -> (r: String)
    ensures
        r@ == spec_gray(s@),
{
    let mut head = String::new();
    head.append("\x1b[38;5;255m");
    head.append(s);
    let r = head.concat("\x1b[0m");
    proof {
        assert(r@ =~= spec_gray(s@));
    }
    r
}

/// A run of `n` identical characters.
pub open spec fn char_run(c: char, n: int) -> Seq<char> {
    Seq::new(n as nat, |i: int| c)
}

/// A string of `n` spaces.
pub fn spaces(n: usize) -> (r: String)
    ensures
        r@ == char_run(' ', n as int),
{
    let mut r = String::new();
    let mut i: usize = 0;
    proof {
        assert(r@ =~= char_run(' ', 0));
    }
    while i < n
        invariant
            i <= n,
            r@ == char_run(' ', i as int),
        decreases n - i,
    {
        r.append(" ");
        proof {
            reveal_strlit(" ");
            assert(r@ =~= char_run(' ', i as int + 1));
        }
        i += 1;
    }
    r
}

/// Appends a run of `n` copies of the solid fill glyph to `out`.
pub fn append_solid_run(out: &mut String, n: usize)
    ensures
        final(out)@ == old(out)@ + char_run('\u{2593}', n as int),
{
    let mut i: usize = 0;
    proof {
        assert(out@ =~= old(out)@ + char_run('\u{2593}', 0));
    }
    while i < n
        invariant
            i <= n,
            out@ == old(out)@ + char_run('\u{2593}', i as int),
        decreases n - i,
    {
        out.append("\u{2593}");
        proof {
            reveal_strlit("\u{2593}");
            assert(out@ =~= old(out)@ + char_run('\u{2593}', i as int + 1));
        }
        i += 1;
    }
}

} // verus!
