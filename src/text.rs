//! Fitting text into fixed-width columns, where a character outside the
//! basic multilingual plane (an emoji, mostly) takes two columns.

use vstd::prelude::*;

verus! {

/// Columns taken by one character: two for those that need four bytes in
/// UTF-8, one for the rest.
pub open spec fn char_width(c: char) -> nat {
    if c as u32 >= 0x10000 {
        2
    } else {
        1
    }
}

/// Columns taken by a text.
pub open spec fn width_of(s: Seq<char>) -> nat
    decreases s.len(),
{
    if s.len() == 0 {
        0
    } else {
        width_of(s.drop_last()) + char_width(s.last())
    }
}

/// `n` copies of `c`.
pub open spec fn repeated(c: char, n: nat) -> Seq<char> {
    Seq::new(n, |i: int| c)
}

/// A text cut to at most `max` characters: unchanged when it fits; only dots
/// when `max` leaves no room for more; else its first `max - 3` characters
/// and three dots.
pub open spec fn truncated(s: Seq<char>, max: nat) -> Seq<char> {
    if s.len() <= max {
        s
    } else if max <= 3 {
        repeated('.', max)
    } else {
        s.subrange(0, max - 3) + repeated('.', 3)
    }
}

/// A text padded with spaces on the right to `target` columns; unchanged
/// when it already takes as many.
pub open spec fn padded(s: Seq<char>, target: nat) -> Seq<char> {
    if width_of(s) >= target {
        s
    } else {
        s + repeated(' ', (target - width_of(s)) as nat)
    }
}

/// Appends `n` copies of `c` to `s`.
fn push_repeated(s: &mut String, c: &str, n: usize)
    requires
        c@.len() == 1,
    ensures
        final(s)@ == old(s)@ + repeated(c@[0], n as nat),
{
    let mut i: usize = 0;
    while i < n
        invariant
            c@.len() == 1,
            i <= n,
            s@ == old(s)@ + repeated(c@[0], i as nat),
        decreases n - i,
    {
        s.append(c);
        i = i + 1;
        assert(s@ =~= old(s)@ + repeated(c@[0], i as nat));
    }
}

/// Cuts a text to at most `max_width` characters, marking a cut with dots.
pub fn truncate_to_width(s: &str, max_width: usize) -> (r: String)
    ensures
        r@ == truncated(s@, max_width as nat),
{
    let n = s.unicode_len();
    if n <= max_width {
        s.to_owned()
    } else if max_width <= 3 {
        let mut r = String::new();
        proof {
            reveal_strlit(".");
        }
        push_repeated(&mut r, ".", max_width);
        assert(r@ =~= repeated('.', max_width as nat));
        r
    } else {
        let mut r = s.substring_char(0, max_width - 3).to_owned();
        proof {
            reveal_strlit(".");
        }
        push_repeated(&mut r, ".", 3);
        r
    }
}

/// The number of columns a text takes.
pub fn display_width(s: &str) -> (r: usize)
    requires
        width_of(s@) <= usize::MAX,
    ensures
        r == width_of(s@),
{
    let n = s.unicode_len();
    let mut width: usize = 0;
    let mut i: usize = 0;
    while i < n
        invariant
            n == s@.len(),
            i <= n,
            width == width_of(s@.subrange(0, i as int)),
            width_of(s@) <= usize::MAX,
        decreases n - i,
    {
        let c = s.get_char(i);
        proof {
            let pre = s@.subrange(0, i as int + 1);
            assert(pre.drop_last() =~= s@.subrange(0, i as int));
            lemma_width_prefix(s@, i as int + 1);
        }
        if c as u32 >= 0x10000 {
            width = width + 2;
        } else {
            width = width + 1;
        }
        i = i + 1;
    }
    assert(s@.subrange(0, n as int) =~= s@);
    width
}

/// A prefix takes no more columns than the whole text.
proof fn lemma_width_prefix(s: Seq<char>, k: int)
    requires
        0 <= k <= s.len(),
    ensures
        width_of(s.subrange(0, k)) <= width_of(s),
    decreases s.len() - k,
{
    if k < s.len() {
        lemma_width_prefix(s, k + 1);
        assert(s.subrange(0, k + 1).drop_last() =~= s.subrange(0, k));
    } else {
        assert(s.subrange(0, k) =~= s);
    }
}

/// Pads a text with spaces on the right to `target_width` columns.
pub fn pad_to_width(s: &str, target_width: usize) -> (r: String)
    requires
        width_of(s@) <= usize::MAX,
    ensures
        r@ == padded(s@, target_width as nat),
{
    let current = display_width(s);
    let mut r = s.to_owned();
    if current < target_width {
        proof {
            reveal_strlit(" ");
        }
        push_repeated(&mut r, " ", target_width - current);
    }
    r
}

} // verus!
