//! Human-readable formatting for the table and status lines.
use crate::text;
use crate::text::{chars_of, push_dec_padded, string_of};
use vstd::prelude::*;

verus! {

/// Elapsed seconds as `HH:MM:SS`.
pub open spec fn hms(total: nat) -> Seq<char> {
    text::dec2(total / 3600) + ":"@ + text::dec2((total % 3600) / 60) + ":"@ + text::dec2(
        total % 60,
    )
}

/// Elapsed seconds as `HH:MM:SS`.
pub fn fmt_hms(total: u64) -> (r: String)
    ensures
        r@ == hms(total as nat),
{
    let mut out: String = String::new();
    push_dec_padded(&mut out, total / 3600, 2);
    out.append(":");
    push_dec_padded(&mut out, (total % 3600) / 60, 2);
    out.append(":");
    push_dec_padded(&mut out, total % 60, 2);
    assert(out@ =~= hms(total as nat));
    out
}

// ---- Trailing zeros -------------------------------------------------------------------------

/// The size of a text in bytes.
pub open spec fn size(s: Seq<char>) -> nat {
    vstd::utf8::encode_utf8(s).len()
}

/// The place of the first decimal point, or the end of the text.
pub open spec fn point(s: Seq<char>) -> int
    decreases s.len(),
{
    if s.len() == 0 || s[0] == '.' {
        0
    } else {
        1 + point(s.drop_first())
    }
}

/// A text without trailing zeros, but no shorter than `floor` bytes.
pub open spec fn without_zeros(s: Seq<char>, floor: nat) -> Seq<char>
    decreases s.len(),
{
    if s.len() > 0 && size(s) > floor && s.last() == '0' {
        without_zeros(s.drop_last(), floor)
    } else {
        s
    }
}

/// A number without trailing zeros, but with at least `decimals` decimals. One
/// without a decimal point stays as it is.
pub open spec fn zeros_trimmed(s: Seq<char>, decimals: nat) -> Seq<char> {
    if point(s) == s.len() {
        s
    } else {
        without_zeros(s, size(s.take(point(s))) + 1 + decimals)
    }
}

/// Encoding goes character by character.
proof fn lemma_size_push(s: Seq<char>, c: char)
    ensures
        size(s.push(c)) == size(s) + vstd::utf8::encode_scalar(c as u32).len(),
    decreases s.len(),
{
    if s.len() == 0 {
        assert(s.push(c).drop_first() =~= Seq::empty());
        assert(vstd::utf8::encode_utf8(Seq::<char>::empty()).len() == 0);
    } else {
        lemma_size_push(s.drop_first(), c);
        assert(s.push(c).drop_first() =~= s.drop_first().push(c));
    }
}

/// The size of a character in bytes.
fn char_size(c: char) -> (r: usize)
    ensures
        r == vstd::utf8::encode_scalar(c as u32).len(),
{
    broadcast use vstd::utf8::char_is_scalar;

    let n: u32 = c as u32;
    if n <= 0x7f {
        1
    } else if n <= 0x7ff {
        2
    } else if n <= 0xffff {
        3
    } else {
        4
    }
}

proof fn lemma_size_take(s: Seq<char>, i: int)
    requires
        0 <= i < s.len(),
    ensures
        size(s.take(i + 1)) == size(s.take(i)) + vstd::utf8::encode_scalar(s[i] as u32).len(),
{
    assert(s.take(i + 1) =~= s.take(i).push(s[i]));
    lemma_size_push(s.take(i), s[i]);
}

proof fn lemma_size_grows(s: Seq<char>, i: int)
    requires
        0 <= i <= s.len(),
    ensures
        size(s.take(i)) <= size(s),
    decreases s.len() - i,
{
    if i < s.len() {
        lemma_size_take(s, i);
        lemma_size_grows(s, i + 1);
    } else {
        assert(s.take(i) =~= s);
    }
}

/// Where the decimal point is, seen from the first `n` characters.
proof fn lemma_point(s: Seq<char>, n: int)
    requires
        0 <= n <= s.len(),
        forall|i: int| 0 <= i < n ==> s[i] != '.',
    ensures
        point(s) >= n,
        n < s.len() && s[n] == '.' ==> point(s) == n,
        point(s) <= s.len(),
    decreases s.len(),
{
    if n > 0 {
        assert forall|i: int| 0 <= i < n - 1 implies s.drop_first()[i] != '.' by {
            assert(s.drop_first()[i] == s[i + 1]);
        }
        lemma_point(s.drop_first(), n - 1);
    } else if s.len() > 0 {
        lemma_point(s.drop_first(), 0);
    }
}

/// Drop trailing zeros, never going below `min_decimals` decimal places.
pub fn trim_trailing_zeros(s: &str, min_decimals: usize) -> (r: String)
    ensures
        r@ == zeros_trimmed(s@, min_decimals as nat),
{
    let cs: Vec<char> = chars_of(s);
    let total: usize = s.as_bytes().len();
    let mut head: usize = 0;
    let mut dot: usize = 0;
    assert(cs@.take(0) =~= Seq::empty());
    assert(cs@ == s@);
    while dot < cs.len() && cs[dot] != '.'
        invariant
            dot <= cs@.len(),
            total == size(cs@),
            head == size(cs@.take(dot as int)),
            forall|i: int| 0 <= i < dot ==> cs@[i] != '.',
        decreases cs@.len() - dot,
    {
        proof {
            lemma_size_take(cs@, dot as int);
            lemma_size_grows(cs@, dot + 1);
        }
        head = head + char_size(cs[dot]);
        dot += 1;
    }
    proof {
        lemma_point(cs@, dot as int);
    }
    if dot == cs.len() {
        return s.to_owned();
    }
    let ghost floor = head + 1 + min_decimals as nat;
    let mut len: usize = total;
    let mut end: usize = cs.len();
    assert(cs@.take(end as int) =~= cs@);
    while end > 0 && len > head && len - head - 1 > min_decimals && cs[end - 1] == '0'
        invariant
            end <= cs@.len(),
            len == size(cs@.take(end as int)),
            floor == head + 1 + min_decimals,
            without_zeros(cs@.take(end as int), floor as nat) == without_zeros(cs@, floor as nat),
        decreases end,
    {
        proof {
            lemma_size_take(cs@, end - 1);
            assert(cs@.take(end as int).drop_last() =~= cs@.take(end - 1));
            assert(vstd::utf8::encode_scalar('0' as u32).len() == 1);
        }
        len = len - 1;
        end = end - 1;
    }
    let out: String = string_of(cs.as_slice(), 0, end);
    assert(out@ =~= cs@.take(end as int));
    out
}

/// Trimming drops nothing but zeros.
pub proof fn law_only_zeros_are_trimmed(s: Seq<char>, decimals: nat)
    ensures
        exists|n: nat| s == zeros_trimmed(s, decimals) + #[trigger] text::run('0', n),
{
    if point(s) == s.len() {
        assert(s =~= s + text::run('0', 0));
    } else {
        lemma_only_zeros(s, size(s.take(point(s))) + 1 + decimals);
    }
}

proof fn lemma_only_zeros(s: Seq<char>, floor: nat)
    ensures
        exists|n: nat| s == without_zeros(s, floor) + #[trigger] text::run('0', n),
    decreases s.len(),
{
    if s.len() > 0 && size(s) > floor && s.last() == '0' {
        lemma_only_zeros(s.drop_last(), floor);
        let n = choose|n: nat|
            s.drop_last() == without_zeros(s.drop_last(), floor) + #[trigger] text::run('0', n);
        assert(s =~= s.drop_last().push('0'));
        assert(text::run('0', n + 1) =~= text::run('0', n).push('0'));
        assert(s =~= without_zeros(s, floor) + text::run('0', n + 1));
    } else {
        assert(s =~= s + text::run('0', 0));
    }
}

} // verus!
