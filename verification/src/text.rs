//! Text building blocks: numbers as digits, padding, joining, splitting.
//!
//! A string is modelled by the sequence of its characters, so every contract
//! here is stated over `Seq<char>`.
use vstd::prelude::*;

verus! {

/// `String::push` appends exactly the given character.
pub assume_specification[ String::push ](s: &mut String, c: char)
    ensures
        final(s)@ == old(s)@.push(c),
;

/// A run of `n` copies of `c`.
pub open spec fn run(c: char, n: nat) -> Seq<char> {
    Seq::new(n, |i: int| c)
}

/// The character for a digit below sixteen, letters in upper case.
pub open spec fn digit(d: nat) -> char {
    if d < 10 {
        (48 + d) as char
    } else {
        (55 + d) as char
    }
}

/// `n` in base `base` without leading zeros.
pub open spec fn numeral(n: nat, base: nat) -> Seq<char>
    decreases n,
{
    if n < base || base < 2 {
        seq![digit(n)]
    } else {
        proof {
            assert(n / base < n) by (nonlinear_arith)
                requires
                    n >= base,
                    base >= 2,
            ;
        }
        numeral((n / base) as nat, base).push(digit((n % base) as nat))
    }
}

/// `n` in decimal.
pub open spec fn dec(n: nat) -> Seq<char> {
    numeral(n, 10)
}

/// `s` brought to at least `width` characters by leading zeros.
pub open spec fn zero_filled(s: Seq<char>, width: nat) -> Seq<char> {
    if s.len() >= width {
        s
    } else {
        run('0', (width - s.len()) as nat) + s
    }
}

/// `n` in decimal, zero-filled to two digits.
pub open spec fn dec2(n: nat) -> Seq<char> {
    zero_filled(dec(n), 2)
}

/// A sixteen-bit value as `0x` and four upper-case hex digits.
pub open spec fn hex4(v: u16) -> Seq<char> {
    "0x"@ + zero_filled(numeral(v as nat, 16), 4)
}

/// The items with `sep` between neighbours.
pub open spec fn joined(items: Seq<Seq<char>>, sep: Seq<char>) -> Seq<char>
    decreases items.len(),
{
    if items.len() == 0 {
        Seq::empty()
    } else if items.len() == 1 {
        items[0]
    } else {
        joined(items.drop_last(), sep) + sep + items.last()
    }
}

/// The character sequences of a list of strings.
pub open spec fn texts(v: Seq<String>) -> Seq<Seq<char>> {
    Seq::new(v.len(), |i: int| v[i]@)
}

/// Appending a string appends its text.
pub broadcast proof fn lemma_texts_push(v: Seq<String>, s: String)
    ensures
        #[trigger] texts(v.push(s)) == texts(v).push(s@),
{
    assert(texts(v.push(s)) =~= texts(v).push(s@));
}

pub fn digit_char(d: u64) -> (c: char)
    requires
        d < 16,
    ensures
        c == digit(d as nat),
{
    if d < 10 {
        (48 + d as u8) as char
    } else {
        (55 + d as u8) as char
    }
}

/// Append `n` in the given base.
pub fn push_numeral(out: &mut String, n: u64, base: u64)
    requires
        2 <= base <= 16,
    ensures
        final(out)@ == old(out)@ + numeral(n as nat, base as nat),
    decreases n,
{
    if n < base {
        out.push(digit_char(n));
        assert(out@ =~= old(out)@ + numeral(n as nat, base as nat));
    } else {
        assert(n / base < n) by (nonlinear_arith)
            requires
                n >= base,
                base >= 2,
        ;
        assert(n % base < base) by (nonlinear_arith)
            requires
                base >= 2,
        ;
        push_numeral(out, n / base, base);
        out.push(digit_char(n % base));
        assert(out@ =~= old(out)@ + numeral(n as nat, base as nat));
    }
}

/// `n` in decimal.
pub fn decimal(n: u64) -> (r: String)
    ensures
        r@ == dec(n as nat),
{
    let mut out: String = String::new();
    push_numeral(&mut out, n, 10);
    assert(out@ =~= dec(n as nat));
    out
}

/// Append `n` copies of `c`.
pub fn push_run(out: &mut String, c: char, n: usize)
    ensures
        final(out)@ == old(out)@ + run(c, n as nat),
{
    let mut i: usize = 0;
    assert(out@ =~= old(out)@ + run(c, 0));
    while i < n
        invariant
            i <= n,
            out@ == old(out)@ + run(c, i as nat),
        decreases n - i,
    {
        out.push(c);
        assert(out@ =~= old(out)@ + run(c, (i + 1) as nat));
        i += 1;
    }
}

/// A string of `n` copies of `c`.
pub fn repeated(c: char, n: usize) -> (r: String)
    ensures
        r@ == run(c, n as nat),
{
    let mut out: String = String::new();
    push_run(&mut out, c, n);
    assert(out@ =~= run(c, n as nat));
    out
}

/// Append `s` zero-filled to `width` characters.
pub fn push_zero_filled(out: &mut String, s: &str, width: usize)
    ensures
        final(out)@ == old(out)@ + zero_filled(s@, width as nat),
{
    let len: usize = s.unicode_len();
    if len < width {
        push_run(out, '0', width - len);
        out.append(s);
        assert(out@ =~= old(out)@ + zero_filled(s@, width as nat));
    } else {
        out.append(s);
    }
}

/// Append `n` in decimal, zero-filled to `width` digits.
pub fn push_dec_padded(out: &mut String, n: u64, width: usize)
    ensures
        final(out)@ == old(out)@ + zero_filled(dec(n as nat), width as nat),
{
    let d: String = decimal(n);
    push_zero_filled(out, d.as_str(), width);
}

/// `0x` and four upper-case hex digits.
pub fn hex_u16(v: u16) -> (r: String)
    ensures
        r@ == hex4(v),
{
    let mut digits: String = String::new();
    push_numeral(&mut digits, v as u64, 16);
    assert(digits@ =~= numeral(v as nat, 16));
    let mut out: String = "0x".to_owned();
    push_zero_filled(&mut out, digits.as_str(), 4);
    out
}

/// Whether two string slices hold the same text.
pub fn same_str(a: &str, b: &str) -> (r: bool)
    ensures
        r == (a@ == b@),
{
    a.to_owned() == b.to_owned()
}

/// The characters of a string slice.
pub fn chars_of(s: &str) -> (r: Vec<char>)
    ensures
        r@ == s@,
{
    let mut out: Vec<char> = Vec::new();
    for c in it: s.chars()
        invariant
            it.seq() == s@,
            out@ == it.seq().take(it.index() as int),
    {
        let ghost before = out@;
        out.push(c);
        assert(out@ =~= it.seq().take(it.index() + 1));
    }
    assert(out@ =~= s@);
    out
}

/// The string made of `cs[from..to]`.
pub fn string_of(cs: &[char], from: usize, to: usize) -> (r: String)
    requires
        from <= to <= cs@.len(),
    ensures
        r@ == cs@.subrange(from as int, to as int),
{
    let mut out: String = String::new();
    let mut i: usize = from;
    while i < to
        invariant
            from <= i <= to <= cs@.len(),
            out@ == cs@.subrange(from as int, i as int),
        decreases to - i,
    {
        out.push(cs[i]);
        assert(out@ =~= cs@.subrange(from as int, i + 1));
        i += 1;
    }
    out
}

/// The items with `sep` between neighbours.
pub fn join_strings(items: &Vec<String>, sep: &str) -> (r: String)
    ensures
        r@ == joined(texts(items@), sep@),
{
    let mut out: String = String::new();
    let mut i: usize = 0;
    while i < items.len()
        invariant
            i <= items@.len(),
            out@ == joined(texts(items@).take(i as int), sep@),
        decreases items@.len() - i,
    {
        let ghost done = texts(items@).take(i as int);
        let ghost next = texts(items@).take(i + 1);
        assert(next.drop_last() =~= done);
        assert(next.last() == items@[i as int]@);
        if i > 0 {
            out.append(sep);
        }
        out.append(items[i].as_str());
        assert(out@ =~= joined(next, sep@));
        i += 1;
    }
    assert(texts(items@).take(i as int) =~= texts(items@));
    out
}

// ---- Splitting and trimming -------------------------------------------------------

/// Whether a character is Unicode white space.
pub open spec fn is_space(c: char) -> bool {
    let n = c as u32;
    ||| 0x9 <= n <= 0xD
    ||| n == 0x20 || n == 0x85 || n == 0xA0 || n == 0x1680
    ||| 0x2000 <= n <= 0x200A
    ||| n == 0x2028 || n == 0x2029 || n == 0x202F || n == 0x205F || n == 0x3000
}

/// `s` without its leading white space.
pub open spec fn trimmed_start(s: Seq<char>) -> Seq<char>
    decreases s.len(),
{
    if s.len() > 0 && is_space(s[0]) {
        trimmed_start(s.skip(1))
    } else {
        s
    }
}

/// `s` without its trailing white space.
pub open spec fn trimmed_end(s: Seq<char>) -> Seq<char>
    decreases s.len(),
{
    if s.len() > 0 && is_space(s.last()) {
        trimmed_end(s.drop_last())
    } else {
        s
    }
}

/// `s` without white space at either end.
pub open spec fn trimmed(s: Seq<char>) -> Seq<char> {
    trimmed_end(trimmed_start(s))
}

/// The stretches of `s` between separators; one more than there are
/// separators.
pub open spec fn fields(s: Seq<char>, sep: char) -> Seq<Seq<char>>
    decreases s.len(),
{
    if s.len() == 0 {
        seq![Seq::empty()]
    } else {
        let front = fields(s.drop_last(), sep);
        if s.last() == sep {
            front.push(Seq::empty())
        } else {
            front.update(front.len() - 1, front.last().push(s.last()))
        }
    }
}

/// The fields trimmed, without those that hold nothing else.
pub open spec fn kept_fields(fs: Seq<Seq<char>>) -> Seq<Seq<char>>
    decreases fs.len(),
{
    if fs.len() == 0 {
        Seq::empty()
    } else {
        let front = kept_fields(fs.drop_last());
        if trimmed(fs.last()).len() == 0 {
            front
        } else {
            front.push(trimmed(fs.last()))
        }
    }
}

/// The items of a comma-separated list.
pub open spec fn list_items(s: Seq<char>) -> Seq<Seq<char>> {
    kept_fields(fields(s, ','))
}

/// The fields hold no separator and joining them gives back the text.
pub proof fn law_fields_rejoin(s: Seq<char>, sep: char)
    ensures
        fields(s, sep).len() > 0,
        joined(fields(s, sep), seq![sep]) == s,
        forall|i: int|
            0 <= i < fields(s, sep).len() ==> !(#[trigger] fields(s, sep)[i]).contains(sep),
    decreases s.len(),
{
    if s.len() == 0 {
        assert(joined(fields(s, sep), seq![sep]) =~= s);
    } else {
        let head = s.drop_last();
        let front = fields(head, sep);
        law_fields_rejoin(head, sep);
        assert(s =~= head.push(s.last()));
        if s.last() == sep {
            let all = front.push(Seq::empty());
            assert(all.drop_last() =~= front);
            assert(joined(all, seq![sep]) =~= s);
        } else {
            let last = front.last().push(s.last());
            let all = front.update(front.len() - 1, last);
            assert(all.drop_last() =~= front.drop_last());
            assert(joined(all, seq![sep]) =~= s);
            assert forall|i: int| 0 <= i < all.len() implies !(#[trigger] all[i]).contains(sep) by {
                assert(!front[i].contains(sep));
                if i == all.len() - 1 && last.contains(sep) {
                    let k = last.index_of(sep);
                    assert(front.last()[k] == sep);
                }
            }
        }
    }
}

fn space(c: char) -> (r: bool)
    ensures
        r == is_space(c),
{
    let n: u32 = c as u32;
    (0x9 <= n && n <= 0xD) || n == 0x20 || n == 0x85 || n == 0xA0 || n == 0x1680 || (0x2000 <= n
        && n <= 0x200A) || n == 0x2028 || n == 0x2029 || n == 0x202F || n == 0x205F || n == 0x3000
}

/// The range left of `cs[from..to]` once white space is cut from both ends.
pub fn trim_range(cs: &[char], from: usize, to: usize) -> (r: (usize, usize))
    requires
        from <= to <= cs@.len(),
    ensures
        from <= r.0 <= r.1 <= to,
        cs@.subrange(r.0 as int, r.1 as int) == trimmed(cs@.subrange(from as int, to as int)),
{
    let ghost whole = cs@.subrange(from as int, to as int);
    let mut a: usize = from;
    while a < to && space(cs[a])
        invariant
            from <= a <= to <= cs@.len(),
            whole == cs@.subrange(from as int, to as int),
            trimmed_start(whole) == trimmed_start(cs@.subrange(a as int, to as int)),
        decreases to - a,
    {
        let ghost rest = cs@.subrange(a as int, to as int);
        assert(rest.skip(1) =~= cs@.subrange(a + 1, to as int));
        a += 1;
    }
    let ghost front = cs@.subrange(a as int, to as int);
    assert(trimmed_start(whole) == front);
    let mut b: usize = to;
    while a < b && space(cs[b - 1])
        invariant
            a <= b <= to <= cs@.len(),
            trimmed_end(front) == trimmed_end(cs@.subrange(a as int, b as int)),
        decreases b,
    {
        let ghost rest = cs@.subrange(a as int, b as int);
        assert(rest.drop_last() =~= cs@.subrange(a as int, b - 1));
        b -= 1;
    }
    (a, b)
}

/// `s` without white space at either end.
pub fn trim(s: &str) -> (r: String)
    ensures
        r@ == trimmed(s@),
{
    let cs: Vec<char> = chars_of(s);
    let (a, b) = trim_range(cs.as_slice(), 0, cs.len());
    assert(cs@.subrange(0, cs@.len() as int) =~= cs@);
    string_of(cs.as_slice(), a, b)
}

/// The items of a comma-separated list.
pub fn split_list(s: &str) -> (r: Vec<String>)
    ensures
        texts(r@) == list_items(s@),
{
    let cs: Vec<char> = chars_of(s);
    let n: usize = cs.len();
    let mut out: Vec<String> = Vec::new();
    let mut start: usize = 0;
    let mut i: usize = 0;
    let ghost mut done: Seq<Seq<char>> = Seq::empty();
    assert(cs@.subrange(0, 0) =~= Seq::<char>::empty());
    assert(fields(cs@.take(0), ',') =~= done.push(cs@.subrange(0, 0)));
    assert(texts(out@) =~= kept_fields(done));
    while i < n
        invariant
            start <= i <= n == cs@.len(),
            fields(cs@.take(i as int), ',') == done.push(cs@.subrange(start as int, i as int)),
            texts(out@) == kept_fields(done),
        decreases n - i,
    {
        let ghost field = cs@.subrange(start as int, i as int);
        let ghost next = cs@.take(i + 1);
        assert(next.drop_last() =~= cs@.take(i as int));
        if cs[i] == ',' {
            keep_field(&mut out, cs.as_slice(), start, i);
            proof {
                assert(done.push(field).drop_last() =~= done);
                done = done.push(field);
            }
            start = i + 1;
            assert(cs@.subrange(start as int, i + 1) =~= Seq::<char>::empty());
        } else {
            assert(cs@.subrange(start as int, i + 1) =~= field.push(cs@[i as int]));
            assert(fields(next, ',') =~= done.push(cs@.subrange(start as int, i + 1)));
        }
        i += 1;
    }
    assert(cs@.take(n as int) =~= s@);
    keep_field(&mut out, cs.as_slice(), start, n);
    assert(done.push(cs@.subrange(start as int, n as int)).drop_last() =~= done);
    out
}

/// Append the field `cs[from..to]`, trimmed, unless nothing is left of it.
fn keep_field(out: &mut Vec<String>, cs: &[char], from: usize, to: usize)
    requires
        from <= to <= cs@.len(),
    ensures
        texts(final(out)@) == ({
            let t = trimmed(cs@.subrange(from as int, to as int));
            if t.len() == 0 {
                texts(old(out)@)
            } else {
                texts(old(out)@).push(t)
            }
        }),
{
    let (a, b) = trim_range(cs, from, to);
    if a < b {
        let item: String = string_of(cs, a, b);
        proof {
            lemma_texts_push(out@, item);
        }
        out.push(item);
    }
}

/// The stretches of a text between separators.
pub fn split(s: &str, sep: char) -> (r: Vec<String>)
    ensures
        texts(r@) == fields(s@, sep),
{
    broadcast use lemma_texts_push;

    let cs: Vec<char> = chars_of(s);
    let n: usize = cs.len();
    let mut out: Vec<String> = Vec::new();
    let mut start: usize = 0;
    let mut i: usize = 0;
    assert(cs@.subrange(0, 0) =~= Seq::<char>::empty());
    assert(texts(out@) =~= Seq::empty());
    assert(fields(cs@.take(0), sep) =~= texts(out@).push(cs@.subrange(0, 0)));
    while i < n
        invariant
            start <= i <= n == cs@.len(),
            fields(cs@.take(i as int), sep) == texts(out@).push(
                cs@.subrange(start as int, i as int),
            ),
        decreases n - i,
    {
        let ghost done = texts(out@);
        let ghost field = cs@.subrange(start as int, i as int);
        let ghost next = cs@.take(i + 1);
        assert(next.drop_last() =~= cs@.take(i as int));
        if cs[i] == sep {
            out.push(string_of(cs.as_slice(), start, i));
            start = i + 1;
            assert(cs@.subrange(start as int, i + 1) =~= Seq::<char>::empty());
        } else {
            assert(cs@.subrange(start as int, i + 1) =~= field.push(cs@[i as int]));
            assert(fields(next, sep) =~= done.push(cs@.subrange(start as int, i + 1)));
        }
        i += 1;
    }
    assert(cs@.take(n as int) =~= s@);
    out.push(string_of(cs.as_slice(), start, n));
    out
}

// ---- Searching --------------------------------------------------------------------------

/// Whether `t` stands in `s` at `at`.
pub open spec fn stands_at(s: Seq<char>, t: Seq<char>, at: int) -> bool {
    &&& 0 <= at
    &&& at + t.len() <= s.len()
    &&& s.subrange(at, at + t.len()) == t
}

/// Whether `t` stands anywhere in `s`.
pub open spec fn holds(s: Seq<char>, t: Seq<char>) -> bool {
    exists|at: int| stands_at(s, t, at)
}

fn matches_at(s: &Vec<char>, t: &Vec<char>, at: usize) -> (r: bool)
    requires
        at + t@.len() <= s@.len(),
    ensures
        r == stands_at(s@, t@, at as int),
{
    let n: usize = s.len();
    let mut i: usize = 0;
    while i < t.len()
        invariant
            at + t@.len() <= n == s@.len(),
            i <= t@.len(),
            forall|k: int| 0 <= k < i ==> s@[at + k] == t@[k],
        decreases t@.len() - i,
    {
        if s[at + i] != t[i] {
            assert(s@.subrange(at as int, at + t@.len())[i as int] != t@[i as int]);
            return false;
        }
        i += 1;
    }
    assert(s@.subrange(at as int, at + t@.len()) =~= t@);
    true
}

/// Where `t` first stands in `s`.
pub fn find(s: &str, t: &str) -> (r: Option<usize>)
    ensures
        match r {
            Some(at) => stands_at(s@, t@, at as int) && forall|k: int|
                0 <= k < at ==> !stands_at(s@, t@, k),
            None => !holds(s@, t@),
        },
{
    let cs: Vec<char> = chars_of(s);
    let ts: Vec<char> = chars_of(t);
    if ts.len() > cs.len() {
        return None;
    }
    let last: usize = cs.len() - ts.len();
    let mut at: usize = 0;
    loop
        invariant
            cs@ == s@,
            ts@ == t@,
            at <= last,
            last == cs@.len() - ts@.len(),
            forall|k: int| 0 <= k < at ==> !stands_at(s@, t@, k),
        decreases last - at,
    {
        if matches_at(&cs, &ts, at) {
            return Some(at);
        }
        if at == last {
            return None;
        }
        at += 1;
    }
}

// ---- Numbers ------------------------------------------------------------------------

/// The value of a digit in the given base.
pub open spec fn digit_value(c: char, base: nat) -> Option<nat> {
    let n = c as nat;
    let v = if 48 <= n <= 57 {
        (n - 48) as nat
    } else if 97 <= n <= 122 {
        (n - 87) as nat
    } else if 65 <= n <= 90 {
        (n - 55) as nat
    } else {
        base
    };
    if v < base {
        Some(v)
    } else {
        None
    }
}

/// The value of a run of digits.
pub open spec fn digits_value(s: Seq<char>, base: nat) -> Option<nat>
    decreases s.len(),
{
    if s.len() == 0 {
        Some(0)
    } else {
        match (digits_value(s.drop_last(), base), digit_value(s.last(), base)) {
            (Some(v), Some(d)) => Some(v * base + d),
            _ => None,
        }
    }
}

/// The unsigned number written in `s`: digits, at least one, behind an
/// optional plus sign.
pub open spec fn unsigned(s: Seq<char>, base: nat) -> Option<nat> {
    let digits = if s.len() > 0 && s[0] == '+' {
        s.skip(1)
    } else {
        s
    };
    if digits.len() == 0 {
        None
    } else {
        digits_value(digits, base)
    }
}

/// The number written in `s`, where it does not exceed `limit`.
pub open spec fn unsigned_up_to(s: Seq<char>, base: nat, limit: nat) -> Option<nat> {
    match unsigned(s, base) {
        Some(v) => if v <= limit {
            Some(v)
        } else {
            None
        },
        None => None,
    }
}

fn value_of_digit(c: char, base: u64) -> (r: Option<u64>)
    requires
        base <= 36,
    ensures
        match r {
            Some(d) => digit_value(c, base as nat) == Some(d as nat),
            None => digit_value(c, base as nat) is None,
        },
{
    let n: u64 = c as u64;
    let v: u64 = if 48 <= n && n <= 57 {
        n - 48
    } else if 97 <= n && n <= 122 {
        n - 87
    } else if 65 <= n && n <= 90 {
        n - 55
    } else {
        base
    };
    if v < base {
        Some(v)
    } else {
        None
    }
}

/// Read an unsigned number no larger than `limit`.
pub fn parse_unsigned(s: &str, base: u64, limit: u64) -> (r: Option<u64>)
    requires
        2 <= base <= 36,
        limit < u64::MAX,
    ensures
        match r {
            Some(v) => unsigned_up_to(s@, base as nat, limit as nat) == Some(v as nat),
            None => unsigned_up_to(s@, base as nat, limit as nat) is None,
        },
{
    let cs: Vec<char> = chars_of(s);
    let from: usize = if cs.len() > 0 && cs[0] == '+' {
        1
    } else {
        0
    };
    if cs.len() == from {
        return None;
    }
    let ghost digits = cs@.skip(from as int);
    assert(cs@.skip(0) =~= cs@);
    let mut ok: bool = true;
    // The value so far; one past the limit stands for anything larger.
    let mut acc: u64 = 0;
    let mut i: usize = from;
    assert(digits.take(0) =~= Seq::<char>::empty());
    while i < cs.len()
        invariant
            from <= i <= cs@.len(),
            2 <= base <= 36,
            limit < u64::MAX,
            digits == cs@.skip(from as int),
            acc <= limit + 1,
            match digits_value(digits.take(i - from), base as nat) {
                Some(v) => ok && (v <= limit ==> acc == v) && (v > limit ==> acc == limit + 1),
                None => !ok,
            },
        decreases cs@.len() - i,
    {
        let ghost next = digits.take(i + 1 - from);
        assert(next.drop_last() =~= digits.take(i - from));
        assert(next.last() == cs@[i as int]);
        match value_of_digit(cs[i], base) {
            None => {
                ok = false;
            },
            Some(d) => {
                let ghost before = digits_value(digits.take(i - from), base as nat);
                assert(acc * base <= u64::MAX * 36) by (nonlinear_arith)
                    requires
                        0 <= acc <= u64::MAX,
                        0 <= base <= 36,
                ;
                let v: u128 = acc as u128 * base as u128 + d as u128;
                proof {
                    if before is Some && before->0 > limit {
                        let b = before->0;
                        assert(b * base >= b) by (nonlinear_arith)
                            requires
                                base >= 2,
                                b >= 0,
                        ;
                        assert((limit + 1) * base >= limit + 1) by (nonlinear_arith)
                            requires
                                base >= 2,
                                limit >= 0,
                        ;
                    }
                }
                acc = if v <= limit as u128 {
                    v as u64
                } else {
                    limit + 1
                };
            },
        }
        i += 1;
    }
    assert(digits.take(i - from) =~= digits);
    if ok && acc <= limit {
        Some(acc)
    } else {
        None
    }
}

// ---- Letter case ----------------------------------------------------------------------

/// What `str::to_uppercase` gives for a text.
pub uninterp spec fn uppercase(s: Seq<char>) -> Seq<char>;

/// What `str::to_lowercase` gives for a text.
pub uninterp spec fn lowercase(s: Seq<char>) -> Seq<char>;

/// Whether every character is ASCII.
pub open spec fn ascii(s: Seq<char>) -> bool {
    forall|i: int| 0 <= i < s.len() ==> (#[trigger] s[i] as nat) < 128
}

/// ASCII letters in upper case, all else unchanged.
pub open spec fn ascii_upper(s: Seq<char>) -> Seq<char> {
    Seq::new(
        s.len(),
        |i: int|
            if 'a' <= s[i] <= 'z' {
                (s[i] as u32 - 32) as char
            } else {
                s[i]
            },
    )
}

/// ASCII letters in lower case, all else unchanged.
pub open spec fn ascii_lower(s: Seq<char>) -> Seq<char> {
    Seq::new(
        s.len(),
        |i: int|
            if 'A' <= s[i] <= 'Z' {
                (s[i] as u32 + 32) as char
            } else {
                s[i]
            },
    )
}

/// `str::to_uppercase` maps a text by Unicode's upper-case rules, which depend
/// on the text alone; of an ASCII text it changes the letters a to z only.
pub assume_specification[ str::to_uppercase ](s: &str) -> (r: String)
    ensures
        r@ == uppercase(s@),
        ascii(s@) ==> r@ == ascii_upper(s@),
;

/// `str::to_lowercase` maps a text by Unicode's lower-case rules, which depend
/// on the text alone; of an ASCII text it changes the letters A to Z only.
pub assume_specification[ str::to_lowercase ](s: &str) -> (r: String)
    ensures
        r@ == lowercase(s@),
        ascii(s@) ==> r@ == ascii_lower(s@),
;

/// ASCII letters in upper case, all else unchanged.
pub fn upper_ascii(s: &str) -> (r: String)
    ensures
        r@ == ascii_upper(s@),
{
    let cs: Vec<char> = chars_of(s);
    let mut out: String = String::new();
    let mut i: usize = 0;
    while i < cs.len()
        invariant
            i <= cs@.len(),
            out@ == ascii_upper(cs@.take(i as int)),
        decreases cs@.len() - i,
    {
        let c: char = cs[i];
        let up: char = if 'a' <= c && c <= 'z' {
            (c as u8 - 32) as char
        } else {
            c
        };
        out.push(up);
        assert(out@ =~= ascii_upper(cs@.take(i + 1)));
        i += 1;
    }
    assert(cs@.take(i as int) =~= s@);
    out
}

/// Whether two texts are the same but for the case of ASCII letters.
pub fn same_any_case(a: &str, b: &str) -> (r: bool)
    ensures
        r == (ascii_upper(a@) == ascii_upper(b@)),
{
    same_str(upper_ascii(a).as_str(), upper_ascii(b).as_str())
}

proof fn lemma_trimmed_ascii(s: Seq<char>)
    requires
        ascii(s),
    ensures
        ascii(trimmed(s)),
{
    lemma_trimmed_start_ascii(s);
    lemma_trimmed_end_ascii(trimmed_start(s));
}

proof fn lemma_trimmed_start_ascii(s: Seq<char>)
    requires
        ascii(s),
    ensures
        ascii(trimmed_start(s)),
    decreases s.len(),
{
    if s.len() > 0 && is_space(s[0]) {
        lemma_trimmed_start_ascii(s.skip(1));
    }
}

proof fn lemma_trimmed_end_ascii(s: Seq<char>)
    requires
        ascii(s),
    ensures
        ascii(trimmed_end(s)),
    decreases s.len(),
{
    if s.len() > 0 && is_space(s.last()) {
        lemma_trimmed_end_ascii(s.drop_last());
    }
}

proof fn lemma_fields_ascii(s: Seq<char>, sep: char)
    requires
        ascii(s),
    ensures
        fields(s, sep).len() > 0,
        forall|i: int| 0 <= i < fields(s, sep).len() ==> ascii(#[trigger] fields(s, sep)[i]),
    decreases s.len(),
{
    if s.len() > 0 {
        lemma_fields_ascii(s.drop_last(), sep);
        let front = fields(s.drop_last(), sep);
        assert(ascii(front[front.len() - 1]));
    }
}

proof fn lemma_kept_fields_ascii(fs: Seq<Seq<char>>)
    requires
        forall|i: int| 0 <= i < fs.len() ==> ascii(#[trigger] fs[i]),
    ensures
        forall|i: int| 0 <= i < kept_fields(fs).len() ==> ascii(#[trigger] kept_fields(fs)[i]),
    decreases fs.len(),
{
    if fs.len() > 0 {
        assert forall|i: int| 0 <= i < fs.drop_last().len() implies ascii(
            #[trigger] fs.drop_last()[i],
        ) by {
            assert(ascii(fs[i]));
        }
        lemma_kept_fields_ascii(fs.drop_last());
        lemma_trimmed_ascii(fs[fs.len() - 1]);
        let front = kept_fields(fs.drop_last());
        assert forall|i: int| 0 <= i < kept_fields(fs).len() implies ascii(
            #[trigger] kept_fields(fs)[i],
        ) by {
            if i < front.len() {
                assert(ascii(front[i]));
            }
        }
    }
}

/// The items of an ASCII list are ASCII.
pub proof fn lemma_list_items_ascii(s: Seq<char>)
    ensures
        ascii(s) ==> forall|i: int|
            0 <= i < list_items(s).len() ==> ascii(#[trigger] list_items(s)[i]),
{
    if ascii(s) {
        lemma_fields_ascii(s, ',');
        lemma_kept_fields_ascii(fields(s, ','));
    }
}

} // verus!
