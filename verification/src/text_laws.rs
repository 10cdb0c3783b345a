//! What numbers, lists and letters read as.
use crate::order;
use crate::order::Rank;
use crate::text;
use vstd::prelude::*;

verus! {

/// Whether a text is a single character of the given code.
pub open spec fn is_char(s: Seq<char>, code: nat) -> bool {
    s.len() == 1 && s[0] as int == code
}

/// Below ten a number is one digit, from `0` on; and ten times a number and a
/// digit more reads as the number with the digit behind it.
pub proof fn law_decimals_are_digits(n: nat, d: nat)
    requires
        d < 10,
    ensures
        is_char(text::dec(d), 48 + d),
        n > 0 ==> text::dec(10 * n + d) == text::dec(n) + text::dec(d),
{
    lemma_code(48 + d);
    if n > 0 {
        let x = 10 * n + d;
        assert(x / 10 == n && x % 10 == d);
        assert(text::dec(n) + text::dec(d) =~= text::dec(n).push(text::digit(d)));
    }
}

proof fn lemma_code(n: nat)
    requires
        n < 128,
    ensures
        (n as char) as int == n,
{
}

/// Below sixteen a hexadecimal number is one digit or capital letter; and
/// sixteen times a number and a digit more reads as one behind the other.
pub proof fn law_hexadecimals_are_digits(n: nat, d: nat)
    requires
        d < 16,
    ensures
        is_char(
            text::numeral(d, 16),
            if d < 10 {
                48 + d
            } else {
                55 + d
            },
        ),
        n > 0 ==> text::numeral(16 * n + d, 16) == text::numeral(n, 16) + text::numeral(d, 16),
{
    lemma_code(48 + d);
    lemma_code(55 + d);
    if n > 0 {
        let x = 16 * n + d;
        assert(x / 16 == n && x % 16 == d);
        assert(text::numeral(n, 16) + text::numeral(d, 16) =~= text::numeral(n, 16).push(
            text::digit(d),
        ));
    }
}

/// A sixteen-bit number in hexadecimal is `0x` and its four digits, from the
/// most significant on.
pub proof fn law_hex4_has_four_digits(v: u16)
    ensures
        text::hex4(v) == "0x"@ + text::numeral((v / 4096) as nat, 16) + text::numeral(
            (v / 256 % 16) as nat,
            16,
        ) + text::numeral((v / 16 % 16) as nat, 16) + text::numeral((v % 16) as nat, 16),
{
    let a = (v / 4096) as nat;
    let b = (v / 256 % 16) as nat;
    let c = (v / 16 % 16) as nat;
    let d = (v % 16) as nat;
    let x = (v / 16) as nat;
    let y = (v / 256) as nat;
    assert(v as nat == 16 * x + d);
    assert(x == 16 * y + c);
    assert(y == 16 * a + b);
    law_hexadecimals_are_digits(x, d);
    law_hexadecimals_are_digits(y, c);
    law_hexadecimals_are_digits(a, b);
    law_hexadecimals_are_digits(0, a);
    let h = text::numeral(v as nat, 16);
    let all = text::numeral(a, 16) + text::numeral(b, 16) + text::numeral(c, 16) + text::numeral(
        d,
        16,
    );
    lemma_code(48);
    assert(text::digit(0) == '0');
    assert(text::numeral(0, 16) =~= seq!['0']);
    if a > 0 {
        assert(h =~= all);
    } else if y > 0 {
        assert(h =~= text::numeral(b, 16) + text::numeral(c, 16) + text::numeral(d, 16));
    } else if x > 0 {
        assert(h =~= text::numeral(c, 16) + text::numeral(d, 16));
    } else {
        assert(h =~= text::numeral(d, 16));
    }
    assert(text::zero_filled(h, 4) =~= all);
    assert("0x"@ + all =~= "0x"@ + text::numeral(a, 16) + text::numeral(b, 16) + text::numeral(
        c,
        16,
    ) + text::numeral(d, 16));
}

/// Two digits are always two digits: below ten with a `0` in front.
pub proof fn law_two_digits(n: nat)
    requires
        n < 100,
    ensures
        text::dec2(n) == text::dec((n / 10) as nat) + text::dec((n % 10) as nat),
{
    law_decimals_are_digits((n / 10) as nat, (n % 10) as nat);
    law_decimals_are_digits(0, (n / 10) as nat);
    lemma_code(48);
    assert(text::digit(0) == '0');
    assert(text::dec(0) =~= seq!['0']);
    if n < 10 {
        assert(text::dec2(n) =~= text::dec(0) + text::dec(n));
    } else {
        assert(n == 10 * (n / 10) + n % 10);
    }
}

// ---- Reading numbers --------------------------------------------------------------------------

/// Whether a character is the digit `d`, letters in either case.
pub open spec fn is_digit(c: char, d: nat) -> bool {
    let n = c as int;
    ||| d < 10 && n == 48 + d
    ||| 10 <= d < 36 && n == 55 + d
    ||| 10 <= d < 36 && n == 87 + d
}

/// A digit behind a number that was read makes it `base` times as large and
/// adds its value; any other character makes it no number.
pub proof fn law_digits_are_read_one_by_one(s: Seq<char>, c: char, base: nat)
    requires
        2 <= base <= 36,
    ensures
        text::digits_value(Seq::empty(), base) == Some(0nat),
        forall|d: nat|
            d < base && #[trigger] is_digit(c, d) ==> text::digits_value(s.push(c), base) == (
            match text::digits_value(s, base) {
                Some(v) => Some(v * base + d),
                None => None,
            }),
        (forall|d: nat| d < base ==> !#[trigger] is_digit(c, d)) ==> text::digits_value(
            s.push(c),
            base,
        ) is None,
{
    assert(s.push(c).drop_last() =~= s);
    let n = c as int;
    if 48 <= n <= 57 {
        assert(is_digit(c, (n - 48) as nat));
    } else if 97 <= n <= 122 {
        assert(is_digit(c, (n - 87) as nat));
    } else if 65 <= n <= 90 {
        assert(is_digit(c, (n - 55) as nat));
    }
}

/// A number reads back from its decimal form, up to the limit and no further.
pub proof fn law_decimals_read_back(n: nat, limit: nat)
    ensures
        text::unsigned_up_to(text::dec(n), 10, limit) == (if n <= limit {
            Some(n)
        } else {
            None
        }),
{
    lemma_reads_back(n, 10);
}

/// A number reads back from its hexadecimal form, up to the limit and no
/// further.
pub proof fn law_hexadecimals_read_back(n: nat, limit: nat)
    ensures
        text::unsigned_up_to(text::numeral(n, 16), 16, limit) == (if n <= limit {
            Some(n)
        } else {
            None
        }),
{
    lemma_reads_back(n, 16);
}

proof fn lemma_digit_reads(d: nat, base: nat)
    requires
        d < base,
        base == 10 || base == 16,
    ensures
        text::digit_value(text::digit(d), base) == Some(d),
        text::digit(d) != '+',
{
    lemma_code(48 + d);
    lemma_code(55 + d);
    assert('+' as int == 43);
}

proof fn lemma_reads_back(n: nat, base: nat)
    requires
        base == 10 || base == 16,
    ensures
        text::numeral(n, base).len() > 0,
        text::numeral(n, base)[0] != '+',
        text::digits_value(text::numeral(n, base), base) == Some(n),
        text::unsigned(text::numeral(n, base), base) == Some(n),
    decreases n,
{
    let s = text::numeral(n, base);
    if n < base {
        lemma_digit_reads(n, base);
        assert(s.drop_last() =~= Seq::empty());
        assert(text::digits_value(s.drop_last(), base) == Some(0nat));
        assert(0 * base == 0) by (nonlinear_arith);
    } else {
        let q = (n / base) as nat;
        let r = (n % base) as nat;
        assert(q < n && n == q * base + r && r < base) by (nonlinear_arith)
            requires
                base == 10 || base == 16,
                n >= base,
                q == n / base,
                r == n % base,
        ;
        lemma_reads_back(q, base);
        lemma_digit_reads(r, base);
        assert(s.drop_last() =~= text::numeral(q, base));
    }
}

// ---- Lists -----------------------------------------------------------------------------------

/// Items with white space around them.
pub open spec fn spaced(item: Seq<char>, before: nat, after: nat) -> Seq<char> {
    text::run(' ', before) + item + text::run(' ', after)
}

/// Whether a text begins and ends in something else than white space and holds
/// no comma.
pub open spec fn is_item(s: Seq<char>) -> bool {
    &&& s.len() > 0
    &&& !text::is_space(s[0])
    &&& !text::is_space(s.last())
    &&& !s.contains(',')
}

proof fn lemma_trim_start(item: Seq<char>, before: nat)
    requires
        item.len() > 0,
        !text::is_space(item[0]),
    ensures
        text::trimmed_start(text::run(' ', before) + item) == item,
    decreases before,
{
    let s = text::run(' ', before) + item;
    if before > 0 {
        assert(s[0] == ' ');
        assert(s.skip(1) =~= text::run(' ', (before - 1) as nat) + item);
        lemma_trim_start(item, (before - 1) as nat);
    } else {
        assert(s =~= item);
    }
}

proof fn lemma_trim_end(item: Seq<char>, after: nat)
    requires
        item.len() > 0,
        !text::is_space(item.last()),
    ensures
        text::trimmed_end(item + text::run(' ', after)) == item,
    decreases after,
{
    let s = item + text::run(' ', after);
    if after > 0 {
        assert(s.last() == ' ');
        assert(s.drop_last() =~= item + text::run(' ', (after - 1) as nat));
        lemma_trim_end(item, (after - 1) as nat);
    } else {
        assert(s =~= item);
    }
}

/// White space around an item does not count.
pub proof fn law_spaces_are_trimmed(item: Seq<char>, before: nat, after: nat)
    requires
        is_item(item),
    ensures
        text::trimmed(spaced(item, before, after)) == item,
        text::trimmed(text::run(' ', before)) == Seq::<char>::empty(),
{
    let t = item + text::run(' ', after);
    assert(spaced(item, before, after) =~= text::run(' ', before) + t);
    assert(t[0] == item[0]);
    lemma_trim_start(t, before);
    lemma_trim_end(item, after);
    lemma_all_spaces(before);
}

proof fn lemma_all_spaces(n: nat)
    ensures
        text::trimmed_start(text::run(' ', n)) == Seq::<char>::empty(),
    decreases n,
{
    let s = text::run(' ', n);
    if n > 0 {
        assert(s[0] == ' ');
        assert(s.skip(1) =~= text::run(' ', (n - 1) as nat));
        lemma_all_spaces((n - 1) as nat);
    } else {
        assert(s =~= Seq::empty());
    }
}

/// One more field behind a comma.
proof fn lemma_one_more_field(s: Seq<char>, t: Seq<char>)
    requires
        !t.contains(','),
    ensures
        text::fields(s + seq![','] + t, ',') == text::fields(s, ',').push(t),
    decreases t.len(),
{
    let whole = s + seq![','] + t;
    if t.len() == 0 {
        assert(whole.drop_last() =~= s);
        assert(t =~= Seq::empty());
    } else {
        let u = t.drop_last();
        assert(!u.contains(',')) by {
            if u.contains(',') {
                let i = u.index_of(',');
                assert(t[i] == ',');
            }
        }
        assert(t[t.len() - 1] == t.last());
        assert(t.last() != ',');
        lemma_one_more_field(s, u);
        assert(whole.drop_last() =~= s + seq![','] + u);
        let f = text::fields(s, ',').push(u);
        assert(f.update(f.len() - 1, f.last().push(t.last())) =~= text::fields(s, ',').push(t)) by {
            assert(u.push(t.last()) =~= t);
        }
    }
}

proof fn lemma_single_field(t: Seq<char>)
    requires
        !t.contains(','),
    ensures
        text::fields(t, ',') == seq![t],
    decreases t.len(),
{
    if t.len() == 0 {
        assert(t =~= Seq::empty());
    } else {
        let u = t.drop_last();
        assert(!u.contains(',')) by {
            if u.contains(',') {
                let i = u.index_of(',');
                assert(t[i] == ',');
            }
        }
        assert(t[t.len() - 1] == t.last());
        lemma_single_field(u);
        assert(u.push(t.last()) =~= t);
        let f = seq![u];
        assert(f.update(0, f.last().push(t.last())) =~= seq![t]);
    }
}

/// The items of a list are what stands between its commas, without the white
/// space around; an empty one is left out.
pub proof fn law_one_more_item(s: Seq<char>, item: Seq<char>, before: nat, after: nat)
    requires
        is_item(item),
    ensures
        text::list_items(spaced(item, before, after)) == seq![item],
        text::list_items(s + seq![','] + spaced(item, before, after)) == text::list_items(s).push(
            item,
        ),
        text::list_items(s + seq![','] + text::run(' ', before)) == text::list_items(s),
        text::list_items(text::run(' ', before)) == Seq::<Seq<char>>::empty(),
{
    let t = spaced(item, before, after);
    let blank = text::run(' ', before);
    law_spaces_are_trimmed(item, before, after);
    assert(!t.contains(',')) by {
        if t.contains(',') {
            let i = t.index_of(',');
            assert(t[i] == ',');
            if before <= i < before + item.len() {
                assert(item[i - before] == ',');
            }
        }
    }
    assert(!blank.contains(','));
    lemma_one_more_field(s, t);
    lemma_one_more_field(s, blank);
    lemma_single_field(t);
    lemma_single_field(blank);
    let fs = text::fields(s, ',');
    assert(fs.push(t).drop_last() =~= fs);
    assert(fs.push(blank).drop_last() =~= fs);
    assert(seq![t].drop_last() =~= Seq::empty());
    assert(seq![blank].drop_last() =~= Seq::empty());
    assert(text::kept_fields(seq![t].drop_last()) =~= Seq::empty());
    assert(seq![t].last() == t);
    assert(text::list_items(t) =~= seq![item]);
    assert(text::list_items(blank) =~= Seq::empty());
}

// ---- Letters and order ---------------------------------------------------------------------------

/// Changing the case of ASCII text changes letters only: `a` to `z` and `A` to
/// `Z` lie thirty-two apart.
pub proof fn law_letter_case(s: Seq<char>, i: int)
    requires
        0 <= i < s.len(),
    ensures
        text::ascii_upper(s).len() == s.len(),
        text::ascii_lower(s).len() == s.len(),
        text::ascii_upper(s)[i] as int == (if 97 <= s[i] as int <= 122 {
            s[i] as int - 32
        } else {
            s[i] as int
        }),
        text::ascii_lower(s)[i] as int == (if 65 <= s[i] as int <= 90 {
            s[i] as int + 32
        } else {
            s[i] as int
        }),
{
    let c = s[i];
    lemma_letters(c);
}

proof fn lemma_letters(c: char)
    ensures
        'a' <= c <= 'z' <==> 97 <= c as int <= 122,
        'A' <= c <= 'Z' <==> 65 <= c as int <= 90,
        97 <= c as int <= 122 ==> ((c as u32 - 32) as char) as int == c as int - 32,
        65 <= c as int <= 90 ==> ((c as u32 + 32) as char) as int == c as int + 32,
{
}

/// Whether `a` comes before `b` in a lexicon: at the first place where they
/// differ it has the smaller entry, or it is the beginning of `b`.
pub open spec fn lexically_before(a: Seq<int>, b: Seq<int>) -> bool {
    exists|i: int|
        #![trigger a.take(i)]
        0 <= i <= a.len() && i <= b.len() && a.take(i) == b.take(i) && (i == a.len() && i < b.len()
            || i < a.len() && i < b.len() && a[i] < b[i])
}

/// Ranks are the order of a lexicon.
pub proof fn law_ranks_are_lexical(a: Seq<int>, b: Seq<int>)
    ensures
        order::seq_rank(a, b) == Rank::Before <==> lexically_before(a, b),
        order::seq_rank(a, b) == Rank::After <==> lexically_before(b, a),
        order::seq_rank(a, b) == Rank::Same <==> a == b,
{
    lemma_lexical(a, b);
    lemma_lexical(b, a);
    order::lemma_seq_rank_flips(a, b);
    order::lemma_seq_rank_same(a, b);
}

proof fn lemma_lexical(a: Seq<int>, b: Seq<int>)
    ensures
        order::seq_rank(a, b) == Rank::Before <==> lexically_before(a, b),
    decreases a.len(),
{
    if a.len() > 0 && b.len() > 0 && a[0] == b[0] {
        let x = a.skip(1);
        let y = b.skip(1);
        lemma_lexical(x, y);
        if lexically_before(x, y) {
            let i = choose|i: int|
                #![trigger x.take(i)]
                0 <= i <= x.len() && i <= y.len() && x.take(i) == y.take(i) && (i == x.len() && i
                    < y.len() || i < x.len() && i < y.len() && x[i] < y[i]);
            assert(a.take(i + 1) =~= seq![a[0]] + x.take(i));
            assert(b.take(i + 1) =~= seq![b[0]] + y.take(i));
            assert(a.take(i + 1) == b.take(i + 1));
        }
        if lexically_before(a, b) {
            let i = choose|i: int|
                #![trigger a.take(i)]
                0 <= i <= a.len() && i <= b.len() && a.take(i) == b.take(i) && (i == a.len() && i
                    < b.len() || i < a.len() && i < b.len() && a[i] < b[i]);
            assert(i > 0);
            assert(x.take(i - 1) =~= a.take(i).skip(1));
            assert(y.take(i - 1) =~= b.take(i).skip(1));
            assert(x.take(i - 1) == y.take(i - 1));
        }
    } else {
        if order::seq_rank(a, b) == Rank::Before {
            assert(a.take(0) =~= b.take(0));
        }
        if lexically_before(a, b) {
            let i = choose|i: int|
                #![trigger a.take(i)]
                0 <= i <= a.len() && i <= b.len() && a.take(i) == b.take(i) && (i == a.len() && i
                    < b.len() || i < a.len() && i < b.len() && a[i] < b[i]);
            if i > 0 {
                assert(a.take(i)[0] == a[0] && b.take(i)[0] == b[0]);
            }
        }
    }
}

/// A plus sign in front of digits does not count, and no digits are no number.
pub proof fn law_signs_and_emptiness(s: Seq<char>, base: nat)
    requires
        2 <= base <= 36,
        s.len() > 0,
        s[0] != '+',
    ensures
        text::unsigned(s, base) == text::digits_value(s, base),
        text::unsigned(seq!['+'] + s, base) == text::digits_value(s, base),
        text::unsigned(Seq::empty(), base) is None,
        text::unsigned(seq!['+'], base) is None,
{
    assert((seq!['+'] + s).skip(1) =~= s);
    assert(seq!['+'].skip(1) =~= Seq::empty());
}

/// Texts are joined with the separator between each two.
pub proof fn law_texts_are_joined(items: Seq<Seq<char>>, item: Seq<char>, sep: Seq<char>)
    ensures
        text::joined(Seq::empty(), sep) == Seq::<char>::empty(),
        text::joined(seq![item], sep) == item,
        items.len() > 0 ==> text::joined(items.push(item), sep) == text::joined(items, sep) + sep
            + item,
{
    assert(items.push(item).drop_last() =~= items);
}

/// Of the ASCII characters, tab to carriage return and the space are white space.
pub proof fn law_white_space(c: char)
    requires
        (c as int) < 128,
    ensures
        text::is_space(c) <==> 9 <= c as int <= 13 || c as int == 32,
{
}

} // verus!
