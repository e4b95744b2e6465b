use vstd::arithmetic::div_mod::{
    lemma_fundamental_div_mod, lemma_fundamental_div_mod_converse_div,
};
use crate::natural::digits_value;
use vstd::prelude::*;

verus! {

/// The character of the decimal digit `d`.
pub open spec fn digit_char(d: int) -> char
    recommends
        0 <= d < 10,
{
    (48 + d) as char
}

/// The decimal representation of `n`, without leading zeros.
pub open spec fn decimal(n: nat) -> Seq<char>
    decreases n,
{
    if n < 10 {
        seq![digit_char(n as int)]
    } else {
        decimal(n / 10) + seq![digit_char((n % 10) as int)]
    }
}

/// `digits` with a comma between each group of three, counted from the right.
pub open spec fn group_thousands(digits: Seq<char>) -> Seq<char>
    decreases digits.len(),
{
    if digits.len() <= 3 {
        digits
    } else {
        group_thousands(digits.subrange(0, digits.len() - 3)) + seq![',']
            + digits.subrange(digits.len() - 3, digits.len() as int)
    }
}

/// `n` in decimal with its digits grouped by thousands.
pub open spec fn number_text(n: nat) -> Seq<char> {
    group_thousands(decimal(n))
}

pub open spec fn kibibyte() -> nat {
    1024
}

pub open spec fn mebibyte() -> nat {
    1048576
}

/// `bytes` in KiB, rounded to the nearest whole KiB, halves up.
pub open spec fn kib_rounded(bytes: nat) -> nat {
    (bytes + kibibyte() / 2) / kibibyte()
}

/// `bytes` in hundredths of a MiB, rounded to the nearest, halves up.
pub open spec fn mib_hundredths(bytes: nat) -> nat {
    (bytes * 100 + mebibyte() / 2) / mebibyte()
}

/// The fractional part of a MiB figure given in hundredths: nothing when it is
/// zero, one digit when the hundredths digit is zero, two digits otherwise.
pub open spec fn mib_fraction(hundredths: nat) -> Seq<char> {
    if hundredths == 0 {
        Seq::empty()
    } else if hundredths % 10 == 0 {
        seq!['.', digit_char((hundredths / 10) as int)]
    } else {
        seq!['.', digit_char((hundredths / 10) as int), digit_char((hundredths % 10) as int)]
    }
}

/// The text of a byte count: whole KiB below one MiB, else MiB to two decimals.
pub open spec fn size_text(bytes: nat) -> Seq<char> {
    if bytes < mebibyte() {
        number_text(kib_rounded(bytes)) + seq![' ', 'K', 'i', 'B']
    } else {
        let total = mib_hundredths(bytes);
        number_text(total / 100) + mib_fraction(total % 100) + seq![' ', 'M', 'i', 'B']
    }
}

/// A one-character text for the decimal digit `d`.
fn digit_text(d: u64) -> (text: &'static str)
    requires
        d < 10,
    ensures
        text@ == seq![digit_char(d as int)],
{
    if d == 0 {
        proof { reveal_strlit("0"); }
        "0"
    } else if d == 1 {
        proof { reveal_strlit("1"); }
        "1"
    } else if d == 2 {
        proof { reveal_strlit("2"); }
        "2"
    } else if d == 3 {
        proof { reveal_strlit("3"); }
        "3"
    } else if d == 4 {
        proof { reveal_strlit("4"); }
        "4"
    } else if d == 5 {
        proof { reveal_strlit("5"); }
        "5"
    } else if d == 6 {
        proof { reveal_strlit("6"); }
        "6"
    } else if d == 7 {
        proof { reveal_strlit("7"); }
        "7"
    } else if d == 8 {
        proof { reveal_strlit("8"); }
        "8"
    } else {
        proof { reveal_strlit("9"); }
        "9"
    }
}

/// Appends the decimal digits of `n` to `out`.
fn push_decimal(n: u64, out: &mut String)
    ensures
        final(out)@ == old(out)@ + decimal(n as nat),
    decreases n,
{
    if n >= 10 {
        push_decimal(n / 10, out);
    }
    out.append(digit_text(n % 10));
    proof {
        if n < 10 {
            assert(n % 10 == n);
        }
    }
}

proof fn lemma_decimal_len(n: nat)
    ensures
        decimal(n).len() >= 1,
    decreases n,
{
    if n >= 10 {
        lemma_decimal_len(n / 10);
    }
}

/// Formats `value` in decimal with a comma between groups of three digits,
/// e.g. `1234567` as `1,234,567`.
pub fn format_number(value: u64) -> (text: String)
    ensures
        text@ == number_text(value as nat),
{
    let mut digits = String::new();
    push_decimal(value, &mut digits);
    let ghost ds = decimal(value as nat);
    assert(digits@ == ds);
    let len = digits.unicode_len();
    proof {
        lemma_decimal_len(value as nat);
    }
    let first = (len - 1) % 3 + 1;
    let mut formatted = String::new();
    formatted.append(digits.substring_char(0, first));
    proof {
        assert(group_thousands(ds.subrange(0, first as int)) == ds.subrange(0, first as int));
    }
    let mut index = first;
    while index < len
        invariant
            len == ds.len(),
            digits@ == ds,
            1 <= first <= 3,
            first <= index <= len,
            (len - index) % 3 == 0,
            formatted@ == group_thousands(ds.subrange(0, index as int)),
        decreases len - index,
    {
        proof {
            reveal_strlit(",");
        }
        formatted.append(",");
        formatted.append(digits.substring_char(index, index + 3));
        proof {
            let next = ds.subrange(0, index + 3);
            assert(next.subrange(0, next.len() - 3) =~= ds.subrange(0, index as int));
            assert(next.subrange(next.len() - 3, next.len() as int) =~= ds.subrange(
                index as int,
                index + 3,
            ));
        }
        index = index + 3;
    }
    assert(ds.subrange(0, len as int) =~= ds);
    formatted
}

proof fn lemma_kib_rounded(bytes: nat)
    ensures
        kib_rounded(bytes) == bytes / 1024 + (if bytes % 1024 >= 512 { 1nat } else { 0nat }),
{
    lemma_fundamental_div_mod(bytes as int, 1024);
    let q = bytes / 1024;
    let r = bytes % 1024;
    if r >= 512 {
        lemma_fundamental_div_mod_converse_div(bytes + 512int, 1024, q + 1int, r - 512int);
    } else {
        lemma_fundamental_div_mod_converse_div(bytes + 512int, 1024, q as int, r + 512int);
    }
}

proof fn lemma_mib_hundredths(bytes: nat)
    ensures
        ({
            let m = mebibyte();
            let h = ((bytes % m) * 100 + m / 2) / m;
            &&& h <= 100
            &&& mib_hundredths(bytes) == (bytes / m) * 100 + h
        }),
{
    let m = 1048576int;
    let q = bytes as int / m;
    let r = bytes as int % m;
    lemma_fundamental_div_mod(bytes as int, m);
    let x = r * 100 + m / 2;
    let h = x / m;
    let r2 = x % m;
    lemma_fundamental_div_mod(x, m);
    assert(h <= 100) by (nonlinear_arith)
        requires
            x == m * h + r2,
            0 <= r2,
            0 <= r < m,
            x == r * 100 + m / 2,
            m == 1048576,
    ;
    assert(bytes * 100 + m / 2 == (q * 100 + h) * m + r2) by (nonlinear_arith)
        requires
            bytes == m * q + r,
            x == m * h + r2,
            x == r * 100 + m / 2,
    ;
    lemma_fundamental_div_mod_converse_div(bytes * 100 + m / 2, m, q * 100 + h, r2);
}

/// Formats a byte count in binary units: whole KiB (rounded to nearest,
/// halves up) below one MiB, otherwise MiB rounded to hundredths with
/// trailing zeros of the fraction dropped; e.g. `1,024 KiB`, `1.5 MiB`.
pub fn format_size(bytes: u64) -> (text: String)
    ensures
        text@ == size_text(bytes as nat),
{
    let kibibyte: u64 = 1024;
    let mebibyte: u64 = 1048576;
    if bytes < mebibyte {
        let round_up: u64 = if bytes % kibibyte >= kibibyte / 2 { 1 } else { 0 };
        let kibibytes = bytes / kibibyte + round_up;
        proof {
            lemma_kib_rounded(bytes as nat);
        }
        let mut text = format_number(kibibytes);
        proof {
            reveal_strlit(" KiB");
        }
        text.append(" KiB");
        return text;
    }
    let mut mebibytes = bytes / mebibyte;
    let remainder = bytes % mebibyte;
    proof {
        lemma_mib_hundredths(bytes as nat);
    }
    let mut hundredths = (remainder * 100 + mebibyte / 2) / mebibyte;
    let ghost total = mib_hundredths(bytes as nat);
    if hundredths == 100 {
        mebibytes = mebibytes + 1;
        hundredths = 0;
        proof {
            lemma_fundamental_div_mod_converse_div(total as int, 100, mebibytes as int, 0);
            vstd::arithmetic::div_mod::lemma_fundamental_div_mod_converse_mod(
                total as int,
                100,
                mebibytes as int,
                0,
            );
        }
    } else {
        proof {
            lemma_fundamental_div_mod_converse_div(
                total as int,
                100,
                mebibytes as int,
                hundredths as int,
            );
            vstd::arithmetic::div_mod::lemma_fundamental_div_mod_converse_mod(
                total as int,
                100,
                mebibytes as int,
                hundredths as int,
            );
        }
    }
    assert(mebibytes == total / 100 && hundredths == total % 100);
    let mut text = format_number(mebibytes);
    if hundredths != 0 {
        proof {
            reveal_strlit(".");
        }
        text.append(".");
        text.append(digit_text(hundredths / 10));
        if hundredths % 10 != 0 {
            text.append(digit_text(hundredths % 10));
        }
    }
    proof {
        reveal_strlit(" MiB");
    }
    text.append(" MiB");
    text
}

/// `text` with its group separators taken out.
pub open spec fn without_commas(text: Seq<char>) -> Seq<char> {
    text.filter(not_comma())
}

/// The test that keeps every character but the group separator.
pub open spec fn not_comma() -> spec_fn(char) -> bool {
    |c: char| c != ','
}

proof fn lemma_decimal_has_no_comma(n: nat)
    ensures
        forall|i: int| 0 <= i < decimal(n).len() ==> #[trigger] decimal(n)[i] != ',',
    decreases n,
{
    if n >= 10 {
        lemma_decimal_has_no_comma(n / 10);
        let d = decimal(n);
        assert forall|i: int| 0 <= i < d.len() implies #[trigger] d[i] != ',' by {
            if i < decimal(n / 10).len() {
                assert(d[i] == decimal(n / 10)[i]);
            }
        }
    }
}

proof fn lemma_filter_keeps_all(s: Seq<char>)
    requires
        forall|i: int| 0 <= i < s.len() ==> #[trigger] s[i] != ',',
    ensures
        without_commas(s) == s,
    decreases s.len(),
{
    reveal(Seq::filter);
    if s.len() > 0 {
        lemma_filter_keeps_all(s.drop_last());
        assert(s.drop_last().push(s.last()) =~= s);
    }
}

proof fn lemma_ungroup(digits: Seq<char>)
    requires
        forall|i: int| 0 <= i < digits.len() ==> #[trigger] digits[i] != ',',
    ensures
        without_commas(group_thousands(digits)) == digits,
    decreases digits.len(),
{
    broadcast use Seq::filter_distributes_over_add;

    if digits.len() <= 3 {
        lemma_filter_keeps_all(digits);
    } else {
        let head = digits.subrange(0, digits.len() - 3);
        let tail = digits.subrange(digits.len() - 3, digits.len() as int);
        assert forall|i: int| 0 <= i < head.len() implies #[trigger] head[i] != ',' by {
            assert(head[i] == digits[i]);
        }
        assert forall|i: int| 0 <= i < tail.len() implies #[trigger] tail[i] != ',' by {
            assert(tail[i] == digits[i + digits.len() - 3]);
        }
        lemma_ungroup(head);
        lemma_filter_keeps_all(tail);
        reveal(Seq::filter);
        let comma = seq![','];
        assert(comma.drop_last() =~= Seq::<char>::empty());
        assert(comma.drop_last().filter(not_comma()) =~= Seq::<char>::empty());
        assert(!not_comma()(comma.last()));
        assert(without_commas(comma) =~= Seq::<char>::empty());
        assert(head + tail =~= digits);
    }
}

/// Digit grouping only inserts separators: taking the commas out of the
/// formatted number gives back its plain decimal digits.
pub proof fn law_grouping_keeps_digits(n: nat)
    ensures
        without_commas(number_text(n)) == decimal(n),
{
    lemma_decimal_has_no_comma(n);
    lemma_ungroup(decimal(n));
}

/// The character of a digit is the ASCII code of that digit.
pub proof fn law_digit_char(d: int)
    requires
        0 <= d < 10,
    ensures
        digit_char(d) as int == 48 + d,
        '0' <= digit_char(d) && digit_char(d) <= '9',
{
}

/// The decimal text of `n` reads back as `n`: it is made of digits only, and
/// has no leading zero unless it is `0` itself.
pub proof fn law_decimal_reads_back(n: nat)
    ensures
        digits_value(decimal(n)) == n,
        forall|i: int| 0 <= i < decimal(n).len() ==> '0' <= #[trigger] decimal(n)[i] && decimal(n)[i] <= '9',
        decimal(n).len() >= 1,
        n == 0 <==> decimal(n) == seq!['0'],
        n > 0 ==> decimal(n)[0] != '0',
    decreases n,
{
    lemma_decimal_len(n);
    if n < 10 {
        law_digit_char(n as int);
        let d = decimal(n);
        assert(d.drop_last() =~= Seq::<char>::empty());
        assert(digits_value(d.drop_last()) == 0);
        assert(d.last() as int - 48 == n);
    } else {
        law_decimal_reads_back(n / 10);
        law_digit_char((n % 10) as int);
        let d = decimal(n);
        let head = decimal(n / 10);
        assert(d.drop_last() =~= head);
        assert(d.last() as int - 48 == n % 10);
        assert(digits_value(d) == digits_value(head) * 10 + ((d.last() as int - 48) as nat));
        assert forall|i: int| 0 <= i < d.len() implies '0' <= #[trigger] d[i] && d[i] <= '9' by {
            if i < head.len() {
                assert(d[i] == head[i]);
            }
        }
        assert(d[0] == head[0]);
        assert(d.len() >= 2);
    }
}

proof fn lemma_grouped_commas(digits: Seq<char>)
    requires
        digits.len() >= 1,
        forall|i: int| 0 <= i < digits.len() ==> #[trigger] digits[i] != ',',
    ensures
        group_thousands(digits).len() == digits.len() + (digits.len() - 1) / 3,
        forall|k: int|
            0 <= k < group_thousands(digits).len() ==> (#[trigger] group_thousands(digits)[k] == ','
                <==> (group_thousands(digits).len() - k) % 4 == 0),
    decreases digits.len(),
{
    if digits.len() > 3 {
        let head = digits.subrange(0, digits.len() - 3);
        let tail = digits.subrange(digits.len() - 3, digits.len() as int);
        assert forall|i: int| 0 <= i < head.len() implies #[trigger] head[i] != ',' by {
            assert(head[i] == digits[i]);
        }
        lemma_grouped_commas(head);
        let gh = group_thousands(head);
        let g = group_thousands(digits);
        assert(g == gh + seq![','] + tail);
        assert forall|k: int| 0 <= k < g.len() implies (#[trigger] g[k] == ',' <==> (g.len() - k) % 4
            == 0) by {
            if k < gh.len() {
                assert(g[k] == gh[k]);
            } else if k == gh.len() {
            } else {
                assert(g[k] == tail[k - gh.len() - 1]);
                assert(tail[k - gh.len() - 1] == digits[digits.len() - 3 + (k - gh.len() - 1)]);
            }
        }
    }
}

/// Digits are grouped in threes from the right: the formatted number holds a
/// comma exactly at every fourth place counted from its end, and one comma per
/// full group of three digits after the first group.
pub proof fn law_commas_every_three_digits(n: nat)
    ensures
        number_text(n).len() == decimal(n).len() + (decimal(n).len() - 1) / 3,
        forall|k: int|
            0 <= k < number_text(n).len() ==> (#[trigger] number_text(n)[k] == ',' <==> (
            number_text(n).len() - k) % 4 == 0),
{
    lemma_decimal_len(n);
    lemma_decimal_has_no_comma(n);
    lemma_grouped_commas(decimal(n));
}

/// Below one MiB the size is written as a number of KiB rounded to the
/// nearest, halves up.
pub proof fn law_size_in_kib(bytes: nat)
    requires
        bytes < 1048576,
    ensures
        size_text(bytes) == number_text(kib_rounded(bytes)) + seq![' ', 'K', 'i', 'B'],
        kib_rounded(bytes) * 1024 <= bytes + 512 < (kib_rounded(bytes) + 1) * 1024,
{
    let k = kib_rounded(bytes);
    lemma_fundamental_div_mod(bytes + 512int, 1024);
}

/// From one MiB up the size is written in MiB rounded to the nearest
/// hundredth, halves up: the whole MiB, then, unless the hundredths are zero,
/// a point, the tenths digit and the hundredths digit unless that is zero.
pub proof fn law_size_in_mib(bytes: nat)
    requires
        bytes >= 1048576,
    ensures
        ({
            let h = mib_hundredths(bytes);
            let f = h % 100;
            &&& h * 1048576 <= bytes * 100 + 524288 < (h + 1) * 1048576
            &&& size_text(bytes) == number_text(h / 100) + (if f == 0 {
                Seq::<char>::empty()
            } else if f % 10 == 0 {
                seq!['.', digit_char((f / 10) as int)]
            } else {
                seq!['.', digit_char((f / 10) as int), digit_char((f % 10) as int)]
            }) + seq![' ', 'M', 'i', 'B']
        }),
{
    lemma_fundamental_div_mod(bytes * 100 + 524288int, 1048576);
}

} // verus!
