//! Numbers as text: decimal and hexadecimal digits, and padding to a width.
use vstd::prelude::*;

use crate::style::{is_plain, lemma_plain_concat};
use crate::text::{append_repeated, repeated};

verus! {

/// The digit for `d`, in lower case from ten on.
pub open spec fn digit_char(d: nat) -> char {
    if d < 10 {
        (48 + d) as char
    } else {
        (87 + d) as char
    }
}

/// `n` written in the given base, without leading zeros.
pub open spec fn digits(n: nat, base: nat) -> Seq<char>
    decreases n,
{
    if base < 2 {
        Seq::empty()
    } else if n < base {
        seq![digit_char(n)]
    } else {
        proof {
            assert(n / base < n) by (nonlinear_arith)
                requires
                    base >= 2,
                    n >= base,
            ;
        }
        digits(n / base, base).push(digit_char(n % base))
    }
}

/// Writes `n` in base ten or sixteen.
pub fn digits_text(n: u64, base: u64) -> (s: String)
    requires
        2 <= base <= 16,
    ensures
        s@ == digits(n as nat, base as nat),
        s@.len() >= 1,
    decreases n,
{
    let d: u8 = (n % base) as u8;
    let c: char = if d < 10 {
        (48 + d) as char
    } else {
        (87 + d) as char
    };
    if n < base {
        let mut s = String::new();
        s.push(c);
        assert(n % base == n) by (nonlinear_arith)
            requires
                n < base,
        ;
        assert(s@ =~= seq![digit_char(n as nat)]);
        s
    } else {
        assert(n / base < n) by (nonlinear_arith)
            requires
                base >= 2,
                n >= base,
        ;
        let mut s = digits_text(n / base, base);
        s.push(c);
        s
    }
}

/// `s` moved to the right end of a field of `width` characters.
pub open spec fn right_in(s: Seq<char>, width: nat, fill: char) -> Seq<char> {
    repeated(fill, if s.len() < width { (width - s.len()) as nat } else { 0 }) + s
}

/// `s` at the left end of a field of `width` characters.
pub open spec fn left_in(s: Seq<char>, width: nat) -> Seq<char> {
    s + repeated(' ', if s.len() < width { (width - s.len()) as nat } else { 0 })
}

/// Appends `s` at the right end of a field of `width` characters.
pub fn append_right_in(out: &mut String, s: &str, width: usize, fill: char)
    ensures
        final(out)@ == old(out)@ + right_in(s@, width as nat, fill),
{
    let ghost start = out@;
    let n = s.unicode_len();
    let pad: usize = if n < width {
        width - n
    } else {
        0
    };
    append_repeated(out, fill, pad);
    out.append(s);
    assert((start + repeated(fill, pad as nat)) + s@ =~= start + right_in(s@, width as nat, fill));
}

/// Appends `s` at the left end of a field of `width` characters.
pub fn append_left_in(out: &mut String, s: &str, width: usize)
    ensures
        final(out)@ == old(out)@ + left_in(s@, width as nat),
{
    let ghost start = out@;
    let n = s.unicode_len();
    let pad: usize = if n < width {
        width - n
    } else {
        0
    };
    out.append(s);
    append_repeated(out, ' ', pad);
    assert((start + s@) + repeated(' ', pad as nat) =~= start + left_in(s@, width as nat));
}

/// A number with leading zeros up to `width` characters; a minus sign counts
/// as one of them and stands first.
pub open spec fn zero_padded(n: int, width: nat) -> Seq<char> {
    if n >= 0 {
        right_in(digits(n as nat, 10), width, '0')
    } else {
        seq!['-'] + right_in(digits((-n) as nat, 10), if width > 0 { (width - 1) as nat } else { 0 }, '0')
    }
}

/// Appends `n` with leading zeros up to `width` characters.
pub fn append_zero_padded(out: &mut String, n: i64, width: usize)
    requires
        width >= 1,
    ensures
        final(out)@ == old(out)@ + zero_padded(n as int, width as nat),
{
    if n >= 0 {
        let s = digits_text(n as u64, 10);
        append_right_in(out, s.as_str(), width, '0');
    } else {
        let ghost start = out@;
        let magnitude: u64 = (-(n + 1)) as u64 + 1;
        let s = digits_text(magnitude, 10);
        out.push('-');
        append_right_in(out, s.as_str(), width - 1, '0');
        assert(start.push('-') + right_in(s@, (width - 1) as nat, '0') =~= start + zero_padded(
            n as int,
            width as nat,
        ));
    }
}

/// A decimal number holds no escapes.
pub proof fn lemma_digits_plain(n: nat)
    ensures
        is_plain(digits(n, 10)),
        digits(n, 10).len() > 0,
    decreases n,
{
    if n < 10 {
        assert(digits(n, 10) =~= seq![digit_char(n)]);
    } else {
        lemma_digits_plain(n / 10);
        let rest = digits(n / 10, 10);
        let last = seq![digit_char(n % 10)];
        assert(is_plain(last));
        lemma_plain_concat(rest, last);
        assert(digits(n, 10) =~= rest + last);
    }
}

/// The value of a digit.
pub open spec fn digit_value(c: char) -> int {
    if '0' <= c <= '9' {
        c as int - '0' as int
    } else {
        c as int - 'a' as int + 10
    }
}

/// The number that digits tell.
pub open spec fn number_of(s: Seq<char>, base: nat) -> int
    decreases s.len(),
{
    if s.len() == 0 {
        0
    } else {
        number_of(s.drop_last(), base) * base + digit_value(s.last())
    }
}

/// A number's digits tell the number: each is a decimal digit or a small letter
/// below the base, and only zero begins with a zero.
pub proof fn law_digits_tell_the_number(n: nat, base: nat)
    requires
        2 <= base <= 16,
    ensures
        number_of(digits(n, base), base) == n,
        digits(n, base).len() > 0,
        n > 0 ==> digits(n, base)[0] != '0',
        forall|i: int|
            0 <= i < digits(n, base).len() ==> {
                let c = #[trigger] digits(n, base)[i];
                ('0' <= c <= '9' || 'a' <= c <= 'f') && 0 <= digit_value(c) < base
            },
    decreases n,
{
    let s = digits(n, base);
    if n < base {
        reveal_with_fuel(number_of, 2);
        assert(s.drop_last() =~= Seq::<char>::empty());
        assert(s.last() == digit_char(n));
    } else {
        assert(n / base < n && n / base > 0) by (nonlinear_arith)
            requires
                base >= 2,
                n >= base,
        ;
        law_digits_tell_the_number(n / base, base);
        let before = digits(n / base, base);
        assert(s.drop_last() =~= before);
        assert(s.last() == digit_char(n % base));
        assert(0 <= n % base < base) by (nonlinear_arith)
            requires
                base >= 2,
        ;
        assert(digit_value(digit_char(n % base)) == n % base);
        assert((n / base) * base + n % base == n) by (nonlinear_arith)
            requires
                base >= 2,
        ;
        assert forall|i: int| 0 <= i < s.len() implies {
            let c = #[trigger] s[i];
            ('0' <= c <= '9' || 'a' <= c <= 'f') && 0 <= digit_value(c) < base
        } by {
            if i < before.len() {
                assert(s[i] == before[i]);
            }
        }
        assert(s[0] == before[0]);
    }
}

/// Padding leaves a text as it is at one end, puts only the fill at the other,
/// and fills up just to the width.
pub proof fn law_padding_fills_to_the_width(s: Seq<char>, width: nat, fill: char)
    ensures
        right_in(s, width, fill).len() == if s.len() < width { width } else { s.len() },
        right_in(s, width, fill).skip(right_in(s, width, fill).len() - s.len()) == s,
        forall|i: int|
            0 <= i < right_in(s, width, fill).len() - s.len() ==> #[trigger] right_in(s, width, fill)[i] == fill,
        left_in(s, width).len() == if s.len() < width { width } else { s.len() },
        left_in(s, width).take(s.len() as int) == s,
        forall|i: int| s.len() <= i < left_in(s, width).len() ==> #[trigger] left_in(s, width)[i] == ' ',
{
}

/// A number written with leading zeros tells the number, in at least so many
/// digits.
pub proof fn law_zeros_before_a_number_change_nothing(n: nat, width: nat)
    ensures
        number_of(zero_padded(n as int, width), 10) == n,
        zero_padded(n as int, width).len() >= width,
        digits(n, 10).len() <= width ==> zero_padded(n as int, width).len() == width,
        forall|i: int|
            0 <= i < zero_padded(n as int, width).len() ==> '0' <= #[trigger] zero_padded(n as int, width)[i] <= '9',
{
    let s = digits(n, 10);
    law_digits_tell_the_number(n, 10);
    let k: nat = if s.len() < width {
        (width - s.len()) as nat
    } else {
        0
    };
    lemma_zeros_before(k, s);
    let t = zero_padded(n as int, width);
    assert(t == repeated('0', k) + s);
    assert forall|i: int| 0 <= i < t.len() implies '0' <= #[trigger] t[i] <= '9' by {
        if i >= k {
            assert(t[i] == s[i - k]);
        }
    }
}

proof fn lemma_zeros_before(k: nat, s: Seq<char>)
    ensures
        number_of(repeated('0', k) + s, 10) == number_of(s, 10),
    decreases k + s.len(),
{
    let t = repeated('0', k) + s;
    if s.len() > 0 {
        lemma_zeros_before(k, s.drop_last());
        assert(t.drop_last() =~= repeated('0', k) + s.drop_last());
        assert(t.last() == s.last());
    } else if k > 0 {
        let m = (k - 1) as nat;
        lemma_zeros_before(m, s);
        assert(t.drop_last() =~= repeated('0', m) + s);
        assert(t.last() == '0');
    }
}

} // verus!
