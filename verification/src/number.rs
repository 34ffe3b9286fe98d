//! Numbers as text: decimal digits, thousands separators, columns, hexadecimal bytes.

use vstd::prelude::*;

use crate::text;

verus! {

/// The decimal digit for `d`.
pub open spec fn digit(d: nat) -> char {
    (48 + d) as char
}

/// `n` in decimal.
pub open spec fn decimal_of(n: nat) -> Seq<char>
    decreases n,
{
    if n < 10 {
        seq![digit(n)]
    } else {
        decimal_of(n / 10).push(digit(n % 10))
    }
}

/// `n` in decimal, with a minus sign where it is negative.
pub open spec fn signed_of(n: int) -> Seq<char> {
    if n < 0 {
        seq!['-'] + decimal_of((-n) as nat)
    } else {
        decimal_of(n as nat)
    }
}

/// `n` in decimal.
pub fn decimal(n: u64) -> (s: String)
    ensures
        s@ == decimal_of(n as nat),
    decreases n,
{
    let d: u8 = (n % 10) as u8;
    let c: char = (48 + d) as char;
    if n < 10 {
        let mut s = String::new();
        s.push(c);
        assert(s@ =~= seq![digit(n as nat)]);
        s
    } else {
        let mut s = decimal(n / 10);
        s.push(c);
        s
    }
}

/// `n` in decimal, with a minus sign where it is negative.
pub fn signed(n: i64) -> (s: String)
    ensures
        s@ == signed_of(n as int),
{
    if n >= 0 {
        decimal(n as u64)
    } else {
        let mut s = String::new();
        s.push('-');
        let size: u64 = if n == i64::MIN {
            0x8000_0000_0000_0000
        } else {
            (-n) as u64
        };
        s.append(decimal(size).as_str());
        assert(s@ =~= seq!['-'] + decimal_of((-n) as nat));
        s
    }
}

/// Is `c` a decimal digit?
pub open spec fn decimal_digit(c: char) -> bool {
    48 <= c as u32 <= 57
}

/// What decimal digits amount to.
pub open spec fn value_of(digits: Seq<char>) -> nat
    decreases digits.len(),
{
    if digits.len() == 0 {
        0
    } else {
        value_of(digits.drop_last()) * 10 + (digits.last() as u32 - 48) as nat
    }
}

/// The number that `s` spells in decimal digits, where it spells one.
pub open spec fn numeral(s: Seq<char>) -> Option<nat> {
    if s.len() > 0 && forall|i: int| 0 <= i < s.len() ==> decimal_digit(#[trigger] s[i]) {
        Some(value_of(s))
    } else {
        None
    }
}

proof fn lemma_value_grows(digits: Seq<char>, n: int)
    requires
        0 <= n <= digits.len(),
    ensures
        value_of(digits.take(n)) <= value_of(digits),
    decreases digits.len() - n,
{
    if n == digits.len() {
        assert(digits.take(n) =~= digits);
    } else {
        lemma_value_grows(digits, n + 1);
        assert(digits.take(n + 1).drop_last() =~= digits.take(n));
    }
}

/// The number that `s` spells in decimal digits, where it spells one that fits.
pub fn parse(s: &str) -> (r: Option<u64>)
    ensures
        r matches Some(v) ==> numeral(s@) == Some(v as nat),
        r is None ==> (numeral(s@) matches Some(n) ==> n > u64::MAX),
{
    let v = text::chars(s);
    if v.len() == 0 {
        return None;
    }
    let mut total: u64 = 0;
    let mut i: usize = 0;
    while i < v.len()
        invariant
            i <= v@.len(),
            v@ == s@,
            forall|k: int| 0 <= k < i ==> decimal_digit(#[trigger] v@[k]),
            total == value_of(v@.take(i as int)),
        decreases v@.len() - i,
    {
        let c: u32 = v[i] as u32;
        if c < 48 || c > 57 {
            assert(!decimal_digit(s@[i as int]));
            return None;
        }
        let d: u64 = (c - 48) as u64;
        proof {
            assert(v@.take(i + 1).drop_last() =~= v@.take(i as int));
            assert(v@.take(i + 1).last() == v@[i as int]);
            lemma_value_grows(v@, i + 1);
        }
        if total > u64::MAX / 10 || total * 10 > u64::MAX - d {
            return None;
        }
        total = total * 10 + d;
        i = i + 1;
    }
    assert(v@.take(i as int) =~= s@);
    Some(total)
}

/// A number in decimal reads back as itself.
pub proof fn lemma_decimal_reads_back(n: nat)
    ensures
        numeral(decimal_of(n)) == Some(n),
    decreases n,
{
    let s = decimal_of(n);
    if n < 10 {
        assert(s.drop_last() =~= Seq::empty());
        assert(value_of(s.drop_last()) == 0);
        assert(s.last() as u32 == 48 + n);
    } else {
        lemma_decimal_reads_back(n / 10);
        let front = decimal_of(n / 10);
        assert(s.drop_last() =~= front);
        assert(s.last() as u32 == 48 + n % 10);
        assert forall|i: int| 0 <= i < s.len() implies decimal_digit(#[trigger] s[i]) by {
            if i < front.len() {
                assert(s[i] == front[i]);
            }
        }
    }
}

spec fn power_of_ten(k: nat) -> nat
    decreases k,
{
    if k == 0 {
        1
    } else {
        10 * power_of_ten((k - 1) as nat)
    }
}

proof fn lemma_digits(n: nat, k: nat)
    requires
        k >= 1,
        n < power_of_ten(k),
    ensures
        decimal_of(n).len() <= k,
    decreases k,
{
    if n >= 10 {
        assert(k >= 2) by {
            reveal_with_fuel(power_of_ten, 2);
        }
        lemma_digits(n / 10, (k - 1) as nat);
    }
}

/// A long number has at most twenty digits.
pub proof fn lemma_decimal_length(n: nat)
    requires
        n <= u64::MAX,
    ensures
        decimal_of(n).len() <= 20,
{
    assert(power_of_ten(20) == 100_000_000_000_000_000_000) by {
        reveal_with_fuel(power_of_ten, 21);
    }
    lemma_digits(n, 20);
}

/// Digits with a comma before each full group of three, counted from the right.
pub open spec fn grouped(digits: Seq<char>) -> Seq<char>
    decreases digits.len(),
{
    if digits.len() <= 3 {
        digits
    } else {
        grouped(digits.take(digits.len() - 3)) + seq![','] + digits.skip(digits.len() - 3)
    }
}

fn group(v: &Vec<char>, n: usize) -> (s: String)
    requires
        n <= v@.len(),
    ensures
        s@ == grouped(v@.take(n as int)),
    decreases n,
{
    if n <= 3 {
        text::slice(v, 0, n)
    } else {
        let mut s = group(v, n - 3);
        s.push(',');
        s.append(text::slice(v, n - 3, n).as_str());
        proof {
            let all = v@.take(n as int);
            assert(all.take(n - 3) =~= v@.take(n - 3));
            assert(all.skip(n - 3) =~= v@.subrange(n - 3, n as int));
            assert(s@ =~= grouped(all));
        }
        s
    }
}

/// Thousands separator for readability: 199700 -> 199,700.
pub fn fmt_int(n: usize) -> (s: String)
    ensures
        s@ == grouped(decimal_of(n as nat)),
{
    let d = decimal(n as u64);
    let v = text::chars(d.as_str());
    let s = group(&v, v.len());
    assert(v@.take(v@.len() as int) =~= v@);
    s
}

/// `n` blanks.
pub open spec fn blanks(n: nat) -> Seq<char> {
    Seq::new(n, |i: int| ' ')
}

/// `s` with blanks before it, up to `width` characters.
pub open spec fn right_aligned(s: Seq<char>, width: nat) -> Seq<char> {
    if s.len() < width {
        blanks((width - s.len()) as nat) + s
    } else {
        s
    }
}

/// `s` with blanks after it, up to `width` characters.
pub open spec fn left_aligned(s: Seq<char>, width: nat) -> Seq<char> {
    if s.len() < width {
        s + blanks((width - s.len()) as nat)
    } else {
        s
    }
}

fn blank_text(n: usize) -> (s: String)
    ensures
        s@ == blanks(n as nat),
{
    let mut s = String::new();
    let mut i: usize = 0;
    while i < n
        invariant
            i <= n,
            s@ =~= blanks(i as nat),
        decreases n - i,
    {
        s.push(' ');
        i = i + 1;
    }
    s
}

/// `s` with blanks before it, up to `width` characters.
pub fn align_right(s: &str, width: usize) -> (r: String)
    ensures
        r@ == right_aligned(s@, width as nat),
{
    let n = text::chars(s).len();
    if n < width {
        let mut r = blank_text(width - n);
        r.append(s);
        r
    } else {
        text::copy(s)
    }
}

/// `s` with blanks after it, up to `width` characters.
pub fn align_left(s: &str, width: usize) -> (r: String)
    ensures
        r@ == left_aligned(s@, width as nat),
{
    let n = text::chars(s).len();
    let mut r = text::copy(s);
    if n < width {
        r.append(blank_text(width - n).as_str());
    }
    r
}

/// The lower-case hexadecimal digit for `d`.
pub open spec fn hex_digit(d: nat) -> char {
    if d < 10 {
        digit(d)
    } else {
        (87 + d) as char
    }
}

/// Two lower-case hexadecimal digits for each byte.
pub open spec fn hex_of(bytes: Seq<u8>) -> Seq<char>
    decreases bytes.len(),
{
    if bytes.len() == 0 {
        Seq::empty()
    } else {
        hex_of(bytes.drop_last()).push(hex_digit((bytes.last() / 16) as nat)).push(
            hex_digit((bytes.last() % 16) as nat),
        )
    }
}

fn hex_char(d: u8) -> (c: char)
    requires
        d < 16,
    ensures
        c == hex_digit(d as nat),
{
    if d < 10 {
        (48 + d) as char
    } else {
        (87 + d) as char
    }
}

/// Two lower-case hexadecimal digits for each byte.
pub fn hex(bytes: &Vec<u8>) -> (s: String)
    ensures
        s@ == hex_of(bytes@),
{
    let mut s = String::new();
    let mut i: usize = 0;
    while i < bytes.len()
        invariant
            i <= bytes@.len(),
            s@ == hex_of(bytes@.take(i as int)),
        decreases bytes@.len() - i,
    {
        let b: u8 = bytes[i];
        assert(bytes@.take(i + 1).drop_last() =~= bytes@.take(i as int));
        s.push(hex_char(b / 16));
        s.push(hex_char(b % 16));
        i = i + 1;
    }
    assert(bytes@.take(bytes@.len() as int) =~= bytes@);
    s
}

/// Every byte has its two digits.
pub proof fn lemma_hex_len(bytes: Seq<u8>)
    ensures
        hex_of(bytes).len() == 2 * bytes.len(),
    decreases bytes.len(),
{
    if bytes.len() > 0 {
        lemma_hex_len(bytes.drop_last());
    }
}

/// Estimated tokens of `bytes` bytes: a quarter of them, rounded up.
pub open spec fn tokens(bytes: nat) -> nat {
    (bytes + 3) / 4
}

/// `bytes/4` rounded up: the token estimate of a byte count.
pub fn est_tok(bytes: usize) -> (n: usize)
    ensures
        n == tokens(bytes as nat),
{
    if bytes % 4 == 0 {
        bytes / 4
    } else {
        bytes / 4 + 1
    }
}

/// The estimate is the smallest number of tokens of four bytes that holds all the bytes.
pub proof fn lemma_tokens(bytes: nat)
    ensures
        4 * tokens(bytes) >= bytes,
        forall|n: nat| 4 * n >= bytes ==> #[trigger] (4 * n) >= 4 * tokens(bytes),
{
}

/// A grouped number shows its digits in their order, counted from the right, with a comma
/// behind every third and nothing else.
pub proof fn lemma_grouped(digits: Seq<char>)
    ensures
        digits.len() > 0 ==> grouped(digits).len() == digits.len() + (digits.len() - 1) / 3,
        forall|i: int|
            0 <= i < digits.len() ==> #[trigger] grouped(digits)[grouped(digits).len() - 1 - (i + i
                / 3)] == digits[digits.len() - 1 - i],
        forall|k: int|
            0 < 4 * k <= grouped(digits).len() ==> #[trigger] grouped(digits)[grouped(digits).len()
                - 4 * k] == ',',
    decreases digits.len(),
{
    let n = digits.len();
    let g = grouped(digits);
    if n <= 3 {
        assert(g == digits);
        assert forall|i: int| 0 <= i < n implies #[trigger] g[g.len() - 1 - (i + i / 3)] == digits[n
            - 1 - i] by {
            assert(i / 3 == 0);
        }
    } else {
        let front = digits.take(n - 3);
        let f = grouped(front);
        lemma_grouped(front);
        assert(g.len() == f.len() + 4);
        assert(g.len() == n + (n - 1) / 3);
        assert forall|i: int| 0 <= i < n implies #[trigger] g[g.len() - 1 - (i + i / 3)] == digits[n
            - 1 - i] by {
            if i < 3 {
                assert(i / 3 == 0);
                assert(digits.skip(n - 3)[2 - i] == digits[n - 1 - i]);
            } else {
                let j = i - 3;
                assert(j + j / 3 == i + i / 3 - 4);
                assert(f[f.len() - 1 - (j + j / 3)] == front[front.len() - 1 - j]);
                assert(0 <= f.len() - 1 - (j + j / 3) < f.len());
            }
        }
        assert forall|k: int| 0 < 4 * k <= g.len() implies #[trigger] g[g.len() - 4 * k] == ',' by {
            if k > 1 {
                assert(f[f.len() - 4 * (k - 1)] == ',');
            }
        }
    }
}

/// Aligning fills with blanks on one side, up to the width, and leaves the text as it is.
pub proof fn lemma_aligned(s: Seq<char>, width: nat)
    ensures
        right_aligned(s, width).len() == (if s.len() < width { width } else { s.len() }),
        right_aligned(s, width).skip(right_aligned(s, width).len() - s.len()) == s,
        forall|i: int|
            0 <= i < right_aligned(s, width).len() - s.len() ==> #[trigger] right_aligned(s, width)[i]
                == ' ',
        left_aligned(s, width).len() == (if s.len() < width { width } else { s.len() }),
        left_aligned(s, width).take(s.len() as int) == s,
        forall|i: int|
            s.len() <= i < left_aligned(s, width).len() ==> #[trigger] left_aligned(s, width)[i]
                == ' ',
{
}

/// The bytes can be told from their digits.
pub proof fn lemma_hex_distinct(a: Seq<u8>, b: Seq<u8>)
    requires
        hex_of(a) == hex_of(b),
    ensures
        a == b,
    decreases a.len(),
{
    lemma_hex_len(a);
    lemma_hex_len(b);
    if a.len() > 0 {
        let x = hex_of(a);
        let y = hex_of(b);
        let n = x.len();
        let s = hex_of(a.drop_last());
        let t = hex_of(b.drop_last());
        assert(s =~= x.take(n - 2));
        assert(t =~= y.take(n - 2));
        lemma_hex_distinct(a.drop_last(), b.drop_last());
        assert(x[n - 2] == y[n - 2]);
        assert(x[n - 1] == y[n - 1]);
        assert(x[n - 2] == hex_digit((a.last() / 16) as nat));
        assert(y[n - 2] == hex_digit((b.last() / 16) as nat));
        assert(x[n - 1] == hex_digit((a.last() % 16) as nat));
        assert(y[n - 1] == hex_digit((b.last() % 16) as nat));
        assert(a.last() == b.last());
        assert(a =~= a.drop_last().push(a.last()));
        assert(b =~= b.drop_last().push(b.last()));
    } else {
        assert(a =~= b);
    }
}

/// Bytes one behind the other have their digits one behind the other, two for each byte,
/// the upper half of it first, all of them among `0` to `9` and `a` to `f`.
pub proof fn lemma_hex_digits(a: Seq<u8>, b: Seq<u8>)
    ensures
        hex_of(a + b) == hex_of(a) + hex_of(b),
        forall|i: int|
            0 <= i < hex_of(b).len() ==> (48 <= #[trigger] hex_of(b)[i] as u32 <= 57 || 97
                <= hex_of(b)[i] as u32 <= 102),
    decreases b.len(),
{
    if b.len() == 0 {
        assert(a + b =~= a);
    } else {
        lemma_hex_digits(a, b.drop_last());
        assert((a + b).drop_last() =~= a + b.drop_last());
        assert((a + b).last() == b.last());
        assert(hex_of(a + b) =~= hex_of(a) + hex_of(b));
        assert forall|i: int| 0 <= i < hex_of(b).len() implies (48 <= #[trigger] hex_of(b)[i] as u32
            <= 57 || 97 <= hex_of(b)[i] as u32 <= 102) by {
            if i < hex_of(b).len() - 2 {
                assert(hex_of(b)[i] == hex_of(b.drop_last())[i]);
            }
        }
    }
}

/// A negative number shows a minus sign and the digits of the positive one.
pub proof fn lemma_signed(n: int)
    requires
        n > 0,
    ensures
        signed_of(-n) == seq!['-'] + signed_of(n),
        numeral(signed_of(n)) == Some(n as nat),
        signed_of(0) == decimal_of(0),
{
    lemma_decimal_reads_back(n as nat);
}

/// A decimal number holds digits and nothing else.
pub proof fn lemma_decimal_digits(n: nat, i: int)
    requires
        0 <= i < decimal_of(n).len(),
    ensures
        48 <= decimal_of(n)[i] as u32 <= 57,
    decreases n,
{
    if n >= 10 && i < decimal_of(n).len() - 1 {
        lemma_decimal_digits(n / 10, i);
    }
}

/// A number is read digit by digit: one more digit makes it ten times as large and adds the
/// digit, whatever stands before it, and a text with anything but digits spells none.
pub proof fn lemma_numeral_digits(s: Seq<char>, c: char)
    ensures
        numeral(Seq::<char>::empty()) is None,
        !(48 <= c as u32 <= 57) ==> numeral(s.push(c)) is None,
        s.len() == 0 && 48 <= c as u32 <= 57 ==> numeral(s.push(c)) == Some((c as u32 - 48) as nat),
        s.len() > 0 && numeral(s) is None ==> numeral(s.push(c)) is None,
        numeral(s) is Some && 48 <= c as u32 <= 57 ==> numeral(s.push(c)) == Some(
            (numeral(s)->0 * 10 + (c as u32 - 48)) as nat,
        ),
{
    let t = s.push(c);
    assert(t.drop_last() =~= s);
    assert(t[t.len() - 1] == c);
    if !(48 <= c as u32 <= 57) {
        assert(!decimal_digit(t[t.len() - 1]));
    } else if s.len() > 0 && numeral(s) is None {
        let i = choose|i: int| 0 <= i < s.len() && !decimal_digit(#[trigger] s[i]);
        assert(t[i] == s[i]);
        assert(!decimal_digit(t[i]));
    } else {
        assert forall|i: int| 0 <= i < t.len() implies decimal_digit(#[trigger] t[i]) by {
            if i < s.len() {
                assert(t[i] == s[i]);
            }
        }
        if s.len() == 0 {
            assert(value_of(s) == 0);
        }
    }
}

} // verus!
