//! Decimal text, ASCII digits, whitespace trimming and the few `String`
//! operations the rest of the library builds its messages from.

use vstd::prelude::*;
use vstd::string::*;

verus! {

/// The ASCII digit for `d` in `0..=9`.
pub open spec fn digit_char(d: int) -> char {
    (48 + d) as char
}

pub open spec fn is_digit(c: char) -> bool {
    48 <= c as u32 <= 57
}

pub open spec fn digit_value(c: char) -> nat {
    (c as u32 - 48) as nat
}

pub open spec fn all_digits(s: Seq<char>) -> bool {
    forall|i: int| 0 <= i < s.len() ==> is_digit(#[trigger] s[i])
}

/// Decimal representation of `n` without leading zeros (`"0"` for zero).
pub open spec fn decimal(n: nat) -> Seq<char>
    decreases n,
{
    if n < 10 {
        seq![digit_char(n as int)]
    } else {
        decimal(n / 10).push(digit_char((n % 10) as int))
    }
}

/// What `{}` prints for an integer.
pub open spec fn int_text(x: int) -> Seq<char> {
    if x < 0 {
        seq!['-'] + decimal((-x) as nat)
    } else {
        decimal(x as nat)
    }
}

/// `s` preceded by enough `'0'` to make it at least `width` long.
pub open spec fn pad_zeros(s: Seq<char>, width: nat) -> Seq<char> {
    if s.len() >= width {
        s
    } else {
        Seq::new((width - s.len()) as nat, |i: int| '0') + s
    }
}

/// What `{:0width$}` prints for an integer: the sign first, then zeros.
pub open spec fn padded_int(x: int, width: nat) -> Seq<char> {
    if x < 0 {
        seq!['-'] + pad_zeros(decimal((-x) as nat), if width == 0 { 0 } else { (width - 1) as nat })
    } else {
        pad_zeros(decimal(x as nat), width)
    }
}

/// The number that a string of ASCII digits spells.
pub open spec fn digits_value(s: Seq<char>) -> nat
    decreases s.len(),
{
    if s.len() == 0 {
        0
    } else {
        digits_value(s.drop_last()) * 10 + digit_value(s.last())
    }
}

pub open spec fn pow10(n: nat) -> nat
    decreases n,
{
    if n == 0 {
        1
    } else {
        10 * pow10((n - 1) as nat)
    }
}

pub proof fn lemma_digits_value_bound(s: Seq<char>)
    requires
        all_digits(s),
    ensures
        digits_value(s) < pow10(s.len()),
    decreases s.len(),
{
    if s.len() > 0 {
        assert(all_digits(s.drop_last()));
        lemma_digits_value_bound(s.drop_last());
        assert(is_digit(s[s.len() - 1]));
    }
}

/// Decimal text is digits that spell the number, as many as the number needs.
pub proof fn lemma_decimal(n: nat)
    ensures
        all_digits(decimal(n)),
        digits_value(decimal(n)) == n,
        1 <= decimal(n).len(),
        n < 10 ==> decimal(n).len() <= 1,
        n < 100 ==> decimal(n).len() <= 2,
        n < 1000 ==> decimal(n).len() <= 3,
        n < 10000 ==> decimal(n).len() <= 4,
    decreases n,
{
    if n < 10 {
        let c = digit_char(n as int);
        assert(c as u32 == 48 + n);
        assert(digit_value(c) == n);
        assert(seq![c].drop_last() =~= Seq::<char>::empty());
        assert(seq![c].last() == c);
        assert(digits_value(seq![c]) == digits_value(Seq::<char>::empty()) * 10 + digit_value(c));
    } else {
        lemma_decimal(n / 10);
        let s = decimal(n / 10);
        let c = digit_char((n % 10) as int);
        assert(c as u32 == 48 + n % 10);
        assert(s.push(c).drop_last() =~= s);
        assert(s.push(c).last() == c);
        assert(digit_value(c) == n % 10);
        assert(digits_value(s.push(c)) == digits_value(s) * 10 + digit_value(c));
        assert(forall|i: int| 0 <= i < s.len() ==> #[trigger] s.push(c)[i] == s[i]);
    }
}

/// A leading zero does not change what digits spell.
proof fn lemma_leading_zero(s: Seq<char>)
    ensures
        digits_value(seq!['0'] + s) == digits_value(s),
    decreases s.len(),
{
    let t = seq!['0'] + s;
    if s.len() == 0 {
        assert(t.drop_last() =~= Seq::<char>::empty());
        assert(t.last() == '0');
        assert(digits_value(t) == digits_value(t.drop_last()) * 10 + digit_value(t.last()));
    } else {
        lemma_leading_zero(s.drop_last());
        assert(t.drop_last() =~= seq!['0'] + s.drop_last());
        assert(t.last() == s.last());
        assert(digits_value(t) == digits_value(t.drop_last()) * 10 + digit_value(t.last()));
    }
}

/// Padding digits with zeros keeps them digits that spell the same number.
pub proof fn lemma_pad_zeros(s: Seq<char>, width: nat)
    requires
        all_digits(s),
        s.len() <= width,
    ensures
        pad_zeros(s, width).len() == width,
        all_digits(pad_zeros(s, width)),
        digits_value(pad_zeros(s, width)) == digits_value(s),
    decreases width - s.len(),
{
    if s.len() < width {
        let t = seq!['0'] + s;
        assert(all_digits(t));
        lemma_pad_zeros(t, width);
        lemma_leading_zero(s);
        assert(pad_zeros(t, width) =~= pad_zeros(s, width));
    }
}

/// Unicode `White_Space`, the set `char::is_whitespace` and `str::trim` use.
pub open spec fn is_white(c: char) -> bool {
    let u = c as u32;
    (9 <= u <= 13) || u == 32 || u == 0x85 || u == 0xA0 || u == 0x1680 || (0x2000 <= u <= 0x200A)
        || u == 0x2028 || u == 0x2029 || u == 0x202F || u == 0x205F || u == 0x3000
}

pub open spec fn trim_start(s: Seq<char>) -> Seq<char>
    decreases s.len(),
{
    if s.len() > 0 && is_white(s[0]) {
        trim_start(s.drop_first())
    } else {
        s
    }
}

pub open spec fn trim_end(s: Seq<char>) -> Seq<char>
    decreases s.len(),
{
    if s.len() > 0 && is_white(s.last()) {
        trim_end(s.drop_last())
    } else {
        s
    }
}

/// What `str::trim` leaves of `s`.
pub open spec fn trim(s: Seq<char>) -> Seq<char> {
    trim_end(trim_start(s))
}

/// What `{:?}` prints for a string: the text in double quotes with the
/// characters that Rust's `Debug` escapes written as escapes.
pub uninterp spec fn debug_text(s: Seq<char>) -> Seq<char>;

/// A `Result` with a `String` error, its error read as text.
pub open spec fn res_view<T>(r: Result<T, String>) -> Result<T, Seq<char>> {
    match r {
        Ok(v) => Ok(v),
        Err(e) => Err(e@),
    }
}

pub fn is_white_char(c: char) -> (r: bool)
    ensures
        r == is_white(c),
{
    let u = c as u32;
    (9 <= u && u <= 13) || u == 32 || u == 0x85 || u == 0xA0 || u == 0x1680 || (0x2000 <= u && u
        <= 0x200A) || u == 0x2028 || u == 0x2029 || u == 0x202F || u == 0x205F || u == 0x3000
}

proof fn lemma_trim_start_skip(s: Seq<char>, i: int)
    requires
        0 <= i < s.len(),
        is_white(s[i]),
    ensures
        trim_start(s.subrange(i, s.len() as int)) == trim_start(s.subrange(i + 1, s.len() as int)),
{
    assert(s.subrange(i, s.len() as int).drop_first() =~= s.subrange(i + 1, s.len() as int));
}

proof fn lemma_trim_end_skip(s: Seq<char>, j: int)
    requires
        0 < j <= s.len(),
        is_white(s[j - 1]),
    ensures
        trim_end(s.subrange(0, j)) == trim_end(s.subrange(0, j - 1)),
{
    assert(s.subrange(0, j).drop_last() =~= s.subrange(0, j - 1));
}

/// Where the text that `str::trim` keeps starts and ends.
pub fn trim_bounds(v: &Vec<char>) -> (r: (usize, usize))
    ensures
        r.0 <= r.1 <= v.len(),
        trim(v@) == v@.subrange(r.0 as int, r.1 as int),
        trim_start(v@) == v@.subrange(r.0 as int, v.len() as int),
{
    let n = v.len();
    let mut i: usize = 0;
    assert(v@.subrange(0, n as int) =~= v@);
    while i < n && is_white_char(v[i])
        invariant
            i <= n == v.len(),
            trim_start(v@) == trim_start(v@.subrange(i as int, n as int)),
        decreases n - i,
    {
        proof {
            lemma_trim_start_skip(v@, i as int);
        }
        i = i + 1;
    }
    let ghost x = v@.subrange(i as int, n as int);
    assert(trim_start(v@) == x);
    let mut j: usize = n;
    assert(x.subrange(0, (n - i) as int) =~= x);
    while j > i && is_white_char(v[j - 1])
        invariant
            i <= j <= n == v.len(),
            x == v@.subrange(i as int, n as int),
            trim_end(x) == trim_end(x.subrange(0, (j - i) as int)),
        decreases j,
    {
        proof {
            assert(x[(j - i) - 1] == v@[j - 1]);
            lemma_trim_end_skip(x, (j - i) as int);
        }
        j = j - 1;
    }
    assert(x.subrange(0, (j - i) as int) =~= v@.subrange(i as int, j as int));
    (i, j)
}

/// `String::push`: appends one character.
#[verifier::external_body]
pub(crate) fn push_char(out: &mut String, c: char)
    ensures
        final(out)@ == old(out)@.push(c),
{
    out.push(c);
}

/// `{:?}` on a string slice (std's `Debug` for `str`): the quoted, escaped
/// text. Nothing is claimed of it beyond that it depends on `s` alone.
#[verifier::external_body]
pub(crate) fn debug_str(s: &str) -> (r: String)
    ensures
        r@ == debug_text(s@),
{
    format!("{s:?}")
}

/// `s` without its leading and trailing Unicode white space, as `str::trim` gives it.
pub(crate) fn str_trim(s: &str) -> (r: &str)
    ensures
        r@ == trim(s@),
{
    let v = str_chars(s);
    let (a, b) = trim_bounds(&v);
    s.substring_char(a, b)
}

/// Position of the first `c` in `t` at or after `i`, or `t.len()` if there is none.
pub open spec fn find_char(t: Seq<char>, c: char, i: int) -> int
    decreases t.len() - i,
{
    if i >= t.len() {
        t.len() as int
    } else if t[i] == c {
        i
    } else {
        find_char(t, c, i + 1)
    }
}

/// `s` without its trailing `'0'` characters.
pub open spec fn trim_zeros_end(s: Seq<char>) -> Seq<char>
    decreases s.len(),
{
    if s.len() > 0 && s.last() == '0' {
        trim_zeros_end(s.drop_last())
    } else {
        s
    }
}

pub proof fn lemma_pow10_positive(n: nat)
    ensures
        pow10(n) >= 1,
    decreases n,
{
    if n > 0 {
        lemma_pow10_positive((n - 1) as nat);
    }
}

pub proof fn lemma_pow10_monotone(a: nat, b: nat)
    requires
        a <= b,
    ensures
        pow10(a) <= pow10(b),
    decreases b,
{
    if a < b {
        lemma_pow10_monotone(a, (b - 1) as nat);
        lemma_pow10_positive((b - 1) as nat);
    }
}

pub proof fn lemma_pow10_add(a: nat, b: nat)
    ensures
        pow10(a) * pow10(b) == pow10(a + b),
    decreases a,
{
    if a > 0 {
        lemma_pow10_add((a - 1) as nat, b);
        assert(pow10(a + b) == 10 * pow10((a - 1 + b) as nat));
        assert(pow10(a) * pow10(b) == 10 * (pow10((a - 1) as nat) * pow10(b))) by (nonlinear_arith)
            requires
                pow10(a) == 10 * pow10((a - 1) as nat),
        ;
    } else {
        assert(pow10(a) == 1);
        assert(pow10(a) * pow10(b) == pow10(b));
    }
}

/// A longer run of digits spells at least as large a number as its prefix.
pub proof fn lemma_digits_value_prefix(s: Seq<char>, j: int, k: int)
    requires
        0 <= j <= k <= s.len(),
    ensures
        digits_value(s.subrange(0, j)) <= digits_value(s.subrange(0, k)),
    decreases k - j,
{
    if j < k {
        lemma_digits_value_prefix(s, j, k - 1);
        assert(s.subrange(0, k).drop_last() =~= s.subrange(0, k - 1));
    }
}

/// `10^n` for `n <= 38`, the powers that fit in `i128`.
pub fn pow10_i128(n: u32) -> (r: i128)
    requires
        n <= 38,
    ensures
        r == pow10(n as nat),
{
    proof {
        reveal_with_fuel(pow10, 39);
        assert(pow10(38) == 100000000000000000000000000000000000000);
    }
    let mut acc: i128 = 1;
    let mut k: u32 = 0;
    while k < n
        invariant
            k <= n <= 38,
            acc == pow10(k as nat),
            pow10(38) == 100000000000000000000000000000000000000,
        decreases n - k,
    {
        proof {
            lemma_pow10_monotone((k + 1) as nat, 38);
        }
        acc = acc * 10;
        k = k + 1;
    }
    acc
}

/// The characters of `s`, in order.
pub fn str_chars(s: &str) -> (v: Vec<char>)
    ensures
        v@ == s@,
{
    let mut v: Vec<char> = Vec::new();
    for c in it: s.chars()
        invariant
            it.seq() == s@,
            v@ == it.seq().take(it.index() as int),
    {
        v.push(c);
    }
    v
}

pub fn digit(d: u128) -> (c: char)
    requires
        d < 10,
    ensures
        c == digit_char(d as int),
{
    let b: u8 = 48 + d as u8;
    b as char
}

/// Appends the decimal digits of `n`.
pub fn write_decimal(out: &mut String, n: u128)
    ensures
        final(out)@ == old(out)@ + decimal(n as nat),
    decreases n,
{
    if n >= 10 {
        write_decimal(out, n / 10);
    }
    push_char(out, digit(n % 10));
}

/// Appends what `{}` prints for `x`.
pub fn write_int(out: &mut String, x: i128)
    ensures
        final(out)@ == old(out)@ + int_text(x as int),
{
    if x < 0 {
        push_char(out, '-');
        let m: u128 = (-(x + 1)) as u128 + 1;
        write_decimal(out, m);
        assert(final(out)@ =~= old(out)@ + int_text(x as int));
    } else {
        write_decimal(out, x as u128);
    }
}

/// Appends what `{:0width$}` prints for `x`.
pub fn write_padded(out: &mut String, x: i128, width: usize)
    ensures
        final(out)@ == old(out)@ + padded_int(x as int, width as nat),
{
    let ghost start = out@;
    let m: u128 = if x < 0 {
        push_char(out, '-');
        (-(x + 1)) as u128 + 1
    } else {
        x as u128
    };
    let w: usize = if x < 0 && width > 0 { width - 1 } else if x < 0 { 0 } else { width };
    let mut digits = String::new();
    write_decimal(&mut digits, m);
    let len = digits.as_str().unicode_len();
    let ghost before_zeros = out@;
    let mut k: usize = len;
    while k < w
        invariant
            len == decimal(m as nat).len(),
            len <= k <= w || (k == len && len > w),
            out@ == before_zeros + Seq::new((k - len) as nat, |i: int| '0'),
        decreases w - k,
    {
        push_char(out, '0');
        k = k + 1;
        assert(out@ =~= before_zeros + Seq::new((k - len) as nat, |i: int| '0'));
    }
    out.append(digits.as_str());
    assert(out@ =~= old(out)@ + padded_int(x as int, width as nat));
}

} // verus!
