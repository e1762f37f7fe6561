//! Decimal numbers: writing, padding and reading them.
use crate::order;
use crate::text;
use vstd::prelude::*;

verus! {

/// The decimal digit of a value below ten.
pub open spec fn digit(n: int) -> char {
    (48 + n) as char
}

/// The decimal digits of a number, without leading zeros.
pub open spec fn decimal(n: nat) -> Seq<char>
    decreases n,
{
    if n < 10 {
        seq![digit(n as int)]
    } else {
        decimal(n / 10).push(digit((n % 10) as int))
    }
}

/// `n` times the character `c`.
pub open spec fn repeated(c: char, n: nat) -> Seq<char> {
    Seq::new(n, |i: int| c)
}

/// The text, filled up on the left with `c` to at least `width` characters.
pub open spec fn padded(s: Seq<char>, width: nat, c: char) -> Seq<char> {
    if s.len() >= width {
        s
    } else {
        repeated(c, (width - s.len()) as nat) + s
    }
}

/// The text, filled up on the right with `c` to at least `width` characters.
pub open spec fn padded_right(s: Seq<char>, width: nat, c: char) -> Seq<char> {
    if s.len() >= width {
        s
    } else {
        s + repeated(c, (width - s.len()) as nat)
    }
}

/// Whether every character is a decimal digit.
pub open spec fn all_digits(s: Seq<char>) -> bool {
    forall|i: int| 0 <= i < s.len() ==> text::is_digit(#[trigger] s[i])
}

/// The number that decimal digits stand for.
pub open spec fn value(s: Seq<char>) -> nat
    decreases s.len(),
{
    if s.len() == 0 {
        0
    } else {
        value(s.drop_last()) * 10 + (s.last() as int - 48) as nat
    }
}

/// The text without one leading plus sign.
pub open spec fn without_plus(s: Seq<char>) -> Seq<char> {
    if s.len() > 0 && s[0] == '+' {
        s.skip(1)
    } else {
        s
    }
}

/// The number that a text stands for: digits, at least one, after an optional plus sign, with
/// a value of at most `max`.
pub open spec fn parsed(s: Seq<char>, max: nat) -> Option<nat> {
    let d = without_plus(s);
    if d.len() > 0 && all_digits(d) && value(d) <= max {
        Some(value(d))
    } else {
        None
    }
}

/// Writes a number in decimal digits.
pub fn to_decimal(n: u64) -> (r: Vec<char>)
    ensures
        r@ == decimal(n as nat),
    decreases n,
{
    let low: u8 = (n % 10) as u8;
    let c: char = (48u8 + low) as char;
    let mut out: Vec<char> = if n < 10 {
        Vec::new()
    } else {
        to_decimal(n / 10)
    };
    out.push(c);
    out
}

/// Writes `n` times the character `c`.
fn repeat(c: char, n: usize) -> (r: Vec<char>)
    ensures
        r@ == repeated(c, n as nat),
{
    let mut out: Vec<char> = Vec::new();
    let mut i: usize = 0;
    while i < n
        invariant
            i <= n,
            out@ == repeated(c, i as nat),
        decreases n - i,
    {
        out.push(c);
        i += 1;
        assert(out@ =~= repeated(c, i as nat));
    }
    out
}

/// Fills a text up on the left.
pub fn pad(s: &[char], width: usize, c: char) -> (r: Vec<char>)
    ensures
        r@ == padded(s@, width as nat, c),
{
    if s.len() >= width {
        return text::vec_of(s);
    }
    let mut out = repeat(c, width - s.len());
    text::push_all(&mut out, s);
    out
}

/// Fills a text up on the right.
pub fn pad_right(s: &[char], width: usize, c: char) -> (r: Vec<char>)
    ensures
        r@ == padded_right(s@, width as nat, c),
{
    let mut out = text::vec_of(s);
    if s.len() < width {
        let fill = repeat(c, width - s.len());
        text::push_all(&mut out, &fill);
    }
    out
}

/// The value of a longer text is at least that of its front.
proof fn lemma_value_grows(s: Seq<char>, i: int)
    requires
        all_digits(s),
        0 <= i <= s.len(),
    ensures
        value(s.take(i)) <= value(s),
    decreases s.len() - i,
{
    if i < s.len() {
        lemma_value_grows(s, i + 1);
        assert(s.take(i + 1).drop_last() =~= s.take(i));
        assert(text::is_digit(s[i]));
    } else {
        assert(s.take(i) =~= s);
    }
}

/// Reads a number of at most `max`.
pub fn parse(s: &[char], max: u64) -> (r: Option<u64>)
    ensures
        match r {
            Some(n) => parsed(s@, max as nat) == Some(n as nat),
            None => parsed(s@, max as nat) is None,
        },
{
    let d: &[char] = if s.len() > 0 && s[0] == '+' {
        text::skip(s, 1)
    } else {
        s
    };
    let len: usize = d.len();
    if len == 0 {
        return None;
    }
    let mut n: u64 = 0;
    let mut i: usize = 0;
    while i < len
        invariant
            i <= len == d@.len(),
            d@ == without_plus(s@),
            forall|j: int| 0 <= j < i ==> text::is_digit(#[trigger] d@[j]),
            n == value(d@.take(i as int)),
            n <= max,
        decreases len - i,
    {
        let c: char = d[i];
        if !(c >= '0' && c <= '9') {
            assert(!text::is_digit(d@[i as int]));
            return None;
        }
        let low: u64 = (c as u64) - 48;
        proof {
            assert(d@.take(i + 1).drop_last() =~= d@.take(i as int));
            assert(value(d@.take(i + 1)) == n * 10 + low);
            if all_digits(d@) {
                lemma_value_grows(d@, i + 1);
            }
        }
        if n > max / 10 {
            return None;
        }
        let tens: u64 = n * 10;
        if low > max - tens {
            return None;
        }
        n = tens + low;
        i += 1;
    }
    assert(d@.take(len as int) =~= d@);
    Some(n)
}

/// The digits of a number are digits, and there is at least one.
pub proof fn lemma_decimal_digits(n: nat)
    ensures
        decimal(n).len() > 0,
        all_digits(decimal(n)),
    decreases n,
{
    if n >= 10 {
        lemma_decimal_digits(n / 10);
        let front = decimal(n / 10);
        assert forall|i: int| 0 <= i < decimal(n).len() implies text::is_digit(
            #[trigger] decimal(n)[i],
        ) by {
            if i < front.len() {
                assert(decimal(n)[i] == front[i]);
            }
        }
    }
}

/// Reading the digits of a number gives the number.
pub proof fn lemma_decimal_value(n: nat)
    ensures
        value(decimal(n)) == n,
    decreases n,
{
    let d = decimal(n);
    if n < 10 {
        assert(d.drop_last() =~= Seq::<char>::empty());
        assert(value(d.drop_last()) == 0);
    } else {
        lemma_decimal_value(n / 10);
        assert(d.drop_last() =~= decimal(n / 10));
    }
}

/// Leading zeros change neither the value nor that all characters are digits.
pub proof fn lemma_padded_value(s: Seq<char>, width: nat)
    requires
        all_digits(s),
    ensures
        all_digits(padded(s, width, '0')),
        value(padded(s, width, '0')) == value(s),
        padded(s, width, '0').len() == (if s.len() >= width { s.len() } else { width }),
{
    if s.len() < width {
        let n = (width - s.len()) as nat;
        lemma_zeros_in_front(n, s);
    }
}

/// The value of zeros followed by digits is that of the digits.
proof fn lemma_zeros_in_front(n: nat, s: Seq<char>)
    requires
        all_digits(s),
    ensures
        all_digits(repeated('0', n) + s),
        value(repeated('0', n) + s) == value(s),
    decreases s.len(), n,
{
    let t = repeated('0', n) + s;
    if s.len() > 0 {
        assert(all_digits(s.drop_last()));
        lemma_zeros_in_front(n, s.drop_last());
        assert(t.drop_last() =~= repeated('0', n) + s.drop_last());
        assert forall|i: int| 0 <= i < t.len() implies text::is_digit(#[trigger] t[i]) by {
            if i >= n {
                assert(t[i] == s[i - n]);
            }
        }
    } else if n > 0 {
        lemma_zeros_in_front((n - 1) as nat, s);
        assert(t.drop_last() =~= repeated('0', (n - 1) as nat) + s);
    } else {
        assert(t =~= s);
    }
}

/// Reading a number that was written with leading zeros gives the number.
pub proof fn lemma_padded_decimal_parsed(n: nat, width: nat, max: nat)
    requires
        n <= max,
    ensures
        parsed(padded(decimal(n), width, '0'), max) == Some(n),
{
    lemma_decimal_digits(n);
    lemma_decimal_value(n);
    lemma_padded_value(decimal(n), width);
    let p = padded(decimal(n), width, '0');
    assert(text::is_digit(p[0]));
}

/// Digit texts of one length come in the order of their values.
pub proof fn lemma_digits_in_order(a: Seq<char>, b: Seq<char>)
    requires
        a.len() == b.len(),
        all_digits(a),
        all_digits(b),
        value(a) <= value(b),
    ensures
        order::text_le(a, b),
    decreases a.len(),
{
    if a.len() > 0 {
        let x = a.drop_last();
        let y = b.drop_last();
        assert forall|i: int| 0 <= i < x.len() implies text::is_digit(#[trigger] x[i]) by {
            assert(x[i] == a[i]);
        }
        assert forall|i: int| 0 <= i < y.len() implies text::is_digit(#[trigger] y[i]) by {
            assert(y[i] == b[i]);
        }
        assert(text::is_digit(a[a.len() - 1]));
        assert(text::is_digit(b[b.len() - 1]));
        order::lemma_text_le_by_last(a, b);
        if x != y {
            lemma_digits_in_order(x, y);
        }
    }
}

/// A number below a million has at most six digits.
pub proof fn lemma_six_digits(n: nat)
    requires
        n < 1_000_000,
    ensures
        decimal(n).len() <= 6,
{
    reveal_with_fuel(decimal, 7);
}

/// A text that is shorter than the width is filled up on its side, and one that is not stays.
pub proof fn law_padded(s: Seq<char>, width: nat, c: char, fill: Seq<char>)
    requires
        forall|i: int| 0 <= i < fill.len() ==> #[trigger] fill[i] == c,
        s.len() + fill.len() == width || s.len() >= width && fill.len() == 0,
    ensures
        padded(s, width, c) == fill + s,
        padded_right(s, width, c) == s + fill,
{
    assert(padded(s, width, c) =~= fill + s);
    assert(padded_right(s, width, c) =~= s + fill);
}

/// A number in decimal is its digits from the left: all but the last are those of its tenth.
pub proof fn law_decimal(n: nat, d: char)
    requires
        '0' <= d <= '9',
    ensures
        n > 0 ==> decimal((10 * n + (d as int - 48)) as nat) == decimal(n).push(d),
        decimal((d as int - 48) as nat) == seq![d],
{
    let k = d as int - 48;
    let m = (10 * n + k) as nat;
    if n > 0 {
        assert(m / 10 == n && m % 10 == k) by (nonlinear_arith)
            requires
                m == 10 * n + k,
                0 <= k < 10,
        ;
    }
    assert(digit(k) == d);
    assert(decimal(k as nat) =~= seq![d]);
}

/// A number is read back from its decimal digits, where it is within the limit; a text without
/// digits, or with a minus sign, stands for none.
pub proof fn law_parsed(s: Seq<char>, max: nat, n: nat)
    ensures
        parsed(seq![], max) is None,
        parsed(s, max) matches Some(v) ==> v <= max,
        n <= max ==> parsed(decimal(n), max) == Some(n),
        n > max ==> parsed(decimal(n), max) is None,
        s.contains('-') ==> parsed(s, max) is None,
{
    lemma_decimal_digits(n);
    lemma_decimal_value(n);
    assert(without_plus(decimal(n)) == decimal(n));
    if s.contains('-') {
        let j = choose|j: int| 0 <= j < s.len() && s[j] == '-';
        let t = without_plus(s);
        if t != s {
            assert(t[j - 1] == '-');
        } else {
            assert(t[j] == '-');
        }
    }
}

} // verus!
