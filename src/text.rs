use vstd::prelude::*;

verus! {

/// The characters with the Unicode `White_Space` property, as `char::is_whitespace`
/// documents them.
pub open spec fn is_space(c: char) -> bool {
    let u = c as u32;
    ||| 0x09 <= u <= 0x0D
    ||| u == 0x20
    ||| u == 0x85
    ||| u == 0xA0
    ||| u == 0x1680
    ||| 0x2000 <= u <= 0x200A
    ||| u == 0x2028
    ||| u == 0x2029
    ||| u == 0x202F
    ||| u == 0x205F
    ||| u == 0x3000
}

/// A text that is empty or made of whitespace alone.
pub open spec fn blank(t: Seq<char>) -> bool {
    forall|i: int| 0 <= i < t.len() ==> is_space(#[trigger] t[i])
}

pub fn space_char(c: char) -> (r: bool)
    ensures
        r == is_space(c),
{
    let u = c as u32;
    (0x09 <= u && u <= 0x0D) || u == 0x20 || u == 0x85 || u == 0xA0 || u == 0x1680 || (0x2000
        <= u && u <= 0x200A) || u == 0x2028 || u == 0x2029 || u == 0x202F || u == 0x205F || u
        == 0x3000
}

/// Whether every character of `t` is whitespace (true of the empty text).
pub fn all_space(t: &str) -> (r: bool)
    ensures
        r == blank(t@),
{
    let n = t.unicode_len();
    let mut i: usize = 0;
    while i < n
        invariant
            n == t@.len(),
            i <= n,
            forall|k: int| 0 <= k < i ==> is_space(#[trigger] t@[k]),
        decreases n - i,
    {
        if !space_char(t.get_char(i)) {
            return false;
        }
        i = i + 1;
    }
    true
}

pub open spec fn is_digit(c: char) -> bool {
    48 <= (c as u32) <= 57
}

pub open spec fn digit_value(c: char) -> nat {
    ((c as u32) - 48) as nat
}

pub open spec fn digit_char(d: nat) -> char {
    ((d + 48) as u8) as char
}

/// The number that a string of decimal digits denotes.
pub open spec fn digits_value(t: Seq<char>) -> nat
    decreases t.len(),
{
    if t.len() == 0 {
        0
    } else {
        digits_value(t.drop_last()) * 10 + digit_value(t.last())
    }
}

/// One or more decimal digits, denoting a number that fits in `usize`.
pub open spec fn digits_ok(t: Seq<char>) -> bool {
    &&& t.len() > 0
    &&& forall|i: int| 0 <= i < t.len() ==> is_digit(#[trigger] t[i])
    &&& digits_value(t) <= usize::MAX
}

/// `t` without one leading `+`, where it has one.
pub open spec fn sign_free(t: Seq<char>) -> Seq<char> {
    if t.len() > 0 && t[0] == '+' {
        t.skip(1)
    } else {
        t
    }
}

/// An unsigned number as `usize::from_str` reads it: an optional `+`, then
/// digits, denoting a number that fits in `usize`.
pub open spec fn numeral_ok(t: Seq<char>) -> bool {
    digits_ok(sign_free(t))
}

/// The number that such a text denotes.
pub open spec fn number_value(t: Seq<char>) -> nat {
    digits_value(sign_free(t))
}

/// The decimal digits of `n`, without leading zeros.
pub open spec fn numeral(n: nat) -> Seq<char>
    decreases n,
{
    if n < 10 {
        seq![digit_char(n)]
    } else {
        numeral(n / 10).push(digit_char(n % 10))
    }
}

proof fn lemma_digits_value_grows(t: Seq<char>, k: int)
    requires
        0 <= k <= t.len(),
    ensures
        digits_value(t.take(k)) <= digits_value(t),
    decreases t.len(),
{
    if k < t.len() {
        assert(t.drop_last().take(k) =~= t.take(k));
        lemma_digits_value_grows(t.drop_last(), k);
    } else {
        assert(t.take(k) =~= t);
    }
}

proof fn lemma_digit_char(d: nat)
    requires
        d < 10,
    ensures
        is_digit(digit_char(d)),
        digit_value(digit_char(d)) == d,
{
    let b = (d + 48) as u8;
    assert((b as char) as u32 == b as u32);
}

/// The numeral of `n` is a non-empty string of digits that denotes `n`.
pub proof fn lemma_numeral(n: nat)
    ensures
        numeral(n).len() > 0,
        forall|i: int| 0 <= i < numeral(n).len() ==> is_digit(#[trigger] numeral(n)[i]),
        digits_value(numeral(n)) == n,
    decreases n,
{
    lemma_digit_char(n % 10);
    if n >= 10 {
        lemma_numeral(n / 10);
        let t = numeral(n);
        assert(t.drop_last() =~= numeral(n / 10));
        assert(t.last() == digit_char(n % 10));
        assert(digits_value(t) == digits_value(numeral(n / 10)) * 10 + digit_value(digit_char(n % 10)));
        assert(n == (n / 10) * 10 + n % 10);
    } else {
        assert(n % 10 == n);
        let t = seq![digit_char(n)];
        assert(t.drop_last() =~= Seq::<char>::empty());
        assert(digits_value(t) == digits_value(t.drop_last()) * 10 + digit_value(t.last()));
        assert(digits_value(Seq::<char>::empty()) == 0);
    }
}

/// Reads an unsigned number: an optional `+`, then decimal digits; `None` unless
/// `numeral_ok`.
pub fn parse_decimal(t: &str) -> (r: Option<usize>)
    ensures
        r == (if numeral_ok(t@) {
            Some(number_value(t@) as usize)
        } else {
            None::<usize>
        }),
{
    let n = t.unicode_len();
    if n > 0 && t.get_char(0) == '+' {
        let u = t.substring_char(1, n);
        assert(u@ =~= t@.skip(1));
        parse_digits(u)
    } else {
        parse_digits(t)
    }
}

/// Reads a string of decimal digits; `None` unless `digits_ok`.
fn parse_digits(t: &str) -> (r: Option<usize>)
    ensures
        r == (if digits_ok(t@) {
            Some(digits_value(t@) as usize)
        } else {
            None::<usize>
        }),
{
    let n = t.unicode_len();
    if n == 0 {
        return None;
    }
    let mut acc: usize = 0;
    let mut i: usize = 0;
    assert(t@.take(0) =~= Seq::<char>::empty());
    while i < n
        invariant
            n == t@.len(),
            i <= n,
            acc == digits_value(t@.take(i as int)),
            forall|k: int| 0 <= k < i ==> is_digit(#[trigger] t@[k]),
        decreases n - i,
    {
        let c = t.get_char(i);
        let u = c as u32;
        if u < 48 || u > 57 {
            return None;
        }
        let d = (u - 48) as usize;
        assert(t@.take(i + 1).drop_last() =~= t@.take(i as int));
        if acc > (usize::MAX - d) / 10 {
            proof {
                assert(acc * 10 + d > usize::MAX) by (nonlinear_arith)
                    requires
                        acc > (usize::MAX - d) / 10,
                        d <= 9,
                ;
                lemma_digits_value_grows(t@, i + 1);
            }
            return None;
        }
        assert(acc * 10 + d <= usize::MAX) by (nonlinear_arith)
            requires
                acc <= (usize::MAX - d) / 10,
                d <= 9,
        ;
        acc = acc * 10 + d;
        i = i + 1;
    }
    assert(t@.take(n as int) =~= t@);
    Some(acc)
}

/// Relies on `String::push`: appends one character.
#[verifier::external_body]
pub(crate) fn push_char(s: &mut String, c: char)
    ensures
        final(s)@ == old(s)@.push(c),
{
    s.push(c);
}

/// Appends the decimal digits of `n`.
pub fn push_numeral(out: &mut String, n: usize)
    ensures
        final(out)@ == old(out)@ + numeral(n as nat),
    decreases n,
{
    if n >= 10 {
        push_numeral(out, n / 10);
    }
    let c = ((n % 10) as u8 + 48) as char;
    push_char(out, c);
    assert(c == digit_char((n % 10) as nat));
    assert(n < 10 ==> n % 10 == n);
    assert(final(out)@ =~= old(out)@ + numeral(n as nat));
}

} // verus!
