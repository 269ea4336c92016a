//! Decimal rendering of unsigned integers into strings.

use vstd::prelude::*;

verus! {

/// Decimal digit character for `d < 10`.
pub open spec fn digit_char(d: nat) -> char {
    if d == 0 { '0' } else if d == 1 { '1' } else if d == 2 { '2' } else if d == 3 { '3' }
    else if d == 4 { '4' } else if d == 5 { '5' } else if d == 6 { '6' } else if d == 7 { '7' }
    else if d == 8 { '8' } else { '9' }
}

/// The decimal representation of `x`, without leading zeros.
pub open spec fn decimal(x: nat) -> Seq<char>
    decreases x,
{
    if x < 10 {
        seq![digit_char(x)]
    } else {
        decimal(x / 10).push(digit_char(x % 10))
    }
}

/// Calls `String::push` of std, which appends one character to the end of the
/// string; the contract states exactly that of the string's characters.
#[verifier::external_body]
pub(crate) fn push_char(s: &mut String, c: char)
    ensures
        final(s)@ == old(s)@.push(c),
{
    s.push(c);
}

fn digit(d: u64) -> (c: char)
    requires
        d < 10,
    ensures
        c == digit_char(d as nat),
{
    if d == 0 { '0' } else if d == 1 { '1' } else if d == 2 { '2' } else if d == 3 { '3' }
    else if d == 4 { '4' } else if d == 5 { '5' } else if d == 6 { '6' } else if d == 7 { '7' }
    else if d == 8 { '8' } else { '9' }
}

/// Appends the decimal representation of `x` to `s`.
pub fn push_decimal(s: &mut String, x: u64)
    ensures
        final(s)@ == old(s)@ + decimal(x as nat),
        final(s)@.len() > old(s)@.len(),
        final(s)@.subrange(0, old(s)@.len() as int) == old(s)@,
        all_digits(final(s)@.subrange(old(s)@.len() as int, final(s)@.len() as int)),
        digits_value(final(s)@.subrange(old(s)@.len() as int, final(s)@.len() as int)) == x,
    decreases x,
{
    proof {
        lemma_decimal_value(x as nat);
    }
    let ghost start = s@;
    if x >= 10 {
        push_decimal(s, x / 10);
    }
    push_char(s, digit(x % 10));
    assert(s@.subrange(start.len() as int, s@.len() as int) =~= decimal(x as nat));
    assert(s@.subrange(0, start.len() as int) =~= start);
}

/// `decimal(x)` left-padded with zeros to at least `width` characters.
pub open spec fn zero_padded(x: nat, width: nat) -> Seq<char> {
    let d = decimal(x);
    if d.len() < width {
        Seq::new((width - d.len()) as nat, |_i: int| '0') + d
    } else {
        d
    }
}

/// The number written by a string of decimal digits.
pub open spec fn digits_value(s: Seq<char>) -> int
    decreases s.len(),
{
    if s.len() == 0 {
        0
    } else {
        digits_value(s.drop_last()) * 10 + (s.last() as int - '0' as int)
    }
}

/// Every character of `s` is a decimal digit.
pub open spec fn all_digits(s: Seq<char>) -> bool {
    forall|i: int| 0 <= i < s.len() ==> '0' <= #[trigger] s[i] <= '9'
}

proof fn lemma_digit_char_value(d: nat)
    requires
        d < 10,
    ensures
        digit_char(d) as int - '0' as int == d,
        '0' <= digit_char(d) <= '9',
{
    assert('0' as int == 48 && '1' as int == 49 && '2' as int == 50 && '3' as int == 51
        && '4' as int == 52 && '5' as int == 53 && '6' as int == 54 && '7' as int == 55
        && '8' as int == 56 && '9' as int == 57);
}

/// `decimal(x)` is a non-empty string of digits that writes `x`, with no
/// leading zero unless `x` is 0.
pub proof fn lemma_decimal_value(x: nat)
    ensures
        decimal(x).len() >= 1,
        all_digits(decimal(x)),
        digits_value(decimal(x)) == x,
        x >= 10 ==> decimal(x)[0] != '0',
    decreases x,
{
    lemma_digit_char_value(x % 10);
    if x < 10 {
        lemma_digit_char_value(x);
        assert(seq![digit_char(x)].drop_last() =~= Seq::<char>::empty());
        assert(decimal(x)[0] == digit_char(x));
        assert(digits_value(Seq::<char>::empty()) == 0);
        assert(digits_value(decimal(x)) == digits_value(Seq::<char>::empty()) * 10 + (digit_char(x) as int - '0' as int));
    }
    if x >= 10 {
        lemma_decimal_value(x / 10);
        let d = decimal(x);
        assert(d.drop_last() =~= decimal(x / 10));
        assert(d[0] == decimal(x / 10)[0]);
        if x / 10 < 10 {
            lemma_digit_char_value(x / 10);
            assert(decimal(x / 10) =~= seq![digit_char(x / 10)]);
        }
        assert forall|i: int| 0 <= i < d.len() implies '0' <= #[trigger] d[i] <= '9' by {
            if i < d.len() - 1 {
                assert(d[i] == decimal(x / 10)[i]);
            }
        }
    }
}

proof fn lemma_zeros_value(k: nat)
    ensures
        digits_value(Seq::new(k, |_i: int| '0')) == 0,
    decreases k,
{
    if k > 0 {
        assert(Seq::new(k, |_i: int| '0').drop_last() =~= Seq::new((k - 1) as nat, |_i: int| '0'));
        lemma_zeros_value((k - 1) as nat);
    }
}

proof fn lemma_leading_zeros_value(z: Seq<char>, d: Seq<char>)
    requires
        digits_value(z) == 0,
    ensures
        digits_value(z + d) == digits_value(d),
    decreases d.len(),
{
    if d.len() == 0 {
        assert(z + d =~= z);
    } else {
        lemma_leading_zeros_value(z, d.drop_last());
        assert((z + d).drop_last() =~= z + d.drop_last());
    }
}

/// `zero_padded(x, width)` is a string of digits that writes `x` and is
/// exactly `width` long, or as long as `decimal(x)` if that is longer.
pub proof fn lemma_zero_padded_value(x: nat, width: nat)
    ensures
        all_digits(zero_padded(x, width)),
        digits_value(zero_padded(x, width)) == x,
        zero_padded(x, width).len() == if decimal(x).len() < width { width } else { decimal(x).len() },
{
    lemma_decimal_value(x);
    let d = decimal(x);
    if d.len() < width {
        let z = Seq::new((width - d.len()) as nat, |_i: int| '0');
        lemma_zeros_value((width - d.len()) as nat);
        lemma_leading_zeros_value(z, d);
        let p = z + d;
        assert forall|i: int| 0 <= i < p.len() implies '0' <= #[trigger] p[i] <= '9' by {
            if i >= z.len() {
                assert(p[i] == d[i - z.len()]);
            }
        }
    }
}

/// Number of characters in the decimal representation of `x`.
fn decimal_len(x: u64) -> (k: u64)
    ensures
        k == decimal(x as nat).len(),
        1 <= k <= x as int + 1,
    decreases x,
{
    if x < 10 {
        1
    } else {
        decimal_len(x / 10) + 1
    }
}

/// Appends `decimal(x)`, left-padded with zeros to `width` characters, to `s`.
pub fn push_zero_padded(s: &mut String, x: u64, width: u64)
    ensures
        final(s)@ == old(s)@ + zero_padded(x as nat, width as nat),
        final(s)@.subrange(0, old(s)@.len() as int) == old(s)@,
        all_digits(final(s)@.subrange(old(s)@.len() as int, final(s)@.len() as int)),
        digits_value(final(s)@.subrange(old(s)@.len() as int, final(s)@.len() as int)) == x,
        final(s)@.len() - old(s)@.len() >= width,
        final(s)@.len() - old(s)@.len() >= decimal(x as nat).len(),
{
    proof {
        lemma_zero_padded_value(x as nat, width as nat);
    }
    let ghost start = s@;
    let k = decimal_len(x);
    let mut i = k;
    while i < width
        invariant
            k <= i,
            k < width ==> i <= width,
            k >= width ==> i == k,
            s@ == start + Seq::new((i - k) as nat, |_j: int| '0'),
        decreases width - i,
    {
        push_char(s, '0');
        i = i + 1;
        assert(s@ =~= start + Seq::new((i - k) as nat, |_j: int| '0'));
    }
    push_decimal(s, x);
    proof {
        let d = decimal(x as nat);
        if d.len() < width {
            assert(s@ =~= start + (Seq::new((width - d.len()) as nat, |_j: int| '0') + d));
        } else {
            assert(s@ =~= start + d);
        }
        assert(s@.subrange(start.len() as int, s@.len() as int) =~= zero_padded(x as nat, width as nat));
        assert(s@.subrange(0, start.len() as int) =~= start);
    }
}

} // verus!
