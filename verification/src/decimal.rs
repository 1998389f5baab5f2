use vstd::prelude::*;

verus! {

/// The decimal digit character for `d`, for `0 <= d <= 9`.
pub open spec fn digit_char(d: int) -> char {
    if d == 0 { '0' }
    else if d == 1 { '1' }
    else if d == 2 { '2' }
    else if d == 3 { '3' }
    else if d == 4 { '4' }
    else if d == 5 { '5' }
    else if d == 6 { '6' }
    else if d == 7 { '7' }
    else if d == 8 { '8' }
    else { '9' }
}

/// Whether `c` is a decimal digit character.
pub open spec fn is_digit(c: char) -> bool {
    c == '0' || c == '1' || c == '2' || c == '3' || c == '4' || c == '5' || c == '6' || c == '7'
        || c == '8' || c == '9'
}

/// The numeric value of a digit character.
pub open spec fn digit_val(c: char) -> int {
    c as int - 48
}

/// The decimal rendering of `n`, most significant digit first,
/// with no leading zeros (the rendering of 0 is "0").
pub open spec fn dec_of(n: nat) -> Seq<char>
    decreases n,
{
    if n < 10 {
        seq![digit_char(n as int)]
    } else {
        dec_of(n / 10).push(digit_char((n % 10) as int))
    }
}

/// The number a sequence of digit characters denotes, most significant
/// digit first.
pub open spec fn val_of(ds: Seq<char>) -> int
    decreases ds.len(),
{
    if ds.len() == 0 {
        0
    } else {
        val_of(ds.drop_last()) * 10 + digit_val(ds.last())
    }
}

/// The digit characters and their values correspond one to one.
proof fn lemma_digits()
    ensures
        forall|d: int| 0 <= d < 10 ==> is_digit(#[trigger] digit_char(d)),
        forall|d: int| 0 <= d < 10 ==> digit_val(#[trigger] digit_char(d)) == d,
        forall|c: char| is_digit(c) ==> 0 <= #[trigger] digit_val(c) <= 9,
        forall|c: char| is_digit(c) ==> digit_char(#[trigger] digit_val(c)) == c,
{
    assert('0' as int == 48 && '1' as int == 49 && '2' as int == 50 && '3' as int == 51
        && '4' as int == 52 && '5' as int == 53 && '6' as int == 54 && '7' as int == 55
        && '8' as int == 56 && '9' as int == 57);
}

/// Every character of a decimal rendering is a digit, there is at least
/// one, and the rendering denotes the number it came from.
pub proof fn lemma_dec_of(n: nat)
    ensures
        dec_of(n).len() >= 1,
        forall|i: int| 0 <= i < dec_of(n).len() ==> is_digit(#[trigger] dec_of(n)[i]),
        val_of(dec_of(n)) == n,
    decreases n,
{
    lemma_digits();
    if n < 10 {
        assert(dec_of(n) =~= seq![digit_char(n as int)]);
        assert(dec_of(n).drop_last() =~= Seq::<char>::empty());
        assert(val_of(Seq::<char>::empty()) == 0);
        assert(dec_of(n).last() == digit_char(n as int));
        assert(val_of(dec_of(n)) == digit_val(digit_char(n as int)));
    } else {
        lemma_dec_of(n / 10);
        assert(dec_of(n).drop_last() =~= dec_of(n / 10));
        assert(val_of(dec_of(n)) == (n / 10) * 10 + (n % 10));
    }
}

/// A decimal rendering starts with '0' only for the number 0 itself.
pub proof fn lemma_dec_of_leading_zero(n: nat)
    requires
        dec_of(n)[0] == '0',
    ensures
        n == 0,
    decreases n,
{
    if n < 10 {
        assert(digit_char(n as int) == '0' ==> n == 0);
    } else {
        lemma_dec_of(n / 10);
        assert(dec_of(n)[0] == dec_of(n / 10)[0]);
        lemma_dec_of_leading_zero(n / 10);
    }
}

/// The value of a digit sequence is never negative.
proof fn lemma_val_of_nonneg(ds: Seq<char>)
    requires
        forall|i: int| 0 <= i < ds.len() ==> is_digit(#[trigger] ds[i]),
    ensures
        val_of(ds) >= 0,
    decreases ds.len(),
{
    if ds.len() > 0 {
        lemma_val_of_nonneg(ds.drop_last());
    }
}

/// A nonempty digit sequence without a leading zero denotes a number
/// no smaller than 1.
proof fn lemma_val_of_positive(ds: Seq<char>)
    requires
        ds.len() >= 1,
        forall|i: int| 0 <= i < ds.len() ==> is_digit(#[trigger] ds[i]),
        ds[0] != '0',
    ensures
        val_of(ds) >= 1,
    decreases ds.len(),
{
    lemma_digits();
    if ds.len() == 1 {
        assert(digit_val(ds[0]) >= 1);
    } else {
        lemma_val_of_positive(ds.drop_last());
        let prev = val_of(ds.drop_last());
        assert(prev * 10 >= 10) by (nonlinear_arith)
            requires
                prev >= 1,
        ;
        assert(digit_val(ds.last()) >= 0);
    }
}

/// Rendering the value of a nonempty digit sequence without a leading
/// zero gives back exactly that sequence.
pub proof fn lemma_dec_of_val(ds: Seq<char>)
    requires
        ds.len() >= 1,
        forall|i: int| 0 <= i < ds.len() ==> is_digit(#[trigger] ds[i]),
        ds.len() == 1 || ds[0] != '0',
    ensures
        val_of(ds) >= 0,
        dec_of(val_of(ds) as nat) == ds,
    decreases ds.len(),
{
    lemma_digits();
    lemma_val_of_nonneg(ds);
    if ds.len() == 1 {
        assert(ds.drop_last() =~= Seq::<char>::empty());
        assert(val_of(Seq::<char>::empty()) == 0);
        assert(ds.last() == ds[0]);
        assert(val_of(ds) == digit_val(ds[0]));
        assert(digit_char(digit_val(ds[0])) == ds[0]);
        assert(dec_of(val_of(ds) as nat) =~= ds);
    } else {
        let pre = ds.drop_last();
        let d = digit_val(ds.last());
        lemma_val_of_positive(pre);
        lemma_dec_of_val(pre);
        let v = val_of(ds);
        assert(v == val_of(pre) * 10 + d);
        assert(v >= 10) by {
            assert(val_of(pre) * 10 >= 10) by (nonlinear_arith)
                requires
                    val_of(pre) >= 1,
            ;
        }
        assert(v / 10 == val_of(pre) && v % 10 == d) by (nonlinear_arith)
            requires
                v == val_of(pre) * 10 + d,
                0 <= d < 10,
                val_of(pre) >= 0,
        ;
        assert(digit_char(digit_val(ds.last())) == ds.last());
        assert(dec_of(v as nat) =~= ds);
    }
}

/// Relies on `String::push`: appends one character to the string.
#[verifier::external_body]
pub(crate) fn push_char(s: &mut String, c: char)
    ensures
        final(s)@ == old(s)@.push(c),
{
    s.push(c);
}

/// The digit character for `d`, as a value.
pub(crate) fn digit_char_of(d: u8) -> (c: char)
    requires
        d < 10,
    ensures
        c == digit_char(d as int),
{
    if d == 0 { '0' }
    else if d == 1 { '1' }
    else if d == 2 { '2' }
    else if d == 3 { '3' }
    else if d == 4 { '4' }
    else if d == 5 { '5' }
    else if d == 6 { '6' }
    else if d == 7 { '7' }
    else if d == 8 { '8' }
    else { '9' }
}

/// Appends the decimal rendering of `n` to `s`.
pub(crate) fn push_dec(s: &mut String, n: u64)
    ensures
        final(s)@ == old(s)@ + dec_of(n as nat),
    decreases n,
{
    if n < 10 {
        push_char(s, digit_char_of(n as u8));
        assert(s@ =~= old(s)@ + dec_of(n as nat));
    } else {
        push_dec(s, n / 10);
        push_char(s, digit_char_of((n % 10) as u8));
        assert(s@ =~= old(s)@ + dec_of(n as nat));
    }
}

/// Whether `c` is a decimal digit, as a value.
pub(crate) fn is_digit_char(c: char) -> (r: bool)
    ensures
        r == is_digit(c),
{
    c == '0' || c == '1' || c == '2' || c == '3' || c == '4' || c == '5' || c == '6' || c == '7'
        || c == '8' || c == '9'
}

/// Reads the number the digits `v[lo..hi]` denote, or nothing when it
/// does not fit an unsigned 64-bit value.
pub(crate) fn digits_to_u64(v: &Vec<char>, lo: usize, hi: usize) -> (r: Option<u64>)
    requires
        lo <= hi <= v@.len(),
        forall|i: int| lo <= i < hi ==> is_digit(#[trigger] v@[i]),
    ensures
        match r {
            Some(x) => x == val_of(v@.subrange(lo as int, hi as int)),
            None => val_of(v@.subrange(lo as int, hi as int)) > u64::MAX,
        },
{
    let mut acc: u64 = 0;
    let mut i: usize = lo;
    while i < hi
        invariant
            lo <= i <= hi <= v@.len(),
            forall|j: int| lo <= j < hi ==> is_digit(#[trigger] v@[j]),
            acc == val_of(v@.subrange(lo as int, i as int)),
        decreases hi - i,
    {
        let c = v[i];
        let d: u64 = if c == '0' { 0 }
            else if c == '1' { 1 }
            else if c == '2' { 2 }
            else if c == '3' { 3 }
            else if c == '4' { 4 }
            else if c == '5' { 5 }
            else if c == '6' { 6 }
            else if c == '7' { 7 }
            else if c == '8' { 8 }
            else { 9 };
        assert(d == digit_val(c));
        if acc > (u64::MAX - d) / 10 {
            proof {
                let full = v@.subrange(lo as int, hi as int);
                let part = v@.subrange(lo as int, (i + 1) as int);
                assert(part.drop_last() =~= v@.subrange(lo as int, i as int));
                assert(val_of(part) == acc * 10 + d);
                assert(acc * 10 + d > u64::MAX) by (nonlinear_arith)
                    requires
                        acc > (u64::MAX - d) / 10,
                        0 <= d < 10,
                        acc >= 0,
                ;
                lemma_val_of_grows(v@, lo as int, (i + 1) as int, hi as int);
            }
            return None;
        }
        proof {
            assert(acc * 10 + d <= u64::MAX) by (nonlinear_arith)
                requires
                    acc <= (u64::MAX - d) / 10,
                    0 <= d < 10,
                    acc >= 0,
            ;
            let part = v@.subrange(lo as int, (i + 1) as int);
            assert(part.drop_last() =~= v@.subrange(lo as int, i as int));
            assert(part.last() == v@[i as int]);
        }
        acc = acc * 10 + d;
        i = i + 1;
    }
    assert(v@.subrange(lo as int, i as int) =~= v@.subrange(lo as int, hi as int));
    Some(acc)
}

/// A digit run denotes no less than any of its prefixes.
proof fn lemma_val_of_grows(s: Seq<char>, lo: int, mid: int, hi: int)
    requires
        0 <= lo <= mid <= hi <= s.len(),
        forall|i: int| lo <= i < hi ==> is_digit(#[trigger] s[i]),
    ensures
        val_of(s.subrange(lo, hi)) >= val_of(s.subrange(lo, mid)),
    decreases hi - mid,
{
    if mid < hi {
        lemma_val_of_grows(s, lo, mid + 1, hi);
        let part = s.subrange(lo, mid + 1);
        assert(part.drop_last() =~= s.subrange(lo, mid));
        let prev = val_of(s.subrange(lo, mid));
        lemma_val_of_nonneg_sub(s, lo, mid);
        assert(val_of(part) == prev * 10 + digit_val(part.last()));
        assert(prev * 10 >= prev) by (nonlinear_arith)
            requires
                prev >= 0,
        ;
    }
}

/// The value of a digit subrange is never negative.
proof fn lemma_val_of_nonneg_sub(s: Seq<char>, lo: int, hi: int)
    requires
        0 <= lo <= hi <= s.len(),
        forall|i: int| lo <= i < hi ==> is_digit(#[trigger] s[i]),
    ensures
        val_of(s.subrange(lo, hi)) >= 0,
{
    let sub = s.subrange(lo, hi);
    assert(forall|i: int| 0 <= i < sub.len() ==> is_digit(#[trigger] sub[i]));
    lemma_val_of_nonneg(sub);
}

} // verus!

