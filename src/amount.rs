//! Token amounts: decimal text such as `"1.5"` and whole numbers of the
//! chain's smallest unit, related by the chain's decimal precision.
use vstd::prelude::*;

verus! {

pub open spec fn is_digit(c: char) -> bool {
    '0' <= c && c <= '9'
}

pub open spec fn digit_value(c: char) -> nat {
    (c as int - '0' as int) as nat
}

pub open spec fn all_digits(s: Seq<char>) -> bool {
    forall|i: int| 0 <= i < s.len() ==> #[trigger] is_digit(s[i])
}

/// The number that a string of decimal digits writes, most significant first.
pub open spec fn digits_value(s: Seq<char>) -> nat
    decreases s.len(),
{
    if s.len() == 0 {
        0
    } else {
        digits_value(s.drop_last()) * 10 + digit_value(s.last())
    }
}

pub open spec fn pow10(n: nat) -> nat
    decreases n,
{
    if n == 0 {
        1
    } else {
        10 * pow10((n - 1) as nat)
    }
}

pub open spec fn zeros(n: nat) -> Seq<char> {
    Seq::new(n, |i: int| '0')
}

/// `s` is a run of digits, or two runs of digits joined by one point, and
/// `p` is where the first run ends.
pub open spec fn amount_shape(s: Seq<char>, p: int) -> bool {
    &&& 0 < p <= s.len()
    &&& all_digits(s.take(p))
    &&& p == s.len() || (s[p] == '.' && p + 1 < s.len() && all_digits(s.skip(p + 1)))
}

pub open spec fn frac_part(s: Seq<char>, p: int) -> Seq<char> {
    if p < s.len() {
        s.skip(p + 1)
    } else {
        Seq::empty()
    }
}

/// The digits of `s` with its point moved `decimal` places to the right.
pub open spec fn scaled_digits(s: Seq<char>, p: int, decimal: nat) -> Seq<char> {
    s.take(p) + frac_part(s, p) + zeros((decimal - frac_part(s, p).len()) as nat)
}

/// The amount in the smallest unit that the text `s`, read with its point
/// at `p`, stands for at the given precision.
pub open spec fn amount_value(s: Seq<char>, p: int, decimal: nat) -> nat {
    digits_value(scaled_digits(s, p, decimal))
}

/// `s` is a well-formed amount text, with at most `decimal` fractional
/// digits, that stands for `v` smallest units.
pub open spec fn denotes(s: Seq<char>, decimal: nat, v: nat) -> bool {
    exists|p: int|
        amount_shape(s, p) && frac_part(s, p).len() <= decimal && amount_value(s, p, decimal) == v
}

#[derive(Debug, Clone, Copy, PartialEq, Eq, Structural)]
pub enum AmountError {
    /// The text is not digits with at most one point between digits.
    Malformed,
    /// The text has more fractional digits than the precision allows.
    ExcessPrecision,
    /// The amount does not fit in a `u128` of smallest units.
    Overflow,
}

pub proof fn lemma_shape_unique(s: Seq<char>, p: int, q: int)
    requires
        amount_shape(s, p),
        amount_shape(s, q),
    ensures
        p == q,
{
    if p < q {
        assert(is_digit(s.take(q)[p]));
    } else if q < p {
        assert(is_digit(s.take(p)[q]));
    }
}

pub proof fn lemma_digits_value_append(a: Seq<char>, b: Seq<char>)
    ensures
        digits_value(a + b) == digits_value(a) * pow10(b.len()) + digits_value(b),
    decreases b.len(),
{
    if b.len() == 0 {
        assert(a + b =~= a);
        assert(digits_value(b) == 0);
        assert(pow10(b.len()) == 1);
        assert(digits_value(a) * 1 == digits_value(a));
    } else {
        let c = b.drop_last();
        assert((a + b).drop_last() =~= a + c);
        assert((a + b).last() == b.last());
        lemma_digits_value_append(a, c);
        assert(digits_value(a + b) == digits_value(a + c) * 10 + digit_value(b.last()));
        assert(digits_value(b) == digits_value(c) * 10 + digit_value(b.last()));
        assert(pow10(b.len()) == 10 * pow10(c.len()));
        let (x, y, z, w, k, pb) = (
            digits_value(a + b),
            digits_value(a + c),
            digits_value(a),
            digits_value(c),
            pow10(c.len()),
            pow10(b.len()),
        );
        let t = digit_value(b.last());
        assert(x == z * pb + (w * 10 + t)) by (nonlinear_arith)
            requires
                x == y * 10 + t,
                y == z * k + w,
                pb == 10 * k,
        ;
    }
}

pub proof fn lemma_zeros_value(n: nat)
    ensures
        digits_value(zeros(n)) == 0,
    decreases n,
{
    if n > 0 {
        assert(zeros(n).drop_last() =~= zeros((n - 1) as nat));
        lemma_zeros_value((n - 1) as nat);
    }
}

pub proof fn lemma_pow10_positive(n: nat)
    ensures
        pow10(n) >= 1,
    decreases n,
{
    if n > 0 {
        lemma_pow10_positive((n - 1) as nat);
    }
}

/// A prefix of a digit string writes no more than the whole string.
pub proof fn lemma_prefix_value_le(s: Seq<char>, k: int)
    requires
        0 <= k <= s.len(),
    ensures
        digits_value(s.take(k)) <= digits_value(s),
{
    assert(s =~= s.take(k) + s.skip(k));
    lemma_digits_value_append(s.take(k), s.skip(k));
    lemma_pow10_positive(s.skip(k).len());
    let a = digits_value(s.take(k));
    let m = pow10(s.skip(k).len());
    assert(a <= a * m) by (nonlinear_arith)
        requires
            m >= 1,
    ;
}

} // verus!

verus! {

/// Where a run of leading digits ends, the shape of an amount can only put
/// its point.
pub proof fn lemma_shape_at_first_non_digit(s: Seq<char>, p: int, q: int)
    requires
        0 <= p <= s.len(),
        all_digits(s.take(p)),
        p == s.len() || !is_digit(s[p]),
        amount_shape(s, q),
    ensures
        q == p,
{
    if q < p {
        assert(is_digit(s.take(p)[q]));
    } else if p < q {
        assert(is_digit(s.take(q)[p]));
    }
}

fn digit_of(c: char) -> (r: u128)
    requires
        is_digit(c),
    ensures
        r == digit_value(c),
        r < 10,
{
    (c as u32 - '0' as u32) as u128
}

/// Reads a decimal amount text as a whole number of the smallest unit, at
/// the given precision: `"1.5"` at precision 8 is `150000000`.
pub fn parse_amount(text: &str, decimal: u32) -> (r: Result<u128, AmountError>)
    ensures
        (r == Err::<u128, AmountError>(AmountError::Malformed)) <==> !(exists|p: int|
            amount_shape(text@, p)),
        forall|p: int|
            amount_shape(text@, p) ==> match r {
                Ok(v) => frac_part(text@, p).len() <= decimal && v == amount_value(
                    text@,
                    p,
                    decimal as nat,
                ),
                Err(AmountError::ExcessPrecision) => frac_part(text@, p).len() > decimal,
                Err(AmountError::Overflow) => frac_part(text@, p).len() <= decimal
                    && amount_value(text@, p, decimal as nat) > u128::MAX,
                Err(AmountError::Malformed) => false,
            },
{
    let ghost s = text@;
    let n = text.unicode_len();
    let mut p: usize = 0;
    loop
        invariant
            p <= n,
            n == s.len(),
            s == text@,
            all_digits(s.take(p as int)),
        ensures
            p <= n,
            all_digits(s.take(p as int)),
            p == n || !is_digit(s[p as int]),
        decreases n - p,
    {
        if p == n {
            break;
        }
        let c = text.get_char(p);
        if !('0' <= c && c <= '9') {
            break;
        }
        assert(s.take(p + 1) =~= s.take(p as int).push(c));
        p += 1;
    }
    assert forall|q: int| amount_shape(s, q) implies q == p by {
        lemma_shape_at_first_non_digit(s, p as int, q);
    }
    if p == 0 {
        return Err(AmountError::Malformed);
    }
    let mut frac_len: usize = 0;
    if p < n {
        if text.get_char(p) != '.' || p + 1 == n {
            return Err(AmountError::Malformed);
        }
        let mut j: usize = p + 1;
        while j < n
            invariant
                p + 1 <= j <= n,
                n == s.len(),
                s == text@,
                forall|i: int| p + 1 <= i < j ==> #[trigger] is_digit(s[i]),
                forall|q: int| amount_shape(s, q) ==> q == p,
            decreases n - j,
        {
            let c = text.get_char(j);
            if !('0' <= c && c <= '9') {
                assert(s.skip(p + 1)[j - p - 1] == s[j as int]);
                assert(!is_digit(s.skip(p + 1)[j - p - 1]));
                assert(!all_digits(s.skip(p + 1)));
                assert(!amount_shape(s, p as int));
                return Err(AmountError::Malformed);
            }
            j += 1;
        }
        assert(all_digits(s.skip(p + 1)) && s.skip(p + 1)[0] == s[p + 1]) by {
            assert forall|i: int| 0 <= i < s.skip(p + 1).len() implies #[trigger] is_digit(
                s.skip(p + 1)[i],
            ) by {
                assert(s.skip(p + 1)[i] == s[p + 1 + i]);
            }
        }
        frac_len = n - p - 1;
    }
    assert(amount_shape(s, p as int));
    assert(frac_part(s, p as int).len() == frac_len);
    if frac_len > decimal as usize {
        return Err(AmountError::ExcessPrecision);
    }
    let ghost sd = scaled_digits(s, p as int, decimal as nat);
    let written: usize = p + frac_len;
    let pad: u32 = decimal - frac_len as u32;
    assert(sd.len() == written + pad);
    let mut acc: u128 = 0;
    let mut k: usize = 0;
    while k < written
        invariant
            k <= written,
            written == p + frac_len,
            sd.len() == written + pad,
            frac_len <= decimal,
            frac_len == frac_part(s, p as int).len(),
            p <= n,
            n == s.len(),
            s == text@,
            amount_shape(s, p as int),
            sd == scaled_digits(s, p as int, decimal as nat),
            acc == digits_value(sd.take(k as int)),
            forall|q: int| amount_shape(s, q) ==> q == p,
        decreases written - k,
    {
        let c = if k < p {
            text.get_char(k)
        } else {
            text.get_char(k + 1)
        };
        assert(c == sd[k as int]) by {
            if k < p {
                assert(sd[k as int] == s.take(p as int)[k as int]);
            } else {
                assert(sd[k as int] == frac_part(s, p as int)[k - p]);
            }
        }
        assert(is_digit(c)) by {
            if k < p {
                assert(is_digit(s.take(p as int)[k as int]));
            } else {
                assert(is_digit(s.skip(p + 1)[k - p]));
            }
        }
        let d = digit_of(c);
        assert(sd.take(k + 1).drop_last() =~= sd.take(k as int));
        assert(digits_value(sd.take(k + 1)) == acc * 10 + d);
        match acc.checked_mul(10) {
            Some(m) => match m.checked_add(d) {
                Some(v) => {
                    acc = v;
                    k += 1;
                },
                None => {
                    proof {
                        lemma_prefix_value_le(sd, k + 1);
                        assert(amount_value(s, p as int, decimal as nat) > u128::MAX);
                    }
                    return Err(AmountError::Overflow);
                },
            },
            None => {
                proof {
                    lemma_prefix_value_le(sd, k + 1);
                    assert(amount_value(s, p as int, decimal as nat) > u128::MAX);
                }
                return Err(AmountError::Overflow);
            },
        }
    }
    if acc == 0 {
        proof {
            assert(sd =~= sd.take(written as int) + zeros(pad as nat));
            lemma_digits_value_append(sd.take(written as int), zeros(pad as nat));
            lemma_zeros_value(pad as nat);
        }
        return Ok(0);
    }
    let mut i: u32 = 0;
    while i < pad
        invariant
            i <= pad,
            sd.len() == written + pad,
            written <= sd.len(),
            forall|t: int| written <= t < sd.len() ==> sd[t] == '0',
            acc == digits_value(sd.take(written + i)),
            s == text@,
            amount_shape(s, p as int),
            frac_len <= decimal,
            frac_len == frac_part(s, p as int).len(),
            sd == scaled_digits(s, p as int, decimal as nat),
            forall|q: int| amount_shape(s, q) ==> q == p,
        decreases pad - i,
    {
        let ghost k = written + i;
        assert(sd.take(k + 1).drop_last() =~= sd.take(k));
        assert(digits_value(sd.take(k + 1)) == acc * 10);
        match acc.checked_mul(10) {
            Some(m) => {
                acc = m;
                i += 1;
            },
            None => {
                proof {
                    lemma_prefix_value_le(sd, k + 1);
                    assert(amount_value(s, p as int, decimal as nat) > u128::MAX);
                }
                return Err(AmountError::Overflow);
            },
        }
    }
    assert(sd.take(written + pad) =~= sd);
    Ok(acc)
}

} // verus!

verus! {

pub open spec fn digit_char(d: nat) -> char {
    if d == 0 {
        '0'
    } else if d == 1 {
        '1'
    } else if d == 2 {
        '2'
    } else if d == 3 {
        '3'
    } else if d == 4 {
        '4'
    } else if d == 5 {
        '5'
    } else if d == 6 {
        '6'
    } else if d == 7 {
        '7'
    } else if d == 8 {
        '8'
    } else {
        '9'
    }
}

/// The last `w` decimal digits of `v`, most significant first.
pub open spec fn digits_of(v: nat, w: nat) -> Seq<char>
    decreases w,
{
    if w == 0 {
        Seq::empty()
    } else {
        digits_of(v / 10, (w - 1) as nat).push(digit_char(v % 10))
    }
}

/// How many decimal digits `v` has; zero has one.
pub open spec fn num_digits(v: nat) -> nat
    decreases v,
{
    if v < 10 {
        1
    } else {
        1 + num_digits(v / 10)
    }
}

pub open spec fn trim_zeros(s: Seq<char>) -> Seq<char>
    decreases s.len(),
{
    if s.len() > 0 && s.last() == '0' {
        trim_zeros(s.drop_last())
    } else {
        s
    }
}

pub open spec fn text_width(v: nat, decimal: nat) -> nat {
    if num_digits(v) > decimal + 1 {
        num_digits(v)
    } else {
        decimal + 1
    }
}

/// The shortest decimal text of `v` smallest units at the given precision:
/// no leading zeros before the point but one, no trailing zeros after it,
/// and no point when the fractional part is zero.
pub open spec fn amount_text(v: nat, decimal: nat) -> Seq<char> {
    let w = text_width(v, decimal);
    let all = digits_of(v, w);
    let whole = all.take(w - decimal);
    let frac = trim_zeros(all.skip(w - decimal));
    if frac.len() == 0 {
        whole
    } else {
        whole + seq!['.'] + frac
    }
}

proof fn lemma_digits_of(v: nat, w: nat)
    ensures
        digits_of(v, w).len() == w,
        all_digits(digits_of(v, w)),
        v < pow10(w) ==> digits_value(digits_of(v, w)) == v,
    decreases w,
{
    if w > 0 {
        let q = v / 10;
        let r = v % 10;
        lemma_digits_of(q, (w - 1) as nat);
        let s = digits_of(v, w);
        assert(s.drop_last() =~= digits_of(q, (w - 1) as nat));
        assert(digit_value(digit_char(r)) == r && is_digit(digit_char(r)));
        assert forall|i: int| 0 <= i < s.len() implies #[trigger] is_digit(s[i]) by {
            if i < s.len() - 1 {
                assert(s[i] == s.drop_last()[i]);
            }
        }
        let k = pow10((w - 1) as nat);
        if v < pow10(w) {
            assert(q < k) by (nonlinear_arith)
                requires
                    v < 10 * k,
                    q == v / 10,
            ;
            assert(v == q * 10 + r) by (nonlinear_arith)
                requires
                    q == v / 10,
                    r == v % 10,
            ;
        }
    }
}

proof fn lemma_num_digits(v: nat)
    ensures
        v < pow10(num_digits(v)),
        num_digits(v) >= 1,
    decreases v,
{
    if v >= 10 {
        lemma_num_digits(v / 10);
        let k = pow10(num_digits(v / 10));
        assert(v < 10 * k) by (nonlinear_arith)
            requires
                v / 10 < k,
        ;
        assert(pow10(num_digits(v)) == 10 * k);
    } else {
        assert(pow10(1) == 10 * pow10(0));
    }
}

proof fn lemma_pow10_mono(a: nat, b: nat)
    requires
        a <= b,
    ensures
        pow10(a) <= pow10(b),
    decreases b,
{
    if a < b {
        lemma_pow10_mono(a, (b - 1) as nat);
    }
}

proof fn lemma_trim_zeros(s: Seq<char>)
    ensures
        trim_zeros(s).len() <= s.len(),
        s =~= trim_zeros(s) + zeros((s.len() - trim_zeros(s).len()) as nat),
    decreases s.len(),
{
    if s.len() > 0 && s.last() == '0' {
        lemma_trim_zeros(s.drop_last());
        let t = trim_zeros(s.drop_last());
        assert(s =~= s.drop_last().push('0'));
        assert(zeros((s.drop_last().len() - t.len()) as nat).push('0') =~= zeros(
            (s.len() - t.len()) as nat,
        ));
    } else {
        assert(zeros(0) =~= Seq::<char>::empty());
    }
}

/// Formatting an amount and reading the text back at the same precision
/// gives the amount again.
pub proof fn lemma_amount_round_trip(v: nat, decimal: nat)
    ensures
        denotes(amount_text(v, decimal), decimal, v),
{
    let w = text_width(v, decimal);
    let all = digits_of(v, w);
    let p = w - decimal;
    let whole = all.take(p);
    let tail = all.skip(p);
    let frac = trim_zeros(tail);
    let t = amount_text(v, decimal);
    lemma_digits_of(v, w);
    lemma_num_digits(v);
    lemma_pow10_mono(num_digits(v), w);
    lemma_trim_zeros(tail);
    assert(all =~= whole + tail);
    assert(all_digits(whole)) by {
        assert forall|i: int| 0 <= i < whole.len() implies #[trigger] is_digit(whole[i]) by {
            assert(whole[i] == all[i]);
        }
    }
    assert(all_digits(frac)) by {
        assert forall|i: int| 0 <= i < frac.len() implies #[trigger] is_digit(frac[i]) by {
            assert(frac[i] == tail[i]);
            assert(tail[i] == all[p + i]);
        }
    }
    if frac.len() == 0 {
        assert(t.take(p) =~= whole);
        assert(frac_part(t, p) =~= Seq::<char>::empty());
        assert(scaled_digits(t, p, decimal) =~= all);
        assert(amount_shape(t, p));
    } else {
        assert(t.take(p) =~= whole);
        assert(t.skip(p + 1) =~= frac);
        assert(frac_part(t, p) =~= frac);
        assert(scaled_digits(t, p, decimal) =~= all);
        assert(amount_shape(t, p));
    }
}

} // verus!

verus! {

fn digit_to_char(d: u128) -> (c: char)
    requires
        d < 10,
    ensures
        c == digit_char(d as nat),
{
    if d == 0 {
        '0'
    } else if d == 1 {
        '1'
    } else if d == 2 {
        '2'
    } else if d == 3 {
        '3'
    } else if d == 4 {
        '4'
    } else if d == 5 {
        '5'
    } else if d == 6 {
        '6'
    } else if d == 7 {
        '7'
    } else if d == 8 {
        '8'
    } else {
        '9'
    }
}

proof fn lemma_pow10_39()
    ensures
        pow10(39) > u128::MAX,
{
    reveal_with_fuel(pow10, 40);
}

fn count_digits(v: u128) -> (r: usize)
    ensures
        r == num_digits(v as nat),
{
    let mut n: u128 = v;
    let mut c: usize = 1;
    assert(pow10((c - 1) as nat) == 1);
    assert(n as int * 1 == v as int);
    while n >= 10
        invariant
            1 <= c <= 39,
            num_digits(v as nat) == c - 1 + num_digits(n as nat),
            n as int * pow10((c - 1) as nat) <= v as int,
        decreases n,
    {
        let ghost k = pow10((c - 1) as nat);
        assert(pow10(c as nat) == 10 * k);
        proof {
            lemma_pow10_positive((c - 1) as nat);
            lemma_pow10_39();
            if c == 39 {
                assert(10 * k <= n as int * k) by (nonlinear_arith)
                    requires
                        n >= 10,
                        k >= 1,
                ;
            }
        }
        assert((n / 10) as int * (10 * k) <= n as int * k) by (nonlinear_arith)
            requires
                k >= 1,
        ;
        n = n / 10;
        c = c + 1;
    }
    c
}

proof fn lemma_leading_zero(v: nat, k: nat)
    requires
        v < pow10(k),
    ensures
        digits_of(v, k + 1) == seq!['0'] + digits_of(v, k),
    decreases k,
{
    if k == 0 {
        assert(digits_of(v, 1) =~= seq!['0'] + digits_of(v, 0));
    } else {
        let q = v / 10;
        let m = pow10((k - 1) as nat);
        assert(q < m) by (nonlinear_arith)
            requires
                v < 10 * m,
                q == v / 10,
        ;
        lemma_leading_zero(q, (k - 1) as nat);
        assert(digits_of(v, k + 1) =~= seq!['0'] + digits_of(v, k));
    }
}

fn push_digits(v: u128, w: usize, out: &mut Vec<char>)
    ensures
        final(out)@ == old(out)@ + digits_of(v as nat, w as nat),
    decreases w,
{
    if w > 0 {
        push_digits(v / 10, w - 1, out);
        let c = digit_to_char(v % 10);
        out.push(c);
    }
}

/// Relies on `String`'s `FromIterator<char>`: the characters in order.
#[verifier::external_body]
fn string_from_chars(chars: &Vec<char>) -> (r: String)
    ensures
        r@ == chars@,
{
    chars.iter().collect()
}

/// Writes a whole number of the smallest unit as decimal text at the given
/// precision: `150000000` at precision 8 is `"1.5"`, `100000000` is `"1"`.
pub fn format_amount(value: u128, decimal: u32) -> (r: String)
    ensures
        r@ == amount_text(value as nat, decimal as nat),
{
    let nd = count_digits(value);
    let d = decimal as usize;
    let ghost w = text_width(value as nat, decimal as nat);
    let mut all: Vec<char> = Vec::new();
    let p: usize;
    if nd > d {
        push_digits(value, nd, &mut all);
        p = nd - d;
    } else {
        all.push('0');
        push_digits(value, d, &mut all);
        proof {
            lemma_num_digits(value as nat);
            lemma_pow10_mono(num_digits(value as nat), d as nat);
            lemma_leading_zero(value as nat, d as nat);
        }
        p = 1;
    }
    let ghost full = all@;
    assert(full =~= digits_of(value as nat, w));
    assert(p == w - decimal);
    proof {
        lemma_digits_of(value as nat, w);
    }
    while all.len() > p && all[all.len() - 1] == '0'
        invariant
            p <= all.len() <= w,
            full.len() == w,
            all@ =~= full.take(all.len() as int),
            trim_zeros(full.skip(p as int)) == trim_zeros(all@.skip(p as int)),
        decreases all.len(),
    {
        let ghost before = all@;
        all.pop();
        assert(before.skip(p as int).drop_last() =~= all@.skip(p as int));
        assert(before.skip(p as int).last() == '0');
    }
    assert(trim_zeros(all@.skip(p as int)) == all@.skip(p as int));
    assert(all@.take(p as int) =~= full.take(p as int));
    if all.len() > p {
        all.insert(p, '.');
        assert(all@ =~= full.take(p as int) + seq!['.'] + trim_zeros(full.skip(p as int)));
    } else {
        assert(all@ =~= full.take(p as int));
    }
    string_from_chars(&all)
}

} // verus!

verus! {

/// What `parse_amount` returns, stated through `denotes`: success exactly
/// when the text stands for an amount that fits, and then that amount.
pub proof fn lemma_parse_outcome(s: Seq<char>, decimal: nat, r: Result<u128, AmountError>)
    requires
        (r == Err::<u128, AmountError>(AmountError::Malformed)) <==> !(exists|p: int|
            amount_shape(s, p)),
        forall|p: int|
            amount_shape(s, p) ==> match r {
                Ok(v) => frac_part(s, p).len() <= decimal && v == amount_value(s, p, decimal),
                Err(AmountError::ExcessPrecision) => frac_part(s, p).len() > decimal,
                Err(AmountError::Overflow) => frac_part(s, p).len() <= decimal && amount_value(
                    s,
                    p,
                    decimal,
                ) > u128::MAX,
                Err(AmountError::Malformed) => false,
            },
    ensures
        r is Ok <==> exists|v: nat| v <= u128::MAX && denotes(s, decimal, v),
        r matches Ok(v) ==> denotes(s, decimal, v as nat),
{
    if r is Ok {
        let p = choose|p: int| amount_shape(s, p);
        assert(amount_shape(s, p));
        assert(denotes(s, decimal, r->Ok_0 as nat));
    } else {
        assert forall|v: nat| v <= u128::MAX implies !denotes(s, decimal, v) by {
            if denotes(s, decimal, v) {
                let q = choose|q: int|
                    amount_shape(s, q) && frac_part(s, q).len() <= decimal && amount_value(
                        s,
                        q,
                        decimal,
                    ) == v;
                assert(amount_shape(s, q));
            }
        }
    }
}

} // verus!

verus! {

/// A digit string writes a number below ten to the power of its length.
pub proof fn lemma_digits_value_bound(s: Seq<char>)
    requires
        all_digits(s),
    ensures
        digits_value(s) < pow10(s.len()),
    decreases s.len(),
{
    if s.len() > 0 {
        let rest = s.drop_last();
        assert(all_digits(rest)) by {
            assert forall|i: int| 0 <= i < rest.len() implies #[trigger] is_digit(rest[i]) by {
                assert(rest[i] == s[i]);
            }
        }
        lemma_digits_value_bound(rest);
        assert(is_digit(s[s.len() - 1]));
        let a = digits_value(rest);
        let k = pow10(rest.len());
        let d = digit_value(s.last());
        assert(a * 10 + d < 10 * k) by (nonlinear_arith)
            requires
                a < k,
                d < 10,
        ;
    }
}

proof fn lemma_leading_digit(s: Seq<char>)
    requires
        all_digits(s),
        s.len() >= 1,
        s[0] != '0',
    ensures
        digits_value(s) >= pow10((s.len() - 1) as nat),
    decreases s.len(),
{
    let rest = s.drop_last();
    if s.len() == 1 {
        assert(rest.len() == 0);
        assert(is_digit(s[0]));
        assert(s.last() == s[0]);
    } else {
        assert(all_digits(rest)) by {
            assert forall|i: int| 0 <= i < rest.len() implies #[trigger] is_digit(rest[i]) by {
                assert(rest[i] == s[i]);
            }
        }
        assert(rest[0] == s[0]);
        lemma_leading_digit(rest);
        let a = digits_value(rest);
        let m = pow10((rest.len() - 1) as nat);
        assert(pow10((s.len() - 1) as nat) == 10 * m);
        assert(a * 10 + digit_value(s.last()) >= 10 * m) by (nonlinear_arith)
            requires
                a >= m,
        ;
    }
}

proof fn lemma_num_digits_le(v: nat, k: nat)
    requires
        k >= 1,
        v < pow10(k),
    ensures
        num_digits(v) <= k,
    decreases v,
{
    if v >= 10 {
        if k == 1 {
            assert(pow10(1) == 10 * pow10(0));
        } else {
            let m = pow10((k - 1) as nat);
            assert(v / 10 < m) by (nonlinear_arith)
                requires
                    v < 10 * m,
            ;
            lemma_num_digits_le(v / 10, (k - 1) as nat);
        }
    }
}

proof fn lemma_num_digits_ge(v: nat, k: nat)
    requires
        k >= 1,
        v >= pow10((k - 1) as nat),
    ensures
        num_digits(v) >= k,
    decreases k,
{
    if k > 1 {
        let m = pow10((k - 2) as nat);
        assert(pow10((k - 1) as nat) == 10 * m);
        lemma_pow10_positive((k - 2) as nat);
        assert(v / 10 >= m && v >= 10) by (nonlinear_arith)
            requires
                v >= 10 * m,
                m >= 1,
        ;
        lemma_num_digits_ge(v / 10, (k - 1) as nat);
    }
}

/// A digit string is the last digits of its own value.
proof fn lemma_digits_of_value(s: Seq<char>)
    requires
        all_digits(s),
    ensures
        digits_of(digits_value(s), s.len()) == s,
    decreases s.len(),
{
    if s.len() == 0 {
        assert(digits_of(digits_value(s), 0) =~= s);
    } else {
        let rest = s.drop_last();
        assert(all_digits(rest)) by {
            assert forall|i: int| 0 <= i < rest.len() implies #[trigger] is_digit(rest[i]) by {
                assert(rest[i] == s[i]);
            }
        }
        lemma_digits_of_value(rest);
        let a = digits_value(rest);
        let c = s.last();
        assert(is_digit(s[s.len() - 1]));
        let d = digit_value(c);
        assert((a * 10 + d) / 10 == a && (a * 10 + d) % 10 == d) by (nonlinear_arith)
            requires
                d < 10,
        ;
        assert(digit_char(d) == c);
        assert(digits_of(digits_value(s), s.len()) =~= rest.push(c));
        assert(rest.push(c) =~= s);
    }
}

proof fn lemma_trim_appended_zeros(x: Seq<char>, n: nat)
    ensures
        trim_zeros(x + zeros(n)) == trim_zeros(x),
    decreases n,
{
    if n == 0 {
        assert(x + zeros(0) =~= x);
    } else {
        assert((x + zeros(n)).drop_last() =~= x + zeros((n - 1) as nat));
        lemma_trim_appended_zeros(x, (n - 1) as nat);
    }
}

/// Text in its shortest form: no leading zero before the point unless the
/// whole part is the one digit zero, and no trailing zero after a point.
pub open spec fn is_canonical(s: Seq<char>, p: int) -> bool {
    &&& s[0] != '0' || p == 1
    &&& p == s.len() || s.last() != '0'
}

/// Reading an amount text in its shortest form and formatting the amount
/// at the same precision gives the text again.
pub proof fn lemma_text_round_trip(s: Seq<char>, p: int, decimal: nat)
    requires
        amount_shape(s, p),
        frac_part(s, p).len() <= decimal,
        is_canonical(s, p),
    ensures
        amount_text(amount_value(s, p, decimal), decimal) == s,
{
    let whole = s.take(p);
    let frac = frac_part(s, p);
    let t = scaled_digits(s, p, decimal);
    let v = amount_value(s, p, decimal);
    let len = t.len();
    assert(len == p + decimal);
    assert(all_digits(frac)) by {
        if p < s.len() {
            assert(frac == s.skip(p + 1));
        } else {
            assert(frac.len() == 0);
        }
    }
    assert(all_digits(t)) by {
        assert forall|i: int| 0 <= i < t.len() implies #[trigger] is_digit(t[i]) by {
            if i < p {
                assert(t[i] == whole[i]);
            } else if i < p + frac.len() {
                assert(t[i] == frac[i - p]);
            } else {
                assert(t[i] == '0');
            }
        }
    }
    lemma_digits_of_value(t);
    lemma_digits_value_bound(t);
    if s[0] != '0' {
        assert(t[0] == s[0]);
        lemma_leading_digit(t);
        lemma_num_digits_ge(v, len);
    }
    lemma_num_digits_le(v, len);
    assert(text_width(v, decimal) == len);
    let all = digits_of(v, len);
    assert(all == t);
    assert(all.take(p) =~= whole);
    assert(all.skip(p) =~= frac + zeros((decimal - frac.len()) as nat));
    lemma_trim_appended_zeros(frac, (decimal - frac.len()) as nat);
    assert(trim_zeros(frac) == frac);
    if frac.len() == 0 {
        assert(p == s.len());
        assert(whole =~= s);
    } else {
        assert(s =~= whole + seq!['.'] + frac);
    }
}

} // verus!
