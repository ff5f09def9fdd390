use vstd::prelude::*;
use crate::text::{chars_of, push_char, push_range, text_of};

verus! {

/// Whether `c` is one of the ten decimal digits.
pub open spec fn is_digit(c: char) -> bool {
    '0' <= c && c <= '9'
}

/// Whether `c` may stand in a numeral: a decimal digit or the point.
pub open spec fn is_number_char(c: char) -> bool {
    is_digit(c) || c == '.'
}

/// The end of the longest run of digits of `s` that starts at `i`.
pub open spec fn digits_end(s: Seq<char>, i: int) -> int
    decreases s.len() - i,
{
    if 0 <= i < s.len() && is_digit(s[i]) {
        digits_end(s, i + 1)
    } else {
        i
    }
}

/// The digits of `s` before the point.
pub open spec fn whole_part(s: Seq<char>) -> Seq<char> {
    s.subrange(0, digits_end(s, 0))
}

/// What follows the first character of `s` that is no digit; empty where
/// `s` is made of digits alone.
pub open spec fn fraction_part(s: Seq<char>) -> Seq<char> {
    if digits_end(s, 0) < s.len() {
        s.subrange(digits_end(s, 0) + 1, s.len() as int)
    } else {
        Seq::empty()
    }
}

/// Whether `s` is a decimal numeral: digits, at most one point among them,
/// and at least one digit.
pub open spec fn is_numeral(s: Seq<char>) -> bool {
    let w = digits_end(s, 0);
    if w == s.len() {
        s.len() > 0
    } else {
        s[w] == '.' && digits_end(s, w + 1) == s.len() && s.len() > 1
    }
}

/// `s` without the zeros it starts with.
pub open spec fn without_leading_zeros(s: Seq<char>) -> Seq<char>
    decreases s.len(),
{
    if s.len() > 0 && s[0] == '0' {
        without_leading_zeros(s.drop_first())
    } else {
        s
    }
}

/// `s` without the zeros it ends with.
pub open spec fn without_trailing_zeros(s: Seq<char>) -> Seq<char>
    decreases s.len(),
{
    if s.len() > 0 && s.last() == '0' {
        without_trailing_zeros(s.drop_last())
    } else {
        s
    }
}

/// The shortest numeral that denotes the same number as the numeral `s`:
/// no zero before the first significant digit of the whole part, a single
/// `0` where that part is empty, no zero at the end of the fraction, and no
/// point where no fraction is left.
pub open spec fn canonical_numeral(s: Seq<char>) -> Seq<char> {
    let w = without_leading_zeros(whole_part(s));
    let f = without_trailing_zeros(fraction_part(s));
    (if w.len() == 0 {
        seq!['0']
    } else {
        w
    }) + (if f.len() == 0 {
        Seq::empty()
    } else {
        seq!['.'] + f
    })
}

/// Whether `t` is a numeral in its shortest form.
pub open spec fn is_canonical(t: Seq<char>) -> bool {
    let w = digits_end(t, 0);
    &&& is_numeral(t)
    &&& w >= 1
    &&& (t[0] == '0' ==> w == 1)
    &&& (w < t.len() ==> t.len() > w + 1 && t.last() != '0')
}

/// The numeral that stands for π: the shortest one whose nearest
/// double-precision number is the nearest one to π itself.
pub open spec fn pi_numeral() -> Seq<char> {
    seq!['3', '.', '1', '4', '1', '5', '9', '2', '6', '5', '3', '5', '8', '9', '7', '9', '3']
}

/// The numeral that stands for Euler's number: the shortest one whose
/// nearest double-precision number is the nearest one to e itself.
pub open spec fn e_numeral() -> Seq<char> {
    seq!['2', '.', '7', '1', '8', '2', '8', '1', '8', '2', '8', '4', '5', '9', '0', '4', '5']
}

/// A run of digits that ends at `e` is the longest one from each of its
/// positions.
pub proof fn lemma_digits_run(s: Seq<char>, i: int, e: int)
    requires
        0 <= i <= e <= s.len(),
        forall|k: int| i <= k < e ==> is_digit(#[trigger] s[k]),
        e == s.len() || !is_digit(s[e]),
    ensures
        digits_end(s, i) == e,
    decreases e - i,
{
    if i < e {
        lemma_digits_run(s, i + 1, e);
    }
}

/// The longest run of digits from `i` lies within the text, holds digits
/// alone, and no digit follows it.
pub proof fn lemma_digits_end(s: Seq<char>, i: int)
    requires
        0 <= i <= s.len(),
    ensures
        i <= digits_end(s, i) <= s.len(),
        forall|k: int| i <= k < digits_end(s, i) ==> is_digit(#[trigger] s[k]),
        digits_end(s, i) < s.len() ==> !is_digit(s[digits_end(s, i)]),
    decreases s.len() - i,
{
    if i < s.len() && is_digit(s[i]) {
        lemma_digits_end(s, i + 1);
    }
}

/// What `without_leading_zeros` leaves of `s` is `s` from its first
/// character that is no zero; the result is the position of that character.
pub proof fn lemma_leading_zeros(s: Seq<char>) -> (k: int)
    ensures
        0 <= k <= s.len(),
        without_leading_zeros(s) == s.subrange(k, s.len() as int),
        forall|j: int| 0 <= j < k ==> #[trigger] s[j] == '0',
        k < s.len() ==> s[k] != '0',
    decreases s.len(),
{
    if s.len() > 0 && s[0] == '0' {
        let t = s.drop_first();
        let k1 = lemma_leading_zeros(t);
        assert(t.subrange(k1, t.len() as int) =~= s.subrange(k1 + 1, s.len() as int));
        assert forall|j: int| 0 <= j < k1 + 1 implies #[trigger] s[j] == '0' by {
            if j > 0 {
                assert(s[j] == t[j - 1]);
            }
        }
        if k1 + 1 < s.len() {
            assert(s[k1 + 1] == t[k1]);
        }
        k1 + 1
    } else {
        assert(s.subrange(0, s.len() as int) =~= s);
        0
    }
}

/// What `without_trailing_zeros` leaves of `s` is `s` up to its last
/// character that is no zero; the result is the position behind that
/// character.
pub proof fn lemma_trailing_zeros(s: Seq<char>) -> (k: int)
    ensures
        0 <= k <= s.len(),
        without_trailing_zeros(s) == s.subrange(0, k),
        forall|j: int| k <= j < s.len() ==> #[trigger] s[j] == '0',
        k > 0 ==> s[k - 1] != '0',
    decreases s.len(),
{
    if s.len() > 0 && s.last() == '0' {
        let t = s.drop_last();
        let k1 = lemma_trailing_zeros(t);
        assert(t.subrange(0, k1) =~= s.subrange(0, k1));
        assert forall|j: int| k1 <= j < s.len() implies #[trigger] s[j] == '0' by {
            if j < t.len() {
                assert(s[j] == t[j]);
            }
        }
        if k1 > 0 {
            assert(s[k1 - 1] == t[k1 - 1]);
        }
        k1
    } else {
        assert(s.subrange(0, s.len() as int) =~= s);
        s.len() as int
    }
}

/// Whether every character of `s` is a digit.
pub open spec fn all_digits(s: Seq<char>) -> bool {
    forall|k: int| 0 <= k < s.len() ==> is_digit(#[trigger] s[k])
}

/// `whole`, and behind a point `fraction` where there is one.
pub open spec fn joined(whole: Seq<char>, fraction: Seq<char>) -> Seq<char> {
    whole + (if fraction.len() == 0 {
        Seq::empty()
    } else {
        seq!['.'] + fraction
    })
}

/// A whole part of at least one digit, joined with a fraction of digits,
/// is a numeral with these two parts.
pub proof fn lemma_joined(whole: Seq<char>, fraction: Seq<char>)
    requires
        whole.len() > 0,
        all_digits(whole),
        all_digits(fraction),
    ensures
        is_numeral(joined(whole, fraction)),
        whole_part(joined(whole, fraction)) == whole,
        fraction_part(joined(whole, fraction)) == fraction,
{
    let t = joined(whole, fraction);
    let w = whole.len() as int;
    assert forall|k: int| 0 <= k < w implies is_digit(#[trigger] t[k]) by {
        assert(t[k] == whole[k]);
    }
    lemma_digits_run(t, 0, w);
    assert(t.subrange(0, w) =~= whole);
    if fraction.len() > 0 {
        assert(t[w] == '.');
        assert forall|k: int| w + 1 <= k < t.len() implies is_digit(#[trigger] t[k]) by {
            assert(t[k] == fraction[k - w - 1]);
        }
        lemma_digits_run(t, w + 1, t.len() as int);
        assert(t.subrange(w + 1, t.len() as int) =~= fraction);
    } else {
        assert(t =~= whole);
        assert(fraction =~= Seq::<char>::empty());
    }
}

/// The two parts of a numeral are digits, and hold a digit between them.
pub proof fn lemma_parts(s: Seq<char>)
    requires
        is_numeral(s),
    ensures
        all_digits(whole_part(s)),
        all_digits(fraction_part(s)),
        whole_part(s).len() + fraction_part(s).len() > 0,
{
    lemma_digits_end(s, 0);
    let w = digits_end(s, 0);
    if w < s.len() {
        lemma_digits_end(s, w + 1);
    }
}

/// The whole part of the shortest form.
pub open spec fn canonical_whole(s: Seq<char>) -> Seq<char> {
    let w = without_leading_zeros(whole_part(s));
    if w.len() == 0 {
        seq!['0']
    } else {
        w
    }
}

/// The fraction of the shortest form.
pub open spec fn canonical_fraction(s: Seq<char>) -> Seq<char> {
    without_trailing_zeros(fraction_part(s))
}

/// The shortest form of a numeral is a numeral in shortest form, and its
/// parts are the parts of the numeral without the zeros that say nothing.
pub proof fn law_canonical_form(s: Seq<char>)
    requires
        is_numeral(s),
    ensures
        is_canonical(canonical_numeral(s)),
        canonical_numeral(s) == joined(canonical_whole(s), canonical_fraction(s)),
        whole_part(canonical_numeral(s)) == canonical_whole(s),
        fraction_part(canonical_numeral(s)) == canonical_fraction(s),
{
    lemma_parts(s);
    let whole = whole_part(s);
    let fraction = fraction_part(s);
    let a = lemma_leading_zeros(whole);
    let b = lemma_trailing_zeros(fraction);
    let w = canonical_whole(s);
    let f = canonical_fraction(s);
    assert(all_digits(w)) by {
        assert forall|k: int| 0 <= k < w.len() implies is_digit(#[trigger] w[k]) by {
            if a < whole.len() {
                assert(w[k] == whole[a + k]);
            }
        }
    }
    assert(all_digits(f)) by {
        assert forall|k: int| 0 <= k < f.len() implies is_digit(#[trigger] f[k]) by {
            assert(f[k] == fraction[k]);
        }
    }
    lemma_joined(w, f);
    let t = canonical_numeral(s);
    assert(t == joined(w, f));
    lemma_digits_end(t, 0);
    assert(t[0] == w[0]);
    if f.len() > 0 {
        assert(t.last() == f.last());
        assert(f.last() == fraction[b - 1]);
    }
}

/// A numeral in shortest form is its own shortest form.
pub proof fn law_canonical_is_fixed(t: Seq<char>)
    requires
        is_canonical(t),
    ensures
        canonical_numeral(t) == t,
{
    lemma_digits_end(t, 0);
    let w = digits_end(t, 0);
    let whole = whole_part(t);
    let fraction = fraction_part(t);
    let a = lemma_leading_zeros(whole);
    let b = lemma_trailing_zeros(fraction);
    assert(whole[0] == t[0]);
    if t[0] == '0' {
        assert(whole =~= seq!['0']);
        assert(a == 1);
        assert(whole.subrange(1, 1) =~= Seq::<char>::empty());
    } else {
        assert(a == 0);
        assert(whole.subrange(0, whole.len() as int) =~= whole);
    }
    assert(canonical_whole(t) == whole);
    if w < t.len() {
        assert(fraction.last() == t.last());
        assert(b == fraction.len());
        assert(fraction.subrange(0, b) =~= fraction);
        assert(t =~= whole + (seq!['.'] + fraction));
    } else {
        assert(fraction =~= Seq::<char>::empty());
        assert(t =~= whole + Seq::<char>::empty());
    }
}

/// The number that a digit stands for.
pub open spec fn digit_value(c: char) -> nat {
    (c as int - '0' as int) as nat
}

/// The number that a run of digits stands for, read in base ten.
pub open spec fn digits_value(s: Seq<char>) -> nat
    decreases s.len(),
{
    if s.len() == 0 {
        0
    } else {
        10 * digits_value(s.drop_last()) + digit_value(s.last())
    }
}

/// Ten to the power `n`.
pub open spec fn pow10(n: nat) -> nat
    decreases n,
{
    if n == 0 {
        1
    } else {
        10 * pow10((n - 1) as nat)
    }
}

/// The digits of the numeral `s` read as one number, the point left out.
pub open spec fn units(s: Seq<char>) -> nat {
    digits_value(whole_part(s) + fraction_part(s))
}

/// The number of digits of the numeral `s` behind its point. The numeral
/// denotes `units(s)` divided by ten to this power.
pub open spec fn scale(s: Seq<char>) -> nat {
    fraction_part(s).len()
}

/// Whether the numerals `a` and `b` denote the same number.
pub open spec fn same_number(a: Seq<char>, b: Seq<char>) -> bool {
    units(a) * pow10(scale(b)) == units(b) * pow10(scale(a))
}

/// A zero in front of a run of digits does not change its number.
pub proof fn lemma_zero_in_front(x: Seq<char>)
    ensures
        digits_value(seq!['0'] + x) == digits_value(x),
    decreases x.len(),
{
    let z = seq!['0'] + x;
    if x.len() == 0 {
        assert(z.drop_last() =~= Seq::<char>::empty());
        assert(digits_value(z.drop_last()) == 0);
        assert(z.last() == '0');
    } else {
        assert(z.drop_last() =~= seq!['0'] + x.drop_last());
        assert(z.last() == x.last());
        lemma_zero_in_front(x.drop_last());
    }
}

/// The zeros that a run of digits starts with do not change the number of
/// the run, whatever follows it.
pub proof fn lemma_leading_zeros_say_nothing(w: Seq<char>, f: Seq<char>)
    ensures
        digits_value(without_leading_zeros(w) + f) == digits_value(w + f),
    decreases w.len(),
{
    if w.len() > 0 && w[0] == '0' {
        lemma_leading_zeros_say_nothing(w.drop_first(), f);
        assert(w + f =~= seq!['0'] + (w.drop_first() + f));
        lemma_zero_in_front(w.drop_first() + f);
    }
}

/// Ten to a sum is the product of the powers.
pub proof fn lemma_pow10_add(a: nat, b: nat)
    ensures
        pow10(a + b) == pow10(a) * pow10(b),
    decreases a,
{
    if a > 0 {
        lemma_pow10_add((a - 1) as nat, b);
        assert(pow10(a + b) == 10 * pow10((a - 1 + b) as nat));
        assert(10 * (pow10((a - 1) as nat) * pow10(b)) == (10 * pow10((a - 1) as nat)) * pow10(b))
            by (nonlinear_arith);
    } else {
        assert(pow10(a) * pow10(b) == pow10(b)) by (nonlinear_arith)
            requires
                pow10(a) == 1,
        ;
    }
}

/// Each zero that a fraction ends with multiplies the number of the digits
/// by ten.
pub proof fn lemma_trailing_zeros_scale(w: Seq<char>, f: Seq<char>)
    ensures
        without_trailing_zeros(f).len() <= f.len(),
        digits_value(w + f) == digits_value(w + without_trailing_zeros(f)) * pow10(
            (f.len() - without_trailing_zeros(f).len()) as nat,
        ),
    decreases f.len(),
{
    let g = without_trailing_zeros(f);
    if f.len() > 0 && f.last() == '0' {
        let f1 = f.drop_last();
        lemma_trailing_zeros_scale(w, f1);
        assert((w + f).drop_last() =~= w + f1);
        assert((w + f).last() == '0');
        let d1 = (f1.len() - g.len()) as nat;
        let v = digits_value(w + g);
        assert(digits_value(w + f) == 10 * (v * pow10(d1)));
        assert(pow10(d1 + 1) == 10 * pow10(d1));
        assert(10 * (v * pow10(d1)) == v * (10 * pow10(d1))) by (nonlinear_arith);
    } else {
        assert(digits_value(w + f) * 1 == digits_value(w + f)) by (nonlinear_arith);
    }
}

/// The shortest form of a numeral denotes the same number as the numeral.
pub proof fn law_canonical_keeps_the_number(s: Seq<char>)
    requires
        is_numeral(s),
    ensures
        same_number(s, canonical_numeral(s)),
{
    law_canonical_form(s);
    let c = canonical_numeral(s);
    let whole = whole_part(s);
    let fraction = fraction_part(s);
    let w1 = without_leading_zeros(whole);
    let f1 = canonical_fraction(s);
    let d = (fraction.len() - f1.len()) as nat;
    lemma_trailing_zeros_scale(whole, fraction);
    lemma_leading_zeros_say_nothing(whole, f1);
    if w1.len() == 0 {
        lemma_zero_in_front(f1);
        assert(w1 + f1 =~= f1);
    }
    assert(units(c) == digits_value(whole + f1));
    assert(units(s) == units(c) * pow10(d));
    lemma_pow10_add(d, f1.len());
    assert(scale(s) == d + f1.len());
    assert((units(c) * pow10(d)) * pow10(f1.len()) == units(c) * (pow10(d) * pow10(f1.len())))
        by (nonlinear_arith);
}

/// Ten to any power is positive, and grows with the power.
pub proof fn lemma_pow10_grows(a: nat, b: nat)
    requires
        a <= b,
    ensures
        0 < pow10(a) <= pow10(b),
    decreases b,
{
    if a < b {
        lemma_pow10_grows(a, (b - 1) as nat);
    } else if a > 0 {
        lemma_pow10_grows((a - 1) as nat, (b - 1) as nat);
    }
}

/// A run of digits stands for a number below ten to its length, and, where
/// it starts with no zero, for one of at least ten to its length less one.
pub proof fn lemma_digits_magnitude(x: Seq<char>)
    requires
        all_digits(x),
    ensures
        digits_value(x) < pow10(x.len()),
        x.len() > 0 && x[0] != '0' ==> pow10((x.len() - 1) as nat) <= digits_value(x),
    decreases x.len(),
{
    if x.len() > 0 {
        let init = x.drop_last();
        assert(is_digit(x.last()));
        assert forall|k: int| 0 <= k < init.len() implies is_digit(#[trigger] init[k]) by {
            assert(init[k] == x[k]);
        }
        lemma_digits_magnitude(init);
        if init.len() > 0 {
            assert(init[0] == x[0]);
        }
    }
}

/// Two runs of digits of one length that stand for one number are the same
/// run.
pub proof fn lemma_digits_are_told_by_value(x: Seq<char>, y: Seq<char>)
    requires
        all_digits(x),
        all_digits(y),
        x.len() == y.len(),
        digits_value(x) == digits_value(y),
    ensures
        x == y,
    decreases x.len(),
{
    if x.len() > 0 {
        let xi = x.drop_last();
        let yi = y.drop_last();
        assert(is_digit(x.last()) && is_digit(y.last()));
        assert forall|k: int| 0 <= k < xi.len() implies is_digit(#[trigger] xi[k]) by {
            assert(xi[k] == x[k]);
        }
        assert forall|k: int| 0 <= k < yi.len() implies is_digit(#[trigger] yi[k]) by {
            assert(yi[k] == y[k]);
        }
        let dx = digit_value(x.last());
        let dy = digit_value(y.last());
        assert(dx == dy && digits_value(xi) == digits_value(yi)) by {
            assert(10 * digits_value(xi) + dx == 10 * digits_value(yi) + dy);
            assert(dx < 10 && dy < 10);
        }
        assert(x.last() == y.last());
        lemma_digits_are_told_by_value(xi, yi);
        assert(x =~= xi.push(x.last()));
        assert(y =~= yi.push(y.last()));
    } else {
        assert(x =~= y);
    }
}

/// A numeral is its two parts joined, where it does not end with its
/// point.
pub proof fn lemma_numeral_is_joined(t: Seq<char>)
    requires
        is_numeral(t),
        fraction_part(t).len() > 0 || digits_end(t, 0) == t.len(),
    ensures
        t == joined(whole_part(t), fraction_part(t)),
{
    lemma_digits_end(t, 0);
    let w = digits_end(t, 0);
    if w < t.len() {
        assert(t =~= whole_part(t) + (seq!['.'] + fraction_part(t)));
    } else {
        assert(t =~= whole_part(t) + Seq::<char>::empty());
    }
}

/// Of two numerals in shortest form that denote the same number, the
/// second has no more digits behind its point than the first.
proof fn lemma_same_number_same_scale(a: Seq<char>, b: Seq<char>)
    requires
        is_canonical(a),
        is_canonical(b),
        same_number(a, b),
    ensures
        scale(b) <= scale(a),
{
    let sa = scale(a);
    let sb = scale(b);
    if sa < sb {
        let d = (sb - sa) as nat;
        lemma_pow10_add(d, sa);
        lemma_pow10_grows(0, sa);
        lemma_pow10_grows(1, d);
        let ua = units(a);
        let ub = units(b);
        let p = pow10(sa);
        let q = pow10(d);
        assert(ub == ua * q) by (nonlinear_arith)
            requires
                ua * (q * p) == ub * p,
                p > 0,
        ;
        let q1 = pow10((d - 1) as nat);
        assert(q == 10 * q1);
        assert(ub == 10 * (ua * q1)) by (nonlinear_arith)
            requires
                ub == ua * q,
                q == 10 * q1,
        ;
        lemma_parts(b);
        lemma_digits_end(b, 0);
        let x = whole_part(b) + fraction_part(b);
        assert(x.last() == fraction_part(b).last());
        assert(fraction_part(b).last() == b.last());
        assert(is_digit(x.last()));
        assert(ub == 10 * digits_value(x.drop_last()) + digit_value(x.last()));
        assert(digit_value(x.last()) == 0);
        assert(false);
    }
}

/// Two numerals in shortest form that denote the same number are the same
/// numeral: the shortest form is told by the number alone.
pub proof fn law_one_shortest_form(a: Seq<char>, b: Seq<char>)
    requires
        is_canonical(a),
        is_canonical(b),
        same_number(a, b),
    ensures
        a == b,
{
    lemma_same_number_same_scale(a, b);
    lemma_same_number_same_scale(b, a);
    let s = scale(a);
    lemma_pow10_grows(0, s);
    let p = pow10(s);
    let ua = units(a);
    let ub = units(b);
    assert(ua == ub) by (nonlinear_arith)
        requires
            ua * p == ub * p,
            p > 0,
    ;
    lemma_parts(a);
    lemma_parts(b);
    lemma_digits_end(a, 0);
    lemma_digits_end(b, 0);
    let wa = whole_part(a);
    let wb = whole_part(b);
    let fa = fraction_part(a);
    let fb = fraction_part(b);
    let xa = wa + fa;
    let xb = wb + fb;
    assert(all_digits(xa)) by {
        assert forall|k: int| 0 <= k < xa.len() implies is_digit(#[trigger] xa[k]) by {
            if k < wa.len() {
                assert(xa[k] == wa[k]);
            } else {
                assert(xa[k] == fa[k - wa.len()]);
            }
        }
    }
    assert(all_digits(xb)) by {
        assert forall|k: int| 0 <= k < xb.len() implies is_digit(#[trigger] xb[k]) by {
            if k < wb.len() {
                assert(xb[k] == wb[k]);
            } else {
                assert(xb[k] == fb[k - wb.len()]);
            }
        }
    }
    assert(xa[0] == a[0] && xb[0] == b[0]);
    lemma_digits_magnitude(xa);
    lemma_digits_magnitude(xb);
    lemma_zero_in_front(fa);
    lemma_zero_in_front(fb);
    lemma_digits_magnitude(fa);
    lemma_digits_magnitude(fb);
    if a[0] == '0' {
        assert(wa =~= seq!['0']);
    }
    if b[0] == '0' {
        assert(wb =~= seq!['0']);
    }
    if wa.len() < wb.len() {
        lemma_pow10_grows(xa.len(), (xb.len() - 1) as nat);
        lemma_pow10_grows(s, (xb.len() - 1) as nat);
        assert(false);
    }
    if wb.len() < wa.len() {
        lemma_pow10_grows(xb.len(), (xa.len() - 1) as nat);
        lemma_pow10_grows(s, (xa.len() - 1) as nat);
        assert(false);
    }
    lemma_digits_are_told_by_value(xa, xb);
    assert(wa =~= xa.subrange(0, wa.len() as int));
    assert(wb =~= xb.subrange(0, wb.len() as int));
    assert(fa =~= xa.subrange(wa.len() as int, xa.len() as int));
    assert(fb =~= xb.subrange(wb.len() as int, xb.len() as int));
    lemma_numeral_is_joined(a);
    lemma_numeral_is_joined(b);
}

/// Whether `c` is one of the ten decimal digits.
pub fn digit(c: char) -> (b: bool)
    ensures
        b == is_digit(c),
{
    c >= '0' && c <= '9'
}

/// Whether `c` may stand in a numeral.
pub fn number_char(c: char) -> (b: bool)
    ensures
        b == is_number_char(c),
{
    digit(c) || c == '.'
}

/// A non-negative decimal number, held exactly, as its shortest numeral.
/// Two of them are equal where their numerals are. Nothing is rounded here:
/// where a value is computed from the number, the numeral is what the
/// floating-point number nearest to it is taken from.
#[derive(Debug, PartialEq, Eq)]
pub struct Numeral {
    text: String,
}

impl View for Numeral {
    type V = Seq<char>;

    closed spec fn view(&self) -> Seq<char> {
        self.text@
    }
}

impl Clone for Numeral {
    fn clone(&self) -> (r: Self)
        ensures
            r@ == self@,
    {
        proof {
            use_type_invariant(self);
        }
        Numeral { text: self.text.clone() }
    }
}

impl Numeral {
    #[verifier::type_invariant]
    spec fn canonical(self) -> bool {
        is_canonical(self.text@)
    }

    /// Reads a numeral: digits with at most one point among them, and at
    /// least one digit. The number is kept in its shortest form. `None`
    /// where `text` is no numeral.
    pub fn parse(text: &str) -> (r: Option<Numeral>)
        ensures
            r is Some <==> is_numeral(text@),
            r matches Some(n) ==> n@ == canonical_numeral(text@) && is_canonical(n@),
    {
        let chars = chars_of(text);
        let n: usize = chars.len();
        let ghost s = chars@;
        let mut w: usize = 0;
        while w < n && digit(chars[w])
            invariant
                s == chars@,
                n == s.len(),
                0 <= w <= n,
                digits_end(s, w as int) == digits_end(s, 0),
                forall|k: int| 0 <= k < w ==> is_digit(#[trigger] s[k]),
            decreases n - w,
        {
            w += 1;
        }
        let mut b: usize = n;
        if w == n {
            if n == 0 {
                return None;
            }
        } else {
            if chars[w] != '.' || n <= 1 {
                return None;
            }
            let mut k: usize = w + 1;
            while k < n && digit(chars[k])
                invariant
                    s == chars@,
                    n == s.len(),
                    w < k <= n,
                    digits_end(s, k as int) == digits_end(s, w + 1),
                    forall|j: int| w < j < k ==> is_digit(#[trigger] s[j]),
                decreases n - k,
            {
                k += 1;
            }
            if k != n {
                return None;
            }
            while b > w + 1 && chars[b - 1] == '0'
                invariant
                    s == chars@,
                    n == s.len(),
                    w < b <= n,
                    without_trailing_zeros(s.subrange(w + 1, n as int)) == without_trailing_zeros(
                        s.subrange(w + 1, b as int),
                    ),
                decreases b,
            {
                assert(s.subrange(w + 1, b as int).drop_last() =~= s.subrange(w + 1, b - 1));
                b -= 1;
            }
        }
        let mut a: usize = 0;
        while a < w && chars[a] == '0'
            invariant
                s == chars@,
                0 <= a <= w <= s.len(),
                without_leading_zeros(s.subrange(0, w as int)) == without_leading_zeros(
                    s.subrange(a as int, w as int),
                ),
            decreases w - a,
        {
            assert(s.subrange(a as int, w as int).drop_first() =~= s.subrange(a + 1, w as int));
            a += 1;
        }
        let mut out = String::new();
        if a == w {
            push_char(&mut out, '0');
        } else {
            push_range(&mut out, &chars, a, w);
        }
        let ghost whole = out@;
        if w < n && b > w + 1 {
            push_char(&mut out, '.');
            push_range(&mut out, &chars, w + 1, b);
        }
        proof {
            let t = out@;
            assert(without_leading_zeros(whole_part(s)) == s.subrange(a as int, w as int));
            assert(whole =~= if a == w { seq!['0'] } else { s.subrange(a as int, w as int) });
            if w < n {
                assert(without_trailing_zeros(fraction_part(s)) == s.subrange(w + 1, b as int));
            } else {
                assert(without_trailing_zeros(fraction_part(s)) == Seq::<char>::empty());
            }
            assert(t =~= canonical_numeral(s));
            law_canonical_form(s);
        }
        Some(Numeral { text: out })
    }

    fn from_canonical(chars: &Vec<char>) -> (n: Numeral)
        requires
            is_canonical(chars@),
        ensures
            n@ == chars@,
    {
        let text = text_of(chars, 0, chars.len());
        assert(text@ =~= chars@);
        Numeral { text }
    }

    /// The constant π.
    pub fn pi() -> (n: Numeral)
        ensures
            n@ == pi_numeral(),
    {
        let chars = vec![
            '3', '.', '1', '4', '1', '5', '9', '2', '6', '5', '3', '5', '8', '9', '7', '9', '3',
        ];
        proof {
            assert(chars@ =~= pi_numeral());
            lemma_digits_run(chars@, 0, 1);
            lemma_digits_run(chars@, 2, 17);
        }
        Numeral::from_canonical(&chars)
    }

    /// The constant e, the base of the natural logarithm.
    pub fn e() -> (n: Numeral)
        ensures
            n@ == e_numeral(),
    {
        let chars = vec![
            '2', '.', '7', '1', '8', '2', '8', '1', '8', '2', '8', '4', '5', '9', '0', '4', '5',
        ];
        proof {
            assert(chars@ =~= e_numeral());
            lemma_digits_run(chars@, 0, 1);
            lemma_digits_run(chars@, 2, 17);
        }
        Numeral::from_canonical(&chars)
    }

    /// The numeral's text, which is in its shortest form.
    pub fn as_str(&self) -> (s: &str)
        ensures
            s@ == self@,
            is_canonical(self@),
    {
        proof {
            use_type_invariant(self);
        }
        self.text.as_str()
    }
}

} // verus!
