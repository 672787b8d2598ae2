//! Numbers of the canonical tree, held as decimal text.
//!
//! Every number a converter meets is written in one canonical, positional
//! form: an optional `-`, the integer digits without leading zeros (`0` when
//! there are none), then `.` and the fraction digits without trailing zeros
//! when any are left. So `1`, `1.0`, `+1.00`, `01` and `1e0` all become `1`,
//! `-0.0` becomes `0` and `2.5E-3` becomes `0.0025`. The converters hand
//! over a float as the text of its 64-bit value and an integer as its
//! digits, and this text keeps that value digit for digit.
use vstd::prelude::*;
use vstd::string::*;
use super::text::push_char;

verus! {

pub open spec fn is_digit(c: char) -> bool {
    '0' <= c && c <= '9'
}

pub open spec fn digits_only(s: Seq<char>) -> bool {
    forall|i: int| 0 <= i < s.len() ==> is_digit(#[trigger] s[i])
}

/// 1 when `t` starts with a sign, else 0.
pub open spec fn sign_len(t: Seq<char>) -> int {
    if t.len() > 0 && (t[0] == '-' || t[0] == '+') {
        1
    } else {
        0
    }
}

pub open spec fn is_negative(t: Seq<char>) -> bool {
    t.len() > 0 && t[0] == '-'
}

/// `u` is digits before index `d`, and after it either nothing or a `.`
/// followed by digits, with at least one digit in all.
pub open spec fn plain_split(u: Seq<char>, d: int) -> bool {
    &&& 0 <= d <= u.len()
    &&& digits_only(u.take(d))
    &&& d < u.len() ==> u[d] == '.' && digits_only(u.skip(d + 1))
    &&& (if d < u.len() {
        u.len() - 1
    } else {
        u.len() as int
    }) > 0
}

/// An optional sign, then digits with at most one `.` among them.
pub open spec fn is_plain_decimal(t: Seq<char>) -> bool {
    exists|d: int| plain_split(#[trigger] t.skip(sign_len(t)), d)
}

pub open spec fn point_index(t: Seq<char>) -> int {
    choose|d: int| plain_split(#[trigger] t.skip(sign_len(t)), d)
}

pub open spec fn strip_leading_zeros(s: Seq<char>) -> Seq<char>
    decreases s.len(),
{
    if s.len() > 0 && s[0] == '0' {
        strip_leading_zeros(s.skip(1))
    } else {
        s
    }
}

pub open spec fn strip_trailing_zeros(s: Seq<char>) -> Seq<char>
    decreases s.len(),
{
    if s.len() > 0 && s.last() == '0' {
        strip_trailing_zeros(s.drop_last())
    } else {
        s
    }
}

/// The canonical text of a number whose sign, integer digits and fraction
/// digits are given.
pub open spec fn canonical_decimal(negative: bool, int_digits: Seq<char>, frac_digits: Seq<char>) -> Seq<
    char,
> {
    let i = strip_leading_zeros(int_digits);
    let f = strip_trailing_zeros(frac_digits);
    let body = (if i.len() == 0 {
        seq!['0']
    } else {
        i
    }) + (if f.len() == 0 {
        Seq::<char>::empty()
    } else {
        seq!['.'] + f
    });
    if negative && (i.len() > 0 || f.len() > 0) {
        seq!['-'] + body
    } else {
        body
    }
}

/// The largest exponent, in absolute value, that a numeral is written out
/// with.
pub const MAX_EXPONENT: u64 = 1000;

pub open spec fn digit_value(c: char) -> int {
    if c == '1' {
        1
    } else if c == '2' {
        2
    } else if c == '3' {
        3
    } else if c == '4' {
        4
    } else if c == '5' {
        5
    } else if c == '6' {
        6
    } else if c == '7' {
        7
    } else if c == '8' {
        8
    } else if c == '9' {
        9
    } else {
        0
    }
}

/// The value of a string of decimal digits.
pub open spec fn digits_value(s: Seq<char>) -> int
    decreases s.len(),
{
    if s.len() == 0 {
        0
    } else {
        digits_value(s.drop_last()) * 10 + digit_value(s.last())
    }
}

/// The digits of an exponent `x`, after its sign.
pub open spec fn exponent_digits(x: Seq<char>) -> Seq<char> {
    x.skip(sign_len(x))
}

/// The value of an exponent `x`.
pub open spec fn exponent_value(x: Seq<char>) -> int {
    if is_negative(x) {
        -digits_value(exponent_digits(x))
    } else {
        digits_value(exponent_digits(x))
    }
}

/// `t` is a plain decimal numeral before index `k`, then `e` or `E`, then an
/// exponent: an optional sign and digits, of value at most `MAX_EXPONENT`.
pub open spec fn exponent_split(t: Seq<char>, k: int) -> bool {
    &&& 0 < k < t.len()
    &&& (t[k] == 'e' || t[k] == 'E')
    &&& is_plain_decimal(t.take(k))
    &&& exponent_digits(t.skip(k + 1)).len() > 0
    &&& digits_only(exponent_digits(t.skip(k + 1)))
    &&& digits_value(exponent_digits(t.skip(k + 1))) <= MAX_EXPONENT
}

pub open spec fn is_exponent_numeral(t: Seq<char>) -> bool {
    exists|k: int| exponent_split(t, k)
}

pub open spec fn exponent_index(t: Seq<char>) -> int {
    choose|k: int| exponent_split(t, k)
}

/// `n` zeros.
pub open spec fn zeros(n: int) -> Seq<char> {
    Seq::new(n as nat, |i: int| '0')
}

/// The integer and fraction digits of the number whose digits are `ds`
/// with the point after the first `p` of them (`p` may lie outside them).
pub open spec fn shifted_parts(ds: Seq<char>, p: int) -> (Seq<char>, Seq<char>) {
    if p <= 0 {
        (Seq::<char>::empty(), zeros(-p) + ds)
    } else if p >= ds.len() {
        (ds + zeros(p - ds.len()), Seq::<char>::empty())
    } else {
        (ds.take(p), ds.skip(p))
    }
}

/// The integer digits of a plain decimal numeral.
pub open spec fn integer_digits(m: Seq<char>) -> Seq<char> {
    m.skip(sign_len(m)).take(point_index(m))
}

/// The fraction digits of a plain decimal numeral.
pub open spec fn fraction_digits(m: Seq<char>) -> Seq<char> {
    let u = m.skip(sign_len(m));
    if point_index(m) < u.len() {
        u.skip(point_index(m) + 1)
    } else {
        Seq::<char>::empty()
    }
}

/// The number text that a numeral `t` is held as: its canonical form when
/// `t` is a decimal numeral, plain or with an exponent, and `t` itself
/// otherwise (`inf`, `nan`, an exponent beyond `MAX_EXPONENT`).
#[verifier::opaque]
pub open spec fn number_text_of(t: Seq<char>) -> Seq<char> {
    if is_plain_decimal(t) {
        canonical_decimal(is_negative(t), integer_digits(t), fraction_digits(t))
    } else if is_exponent_numeral(t) {
        let k = exponent_index(t);
        let m = t.take(k);
        let parts = shifted_parts(
            integer_digits(m) + fraction_digits(m),
            integer_digits(m).len() + exponent_value(t.skip(k + 1)),
        );
        canonical_decimal(is_negative(t), parts.0, parts.1)
    } else {
        t
    }
}

pub open spec fn digit_char(d: int) -> char {
    if d == 0 {
        '0'
    } else if d == 1 {
        '1'
    } else if d == 2 {
        '2'
    } else if d == 3 {
        '3'
    } else if d == 4 {
        '4'
    } else if d == 5 {
        '5'
    } else if d == 6 {
        '6'
    } else if d == 7 {
        '7'
    } else if d == 8 {
        '8'
    } else {
        '9'
    }
}

/// The decimal digits of `n`, without leading zeros.
pub open spec fn nat_digits(n: nat) -> Seq<char>
    decreases n,
{
    if n < 10 {
        seq![digit_char(n as int)]
    } else {
        nat_digits(n / 10) + seq![digit_char((n % 10) as int)]
    }
}

/// The decimal text of an integer.
pub open spec fn int_text(i: int) -> Seq<char> {
    if i < 0 {
        seq!['-'] + nat_digits((-i) as nat)
    } else {
        nat_digits(i as nat)
    }
}

/// Number text in positional notation: digits, at most one leading `-`
/// and `.` marks, and no exponent.
pub open spec fn is_positional(s: Seq<char>) -> bool {
    &&& s.len() > 0
    &&& forall|k: int|
        0 <= k < s.len() ==> is_digit(#[trigger] s[k]) || s[k] == '.' || (k == 0 && s[k] == '-')
}

proof fn lemma_nat_digits(n: nat)
    ensures
        nat_digits(n).len() > 0,
        digits_only(nat_digits(n)),
        n > 0 ==> nat_digits(n)[0] != '0',
        n == 0 ==> nat_digits(n) == seq!['0'],
    decreases n,
{
    if n >= 10 {
        lemma_nat_digits(n / 10);
        let s = nat_digits(n / 10) + seq![digit_char((n % 10) as int)];
        assert(s[0] == nat_digits(n / 10)[0]);
        assert forall|i: int| 0 <= i < s.len() implies is_digit(#[trigger] s[i]) by {
            if i < nat_digits(n / 10).len() {
                assert(s[i] == nat_digits(n / 10)[i]);
            }
        }
    }
}

proof fn lemma_strip_leading_suffix(s: Seq<char>)
    ensures
        exists|k: int| 0 <= k <= s.len() && strip_leading_zeros(s) == s.skip(k),
    decreases s.len(),
{
    if s.len() > 0 && s[0] == '0' {
        lemma_strip_leading_suffix(s.skip(1));
        let k = choose|k: int|
            0 <= k <= s.skip(1).len() && strip_leading_zeros(s.skip(1)) == s.skip(1).skip(k);
        assert(s.skip(1).skip(k) =~= s.skip(k + 1));
    } else {
        assert(s.skip(0) =~= s);
    }
}

proof fn lemma_strip_trailing_prefix(s: Seq<char>)
    ensures
        exists|k: int| 0 <= k <= s.len() && strip_trailing_zeros(s) == s.take(k),
    decreases s.len(),
{
    if s.len() > 0 && s.last() == '0' {
        lemma_strip_trailing_prefix(s.drop_last());
        let k = choose|k: int|
            0 <= k <= s.drop_last().len() && strip_trailing_zeros(s.drop_last())
                == s.drop_last().take(k);
        assert(s.drop_last().take(k) =~= s.take(k));
    } else {
        assert(s.take(s.len() as int) =~= s);
    }
}

proof fn lemma_canonical_positional(negative: bool, int_digits: Seq<char>, frac_digits: Seq<char>)
    requires
        digits_only(int_digits),
        digits_only(frac_digits),
    ensures
        is_positional(canonical_decimal(negative, int_digits, frac_digits)),
{
    lemma_strip_leading_suffix(int_digits);
    lemma_strip_trailing_prefix(frac_digits);
    let a = strip_leading_zeros(int_digits);
    let f = strip_trailing_zeros(frac_digits);
    assert(digits_only(a)) by {
        let k = choose|k: int|
            0 <= k <= int_digits.len() && strip_leading_zeros(int_digits) == int_digits.skip(k);
        assert forall|j: int| 0 <= j < a.len() implies is_digit(#[trigger] a[j]) by {
            assert(a[j] == int_digits[j + k]);
        }
    }
    assert(digits_only(f)) by {
        let k = choose|k: int|
            0 <= k <= frac_digits.len() && strip_trailing_zeros(frac_digits) == frac_digits.take(k);
        assert forall|j: int| 0 <= j < f.len() implies is_digit(#[trigger] f[j]) by {
            assert(f[j] == frac_digits[j]);
        }
    }
    let ip = if a.len() == 0 {
        seq!['0']
    } else {
        a
    };
    let fp = if f.len() == 0 {
        Seq::<char>::empty()
    } else {
        seq!['.'] + f
    };
    let body = ip + fp;
    assert forall|j: int| 0 <= j < body.len() implies is_digit(#[trigger] body[j]) || body[j]
        == '.' by {
        if j < ip.len() {
            assert(body[j] == ip[j]);
        } else if j > ip.len() {
            assert(body[j] == f[j - ip.len() - 1]);
        }
    }
    let r = canonical_decimal(negative, int_digits, frac_digits);
    assert forall|j: int| 0 <= j < r.len() implies is_digit(#[trigger] r[j]) || r[j] == '.' || (j
        == 0 && r[j] == '-') by {
        if r != body && j > 0 {
            assert(r[j] == body[j - 1]);
        }
    }
}

proof fn lemma_plain_parts_digits(m: Seq<char>)
    requires
        is_plain_decimal(m),
    ensures
        digits_only(integer_digits(m)),
        digits_only(fraction_digits(m)),
{
    let u = m.skip(sign_len(m));
    assert(plain_split(u, point_index(m)));
}

proof fn lemma_shifted_digits(ds: Seq<char>, p: int)
    requires
        digits_only(ds),
    ensures
        digits_only(shifted_parts(ds, p).0),
        digits_only(shifted_parts(ds, p).1),
{
    let parts = shifted_parts(ds, p);
    assert forall|i: int| 0 <= i < parts.0.len() implies is_digit(#[trigger] parts.0[i]) by {
        if i < ds.len() {
            assert(parts.0[i] == ds[i]);
        }
    }
    assert forall|i: int| 0 <= i < parts.1.len() implies is_digit(#[trigger] parts.1[i]) by {
        if p > 0 {
            assert(parts.1[i] == ds[i + p]);
        } else if i >= -p {
            assert(parts.1[i] == ds[i + p]);
        }
    }
}

/// A number never comes out in scientific notation: the text of an integer,
/// and the canonical text of a decimal numeral, plain or with an exponent,
/// are positional.
pub proof fn lemma_number_text_is_positional(i: int, t: Seq<char>)
    ensures
        is_positional(int_text(i)),
        is_plain_decimal(t) || is_exponent_numeral(t) ==> is_positional(number_text_of(t)),
{
    reveal(number_text_of);
    let m: nat = if i < 0 {
        (-i) as nat
    } else {
        i as nat
    };
    lemma_nat_digits(m);
    let r = int_text(i);
    assert forall|k: int| 0 <= k < r.len() implies is_digit(#[trigger] r[k]) || r[k] == '.' || (k
        == 0 && r[k] == '-') by {
        if i < 0 && k > 0 {
            assert(r[k] == nat_digits(m)[k - 1]);
        }
    }
    if is_plain_decimal(t) {
        lemma_plain_parts_digits(t);
        lemma_canonical_positional(is_negative(t), integer_digits(t), fraction_digits(t));
    } else if is_exponent_numeral(t) {
        let k = exponent_index(t);
        let mt = t.take(k);
        lemma_plain_parts_digits(mt);
        let ds = integer_digits(mt) + fraction_digits(mt);
        assert(digits_only(ds)) by {
            assert forall|j: int| 0 <= j < ds.len() implies is_digit(#[trigger] ds[j]) by {
                if j < integer_digits(mt).len() {
                    assert(ds[j] == integer_digits(mt)[j]);
                } else {
                    assert(ds[j] == fraction_digits(mt)[j - integer_digits(mt).len()]);
                }
            }
        }
        let shift = integer_digits(mt).len() + exponent_value(t.skip(k + 1));
        lemma_shifted_digits(ds, shift);
        lemma_canonical_positional(
            is_negative(t),
            shifted_parts(ds, shift).0,
            shifted_parts(ds, shift).1,
        );
    }
}

/// An integer reads the same whether a format hands it over as an integer
/// or as its decimal text: the text of an integer is already canonical.
pub proof fn lemma_integer_numeral_is_canonical(i: int)
    ensures
        number_text_of(int_text(i)) == int_text(i),
{
    reveal(number_text_of);
    let m: nat = if i < 0 {
        (-i) as nat
    } else {
        i as nat
    };
    lemma_nat_digits(m);
    let t = int_text(i);
    let digits = nat_digits(m);
    let u = t.skip(sign_len(t));
    if i < 0 {
        assert(digits[0] != '0');
        assert(t[0] == '-');
        assert(u =~= digits);
    } else {
        assert(u =~= digits);
    }
    assert(u.take(u.len() as int) =~= u);
    assert(plain_split(u, u.len() as int));
    lemma_plain_split_unique(u, u.len() as int, point_index(t));
    if m > 0 {
        lemma_strip_leading(digits, 0);
        assert(digits.skip(0) =~= digits);
    } else {
        assert(digits.skip(1) =~= Seq::<char>::empty());
    }
    assert(strip_trailing_zeros(Seq::<char>::empty()) =~= Seq::<char>::empty());
    assert(is_plain_decimal(t));
    assert(point_index(t) == u.len());
    assert(u.take(point_index(t)) =~= digits);
    let stripped = strip_leading_zeros(digits);
    if m > 0 {
        assert(stripped == digits);
        assert(stripped.len() > 0);
    } else {
        assert(digits[0] == '0');
        assert(digits.skip(1) =~= Seq::<char>::empty());
        assert(strip_leading_zeros(digits.skip(1)) =~= Seq::<char>::empty());
        assert(stripped =~= Seq::<char>::empty());
    }
    let body = if m > 0 {
        digits
    } else {
        seq!['0']
    };
    assert(body + Seq::<char>::empty() =~= body);
    assert(number_text_of(t) == canonical_decimal(is_negative(t), digits, Seq::<char>::empty()));
    if i < 0 {
        assert(canonical_decimal(true, digits, Seq::<char>::empty()) =~= seq!['-'] + digits);
    } else {
        assert(!is_negative(t));
        assert(canonical_decimal(false, digits, Seq::<char>::empty()) =~= body);
    }
}

proof fn lemma_plain_split_unique(u: Seq<char>, d1: int, d2: int)
    requires
        plain_split(u, d1),
        plain_split(u, d2),
    ensures
        d1 == d2,
{
    if d1 < d2 {
        assert(u.take(d2)[d1] == u[d1]);
    } else if d2 < d1 {
        assert(u.take(d1)[d2] == u[d2]);
    }
}

proof fn lemma_strip_leading(s: Seq<char>, k: int)
    requires
        0 <= k <= s.len(),
        forall|i: int| 0 <= i < k ==> s[i] == '0',
        k == s.len() || s[k] != '0',
    ensures
        strip_leading_zeros(s) == s.skip(k),
    decreases k,
{
    if k == 0 {
        assert(s.skip(0) =~= s);
    } else {
        let t = s.skip(1);
        assert forall|i: int| 0 <= i < k - 1 implies t[i] == '0' by {
            assert(t[i] == s[i + 1]);
        }
        lemma_strip_leading(t, k - 1);
        assert(t.skip(k - 1) =~= s.skip(k));
    }
}

proof fn lemma_strip_trailing(s: Seq<char>, k: int)
    requires
        0 <= k <= s.len(),
        forall|i: int| k <= i < s.len() ==> s[i] == '0',
        k == 0 || s[k - 1] != '0',
    ensures
        strip_trailing_zeros(s) == s.take(k),
    decreases s.len() - k,
{
    if k == s.len() {
        assert(s.take(k) =~= s);
    } else {
        let t = s.drop_last();
        lemma_strip_trailing(t, k);
        assert(t.take(k) =~= s.take(k));
    }
}

fn char_is_digit(c: char) -> (r: bool)
    ensures
        r == is_digit(c),
{
    '0' <= c && c <= '9'
}

/// Appends the characters of `t` from index `from` up to `to`.
fn push_range(out: &mut String, t: &str, from: usize, to: usize)
    requires
        from <= to <= t@.len(),
    ensures
        final(out)@ == old(out)@ + t@.subrange(from as int, to as int),
{
    let mut i: usize = from;
    while i < to
        invariant
            from <= i <= to <= t@.len(),
            out@ == old(out)@ + t@.subrange(from as int, i as int),
        decreases to - i,
    {
        let c = t.get_char(i);
        push_char(out, c);
        assert(t@.subrange(from as int, i + 1) =~= t@.subrange(from as int, i as int).push(c));
        i = i + 1;
    }
}

/// The end of the run of digits that starts at `from`.
fn digits_end(t: &str, n: usize, from: usize) -> (r: usize)
    requires
        n == t@.len(),
        from <= n,
    ensures
        from <= r <= n,
        forall|i: int| from <= i < r ==> is_digit(#[trigger] t@[i]),
        r == n || !is_digit(t@[r as int]),
{
    let mut p: usize = from;
    while p < n && char_is_digit(t.get_char(p))
        invariant
            from <= p <= n,
            n == t@.len(),
            forall|i: int| from <= i < p ==> is_digit(#[trigger] t@[i]),
        decreases n - p,
    {
        p = p + 1;
    }
    p
}

/// The end of the run of `0` that starts at `from` and stops before `to`.
fn zeros_end(t: &str, from: usize, to: usize) -> (r: usize)
    requires
        from <= to <= t@.len(),
    ensures
        from <= r <= to,
        forall|i: int| from <= i < r ==> #[trigger] t@[i] == '0',
        r == to || t@[r as int] != '0',
{
    let mut a: usize = from;
    while a < to && t.get_char(a) == '0'
        invariant
            from <= a <= to <= t@.len(),
            forall|i: int| from <= i < a ==> #[trigger] t@[i] == '0',
        decreases to - a,
    {
        a = a + 1;
    }
    a
}

/// The start of the run of `0` that ends at `to` and starts at `from` or later.
fn zeros_start(t: &str, from: usize, to: usize) -> (r: usize)
    requires
        from <= to <= t@.len(),
    ensures
        from <= r <= to,
        forall|i: int| r <= i < to ==> #[trigger] t@[i] == '0',
        r == from || t@[r - 1] != '0',
{
    let mut b: usize = to;
    while b > from && t.get_char(b - 1) == '0'
        invariant
            from <= b <= to <= t@.len(),
            forall|i: int| b <= i < to ==> #[trigger] t@[i] == '0',
        decreases b,
    {
        b = b - 1;
    }
    b
}

proof fn lemma_not_plain(tv: Seq<char>, s: int, p: int, q: int)
    requires
        s == sign_len(tv),
        s <= p <= q <= tv.len(),
        forall|i: int| s <= i < p ==> is_digit(#[trigger] tv[i]),
        p == tv.len() || !is_digit(tv[p]),
        p < tv.len() && tv[p] == '.' ==> {
            &&& p + 1 <= q
            &&& forall|i: int| p + 1 <= i < q ==> is_digit(#[trigger] tv[i])
            &&& q == tv.len() || !is_digit(tv[q])
        },
        !(p < tv.len() && tv[p] == '.') ==> q == p,
        q < tv.len() || (if p < tv.len() { q - p - 1 + (p - s) } else { p - s }) == 0,
    ensures
        !is_plain_decimal(tv),
{
    let u = tv.skip(s);
    if is_plain_decimal(tv) {
        let d = choose|d: int| plain_split(#[trigger] tv.skip(sign_len(tv)), d);
        assert(plain_split(u, d));
        if d < p - s {
            assert(u[d] == tv[s + d]);
        } else if d > p - s {
            assert(u.take(d)[p - s] == tv[p]);
        } else if d < u.len() {
            assert(u[d] == tv[p]);
            if q < tv.len() {
                assert(u.skip(d + 1)[q - p - 1] == tv[q]);
            }
        }
    }
}

proof fn lemma_plain(tv: Seq<char>, s: int, p: int, has_point: bool)
    requires
        s == sign_len(tv),
        s <= p <= tv.len(),
        forall|i: int| s <= i < p ==> is_digit(#[trigger] tv[i]),
        has_point ==> p < tv.len() && tv[p] == '.' && forall|i: int|
            p + 1 <= i < tv.len() ==> is_digit(#[trigger] tv[i]),
        !has_point ==> p == tv.len(),
        (if has_point { tv.len() - p - 1 + (p - s) } else { p - s }) > 0,
    ensures
        is_plain_decimal(tv),
        point_index(tv) == p - s,
        tv.skip(s).take(p - s) == tv.subrange(s, p),
        has_point ==> tv.skip(s).skip(p - s + 1) == tv.subrange(p + 1, tv.len() as int),
        has_point == (p - s < tv.skip(s).len()),
{
    let u = tv.skip(s);
    let d = p - s;
    assert forall|i: int| 0 <= i < d implies is_digit(#[trigger] u.take(d)[i]) by {
        assert(u.take(d)[i] == tv[s + i]);
    }
    if has_point {
        assert(u[d] == tv[p]);
        assert forall|i: int| 0 <= i < u.skip(d + 1).len() implies is_digit(
            #[trigger] u.skip(d + 1)[i],
        ) by {
            assert(u.skip(d + 1)[i] == tv[p + 1 + i]);
        }
        assert(u.skip(d + 1) =~= tv.subrange(p + 1, tv.len() as int));
    }
    assert(plain_split(u, d));
    lemma_plain_split_unique(u, d, point_index(tv));
    assert(u.take(d) =~= tv.subrange(s, p));
}

/// The canonical text of the number with the given sign, integer digits
/// and fraction digits.
fn canonical_text(negative: bool, int_digits: &str, frac_digits: &str) -> (r: String)
    requires
        digits_only(int_digits@),
        digits_only(frac_digits@),
    ensures
        r@ == canonical_decimal(negative, int_digits@, frac_digits@),
{
    let ni = int_digits.unicode_len();
    let nf = frac_digits.unicode_len();
    let a = zeros_end(int_digits, 0, ni);
    let b = zeros_start(frac_digits, 0, nf);
    proof {
        lemma_strip_leading(int_digits@, a as int);
        lemma_strip_trailing(frac_digits@, b as int);
        assert(int_digits@.skip(a as int) =~= int_digits@.subrange(a as int, ni as int));
        assert(frac_digits@.take(b as int) =~= frac_digits@.subrange(0, b as int));
    }
    let mut out = String::new();
    if negative && (a < ni || b > 0) {
        push_char(&mut out, '-');
    }
    if a == ni {
        push_char(&mut out, '0');
    } else {
        push_range(&mut out, int_digits, a, ni);
    }
    if b > 0 {
        push_char(&mut out, '.');
        push_range(&mut out, frac_digits, 0, b);
    }
    proof {
        let i2 = int_digits@.subrange(a as int, ni as int);
        let f2 = frac_digits@.subrange(0, b as int);
        let body = (if i2.len() == 0 {
            seq!['0']
        } else {
            i2
        }) + (if f2.len() == 0 {
            Seq::<char>::empty()
        } else {
            seq!['.'] + f2
        });
        if negative && (a < ni || b > 0) {
            assert(out@ =~= seq!['-'] + body);
        } else {
            assert(out@ =~= body);
        }
    }
    out
}

/// The characters of `t` from index `from` up to `to`.
fn slice(t: &str, from: usize, to: usize) -> (r: String)
    requires
        from <= to <= t@.len(),
    ensures
        r@ == t@.subrange(from as int, to as int),
{
    let mut out = String::new();
    push_range(&mut out, t, from, to);
    out
}

/// Appends `n` zeros.
fn push_zeros(out: &mut String, n: usize)
    ensures
        final(out)@ == old(out)@ + zeros(n as int),
{
    let mut i: usize = 0;
    while i < n
        invariant
            i <= n,
            out@ == old(out)@ + zeros(i as int),
        decreases n - i,
    {
        push_char(out, '0');
        assert(zeros(i + 1) =~= zeros(i as int).push('0'));
        i = i + 1;
    }
}

fn digit_value_of(c: char) -> (r: u64)
    ensures
        r == digit_value(c),
        r <= 9,
{
    if c == '1' {
        1
    } else if c == '2' {
        2
    } else if c == '3' {
        3
    } else if c == '4' {
        4
    } else if c == '5' {
        5
    } else if c == '6' {
        6
    } else if c == '7' {
        7
    } else if c == '8' {
        8
    } else if c == '9' {
        9
    } else {
        0
    }
}

/// The value of the digits of `t` from `from` up to `to`, where it is at
/// most `MAX_EXPONENT`.
fn bounded_digits_value(t: &str, from: usize, to: usize) -> (r: Option<u64>)
    requires
        from <= to <= t@.len(),
    ensures
        match r {
            Some(v) => v == digits_value(t@.subrange(from as int, to as int)) && v <= MAX_EXPONENT,
            None => digits_only(t@.subrange(from as int, to as int)) ==> digits_value(
                t@.subrange(from as int, to as int),
            ) > MAX_EXPONENT,
        },
{
    let mut v: u64 = 0;
    let mut i: usize = from;
    while i < to
        invariant
            from <= i <= to <= t@.len(),
            v == digits_value(t@.subrange(from as int, i as int)),
            v <= MAX_EXPONENT,
        decreases to - i,
    {
        let d = digit_value_of(t.get_char(i));
        assert(t@.subrange(from as int, i + 1).drop_last() =~= t@.subrange(from as int, i as int));
        v = v * 10 + d;
        i = i + 1;
        if v > MAX_EXPONENT {
            proof {
                if digits_only(t@.subrange(from as int, to as int)) {
                    lemma_digits_value_grows(t@.subrange(from as int, to as int), i - from);
                    assert(t@.subrange(from as int, to as int).take(i - from) =~= t@.subrange(
                        from as int,
                        i as int,
                    ));
                }
            }
            return None;
        }
    }
    Some(v)
}

proof fn lemma_digits_value_nonneg(s: Seq<char>)
    ensures
        digits_value(s) >= 0,
    decreases s.len(),
{
    if s.len() > 0 {
        lemma_digits_value_nonneg(s.drop_last());
    }
}

/// A string of digits is worth at least any of its prefixes.
proof fn lemma_digits_value_grows(s: Seq<char>, k: int)
    requires
        0 <= k <= s.len(),
        digits_only(s),
    ensures
        digits_value(s) >= digits_value(s.take(k)),
    decreases s.len(),
{
    if k < s.len() {
        let t = s.drop_last();
        assert(digits_only(t)) by {
            assert forall|i: int| 0 <= i < t.len() implies is_digit(#[trigger] t[i]) by {
                assert(t[i] == s[i]);
            }
        }
        lemma_digits_value_grows(t, k);
        assert(t.take(k) =~= s.take(k));
        lemma_digits_value_nonneg(t);
    } else {
        assert(s.take(k) =~= s);
    }
}

/// A plain decimal numeral holds no exponent marker.
proof fn lemma_plain_has_no_marker(m: Seq<char>)
    requires
        is_plain_decimal(m),
    ensures
        forall|i: int| 0 <= i < m.len() ==> #[trigger] m[i] != 'e' && m[i] != 'E',
{
    let s = sign_len(m);
    let u = m.skip(s);
    let d = point_index(m);
    assert(plain_split(u, d));
    assert forall|i: int| 0 <= i < m.len() implies #[trigger] m[i] != 'e' && m[i] != 'E' by {
        if i >= s {
            assert(m[i] == u[i - s]);
            if i - s < d {
                assert(u.take(d)[i - s] == u[i - s]);
            } else if i - s > d {
                assert(u.skip(d + 1)[i - s - d - 1] == u[i - s]);
            }
        }
    }
}

proof fn lemma_exponent_split_unique(t: Seq<char>, k1: int, k2: int)
    requires
        exponent_split(t, k1),
        exponent_split(t, k2),
    ensures
        k1 == k2,
{
    if k1 < k2 {
        lemma_plain_has_no_marker(t.take(k2));
        assert(t.take(k2)[k1] == t[k1]);
    } else if k2 < k1 {
        lemma_plain_has_no_marker(t.take(k1));
        assert(t.take(k1)[k2] == t[k2]);
    }
}

/// Where `t` is an exponent numeral, its marker is the first character
/// after the integer digits and the fraction, if any.
proof fn lemma_marker_position(tv: Seq<char>, s: int, p: int, q: int, k: int)
    requires
        exponent_split(tv, k),
        s == sign_len(tv),
        s <= p <= q <= tv.len(),
        forall|i: int| s <= i < p ==> is_digit(#[trigger] tv[i]),
        p == tv.len() || !is_digit(tv[p]),
        p < tv.len() && tv[p] == '.' ==> {
            &&& p + 1 <= q
            &&& forall|i: int| p + 1 <= i < q ==> is_digit(#[trigger] tv[i])
            &&& q == tv.len() || !is_digit(tv[q])
        },
        !(p < tv.len() && tv[p] == '.') ==> q == p,
    ensures
        k == q,
        p - s + (if q > p { q - p - 1 } else { 0 }) > 0,
{
    let m = tv.take(k);
    assert(sign_len(m) == s);
    let u = m.skip(s);
    let d = point_index(m);
    assert(plain_split(u, d));
    // the integer digits of m end where the scan stopped
    if s + d < p {
        assert(u[d] == tv[s + d]);
        if d < u.len() {
            assert(is_digit(tv[s + d]));
        } else {
            assert(tv[s + d] == tv[k]);
        }
    }
    if p < s + d {
        assert(u.take(d)[p - s] == tv[p]);
    }
    assert(p == s + d);
    if d < u.len() {
        assert(tv[p] == u[d]);
        if q < k {
            assert(u.skip(d + 1)[q - p - 1] == tv[q]);
            if q < tv.len() {
                assert(!is_digit(tv[q]));
            }
        }
        if k < q {
            assert(tv[k] == tv[k]);
            assert(is_digit(tv[k]));
        }
        assert(k == q);
    } else {
        assert(p == k);
        assert(tv[p] == tv[k]);
    }
}

proof fn lemma_exponent_case(tv: Seq<char>, s: int, p: int, q: int, has_point: bool, xs: int, e: int)
    requires
        s == sign_len(tv),
        s <= p <= q < tv.len(),
        forall|i: int| s <= i < p ==> is_digit(#[trigger] tv[i]),
        has_point ==> p < q && tv[p] == '.' && forall|i: int| p + 1 <= i < q ==> is_digit(#[trigger] tv[i]),
        !has_point ==> p == q,
        (if has_point { q - p - 1 + (p - s) } else { p - s }) > 0,
        tv[q] == 'e' || tv[q] == 'E',
        xs == q + 1 + sign_len(tv.skip(q + 1)),
        xs < tv.len(),
        forall|i: int| xs <= i < tv.len() ==> is_digit(#[trigger] tv[i]),
        e == digits_value(tv.subrange(xs, tv.len() as int)),
        e <= MAX_EXPONENT,
    ensures
        !is_plain_decimal(tv),
        is_exponent_numeral(tv),
        exponent_index(tv) == q,
        integer_digits(tv.take(q)) == tv.subrange(s, p),
        fraction_digits(tv.take(q)) == if has_point { tv.subrange(p + 1, q) } else { Seq::<char>::empty() },
        digits_only(integer_digits(tv.take(q)) + fraction_digits(tv.take(q))),
        (integer_digits(tv.take(q)) + fraction_digits(tv.take(q))).len() >= p - s,
        exponent_value(tv.skip(q + 1)) == if is_negative(tv.skip(q + 1)) { -e } else { e },
{
    let n = tv.len();
    let m = tv.take(q);
    let x = tv.skip(q + 1);
    assert(exponent_digits(x) =~= tv.subrange(xs, n as int));
    assert(m.len() == q);
    assert forall|i: int| s <= i < p implies is_digit(#[trigger] m[i]) by {
        assert(m[i] == tv[i]);
    }
    assert(sign_len(m) == s);
    if has_point {
        assert(m[p] == tv[p]);
        assert forall|i: int| p + 1 <= i < m.len() implies is_digit(#[trigger] m[i]) by {
            assert(m[i] == tv[i]);
        }
    }
    lemma_plain(m, s, p, has_point);
    assert(digits_only(exponent_digits(x))) by {
        assert forall|i: int| 0 <= i < n - xs implies is_digit(
            #[trigger] tv.subrange(xs, n as int)[i],
        ) by {
            assert(tv.subrange(xs, n as int)[i] == tv[xs + i]);
        }
    }
    assert(exponent_split(tv, q));
    lemma_exponent_split_unique(tv, q, exponent_index(tv));
    if is_plain_decimal(tv) {
        lemma_plain_has_no_marker(tv);
    }
    assert(m.subrange(s, p) =~= tv.subrange(s, p));
    if has_point {
        assert(m.subrange(p + 1, q) =~= tv.subrange(p + 1, q));
    }
    let dsv = integer_digits(m) + fraction_digits(m);
    assert forall|i: int| 0 <= i < dsv.len() implies is_digit(#[trigger] dsv[i]) by {
        if i < p - s {
            assert(dsv[i] == tv[s + i]);
        } else {
            assert(dsv[i] == tv[p + 1 + (i - (p - s))]);
        }
    }
}

proof fn lemma_plain_case(tv: Seq<char>, s: int, p: int, has_point: bool, f0: int)
    requires
        s == sign_len(tv),
        s <= p <= tv.len(),
        forall|i: int| s <= i < p ==> is_digit(#[trigger] tv[i]),
        has_point ==> p < tv.len() && tv[p] == '.' && forall|i: int|
            p + 1 <= i < tv.len() ==> is_digit(#[trigger] tv[i]),
        !has_point ==> p == tv.len(),
        (if has_point { tv.len() - p - 1 + (p - s) } else { p - s }) > 0,
        f0 == if has_point { p + 1 } else { p },
    ensures
        number_text_of(tv) == canonical_decimal(
            is_negative(tv),
            tv.subrange(s, p),
            tv.subrange(f0, tv.len() as int),
        ),
        digits_only(tv.subrange(s, p)),
        digits_only(tv.subrange(f0, tv.len() as int)),
{
    let n = tv.len();
    lemma_plain(tv, s, p, has_point);
    assert(tv.subrange(f0, n as int) =~= fraction_digits(tv));
    assert(digits_only(tv.subrange(s, p))) by {
        assert forall|i: int| 0 <= i < p - s implies is_digit(#[trigger] tv.subrange(s, p)[i]) by {
            assert(tv.subrange(s, p)[i] == tv[s + i]);
        }
    }
    assert(digits_only(tv.subrange(f0, n as int))) by {
        assert forall|i: int| 0 <= i < n - f0 implies is_digit(
            #[trigger] tv.subrange(f0, n as int)[i],
        ) by {
            assert(tv.subrange(f0, n as int)[i] == tv[f0 + i]);
        }
    }
    reveal(number_text_of);
}

proof fn lemma_exponent_value(tv: Seq<char>, q: int)
    requires
        !is_plain_decimal(tv),
        is_exponent_numeral(tv),
        exponent_index(tv) == q,
    ensures
        number_text_of(tv) == ({
            let m = tv.take(q);
            let parts = shifted_parts(
                integer_digits(m) + fraction_digits(m),
                integer_digits(m).len() + exponent_value(tv.skip(q + 1)),
            );
            canonical_decimal(is_negative(tv), parts.0, parts.1)
        }),
{
    reveal(number_text_of);
}

/// The text that the number written `t` is held as in the canonical tree:
/// `number_text_of(t@)`.
#[verifier::rlimit(40)]
pub fn number_text(t: &str) -> (r: String)
    ensures
        r@ == number_text_of(t@),
{
    let n = t.unicode_len();
    let ghost tv = t@;
    let s: usize = if n > 0 && (t.get_char(0) == '-' || t.get_char(0) == '+') {
        1
    } else {
        0
    };
    let negative = n > 0 && t.get_char(0) == '-';
    // integer digits: [s, p); fraction digits: [p + 1, q) when there is a point at p
    let p = digits_end(t, n, s);
    let has_point = p < n && t.get_char(p) == '.';
    let q: usize = if has_point {
        digits_end(t, n, p + 1)
    } else {
        p
    };
    let digit_count: usize = if has_point {
        q - p - 1 + (p - s)
    } else {
        p - s
    };
    let f0: usize = if has_point {
        p + 1
    } else {
        p
    };
    if digit_count == 0 {
        proof {
            lemma_not_plain(tv, s as int, p as int, q as int);
            if is_exponent_numeral(tv) {
                let k = choose|k: int| exponent_split(tv, k);
                lemma_marker_position(tv, s as int, p as int, q as int, k);
            }
            reveal(number_text_of);
        }
        return t.to_owned();
    }
    if q == n {
        proof {
            lemma_plain_case(tv, s as int, p as int, has_point, f0 as int);
        }
        let int_digits = slice(t, s, p);
        let frac_digits = slice(t, f0, n);
        return canonical_text(negative, int_digits.as_str(), frac_digits.as_str());
    }
    // an exponent marker at q, an optional sign, then digits up to the end
    let marker = t.get_char(q);
    let x0 = q + 1;
    let xs: usize = if x0 < n && (t.get_char(x0) == '-' || t.get_char(x0) == '+') {
        x0 + 1
    } else {
        x0
    };
    let xe = if marker == 'e' || marker == 'E' {
        digits_end(t, n, xs)
    } else {
        xs
    };
    let value = if (marker == 'e' || marker == 'E') && xe == n && xe > xs {
        bounded_digits_value(t, xs, n)
    } else {
        None
    };
    let ghost x = tv.skip(x0 as int);
    proof {
        assert(sign_len(x) == xs - x0);
        assert(exponent_digits(x) =~= tv.subrange(xs as int, n as int));
    }
    let e: u64 = match value {
        Some(v) => v,
        None => {
            proof {
                lemma_not_plain(tv, s as int, p as int, q as int);
                if is_exponent_numeral(tv) {
                    let k = choose|k: int| exponent_split(tv, k);
                    lemma_marker_position(tv, s as int, p as int, q as int, k);
                    let xd = exponent_digits(tv.skip(k + 1));
                    if xe < n {
                        assert(xd[xe - xs] == tv[xe as int]);
                    }
                }
                reveal(number_text_of);
            }
            return t.to_owned();
        },
    };
    proof {
        lemma_exponent_case(tv, s as int, p as int, q as int, has_point, xs as int, e as int);
    }
    // the digits, and where the point falls among them
    let mut ds = slice(t, s, p);
    if has_point {
        push_range(&mut ds, t, p + 1, q);
    }
    proof {
        let m = tv.take(q as int);
        assert(ds@ =~= integer_digits(m) + fraction_digits(m));
    }
    let int_len = p - s;
    let exponent_negative = t.get_char(x0) == '-';
    proof {
        assert(is_negative(x) == exponent_negative);
        assert(is_negative(tv) == negative);
        lemma_exponent_value(tv, q as int);
    }
    shifted_text(negative, ds.as_str(), int_len, e, exponent_negative)
}

/// The canonical text of the number whose digits are `ds`, with the point
/// after the first `int_len` of them moved by `e` places (to the left when
/// `exponent_negative`).
fn shifted_text(negative: bool, ds: &str, int_len: usize, e: u64, exponent_negative: bool) -> (r:
    String)
    requires
        digits_only(ds@),
        int_len <= ds@.len(),
        e <= MAX_EXPONENT,
    ensures
        r@ == ({
            let parts = shifted_parts(
                ds@,
                int_len + (if exponent_negative {
                    -(e as int)
                } else {
                    e as int
                }),
            );
            canonical_decimal(negative, parts.0, parts.1)
        }),
{
    let ghost dsv = ds@;
    let ghost shift = int_len + (if exponent_negative {
        -(e as int)
    } else {
        e as int
    });
    let len = ds.unicode_len();
    let mut int_part = String::new();
    let mut frac_part = String::new();
    if exponent_negative && (e as usize) >= int_len {
        push_zeros(&mut frac_part, (e as usize) - int_len);
        frac_part.append(ds);
    } else if !exponent_negative && (e as usize) >= len - int_len {
        int_part.append(ds);
        push_zeros(&mut int_part, (e as usize) - (len - int_len));
    } else {
        let point: usize = if exponent_negative {
            int_len - (e as usize)
        } else {
            int_len + (e as usize)
        };
        push_range(&mut int_part, ds, 0, point);
        push_range(&mut frac_part, ds, point, len);
        proof {
            assert(dsv.subrange(0, point as int) =~= dsv.take(point as int));
            assert(dsv.subrange(point as int, len as int) =~= dsv.skip(point as int));
        }
    }
    proof {
        let parts = shifted_parts(dsv, shift);
        assert(int_part@ =~= parts.0);
        assert(frac_part@ =~= parts.1);
        lemma_shifted_digits(dsv, shift);
    }
    canonical_text(negative, int_part.as_str(), frac_part.as_str())
}

/// Appends the decimal digits of `n`.
fn push_nat_digits(out: &mut String, n: u64)
    ensures
        final(out)@ == old(out)@ + nat_digits(n as nat),
    decreases n,
{
    if n >= 10 {
        push_nat_digits(out, n / 10);
    }
    let d = n % 10;
    let c = if d == 0 {
        '0'
    } else if d == 1 {
        '1'
    } else if d == 2 {
        '2'
    } else if d == 3 {
        '3'
    } else if d == 4 {
        '4'
    } else if d == 5 {
        '5'
    } else if d == 6 {
        '6'
    } else if d == 7 {
        '7'
    } else if d == 8 {
        '8'
    } else {
        '9'
    };
    push_char(out, c);
    proof {
        if n < 10 {
            assert(n % 10 == n);
        }
    }
}

/// The decimal text of `i`, which is its canonical number text.
pub fn integer_text(i: i64) -> (r: String)
    ensures
        r@ == int_text(i as int),
{
    let mut out = String::new();
    if i < 0 {
        push_char(&mut out, '-');
        let m: u64 = ((-(i + 1)) as u64) + 1;
        push_nat_digits(&mut out, m);
    } else {
        push_nat_digits(&mut out, i as u64);
    }
    out
}

} // verus!
