use vstd::prelude::*;

verus! {

// The syntax of the decimal numbers that the standard library's number
// parser accepts: an optional sign, then `inf`, `infinity` or `nan` in any
// letter case, or digits with an optional decimal point and an optional
// exponent (`e` or `E`, an optional sign, digits).

pub open spec fn is_digit(c: char) -> bool {
    '0' <= c && c <= '9'
}

pub open spec fn all_digits(s: Seq<char>) -> bool {
    forall|i: int| 0 <= i < s.len() ==> #[trigger] is_digit(s[i])
}

pub open spec fn is_sign(c: char) -> bool {
    c == '+' || c == '-'
}

pub open spec fn is_exponent_marker(c: char) -> bool {
    c == 'e' || c == 'E'
}

/// Digits, with at most one decimal point, and at least one digit.
pub open spec fn is_mantissa(s: Seq<char>) -> bool {
    ||| (s.len() > 0 && all_digits(s))
    ||| exists|p: int|
        0 <= p < s.len() && s.len() > 1 && #[trigger] s[p] == '.' && all_digits(s.take(p))
            && all_digits(s.skip(p + 1))
}

/// Digits after an optional sign, at least one digit.
pub open spec fn is_exponent(s: Seq<char>) -> bool {
    ||| (s.len() > 0 && all_digits(s))
    ||| (s.len() > 1 && is_sign(s[0]) && all_digits(s.skip(1)))
}

/// A mantissa, optionally followed by an exponent marker and an exponent.
pub open spec fn is_decimal(s: Seq<char>) -> bool {
    ||| is_mantissa(s)
    ||| exists|q: int|
        0 <= q < s.len() && #[trigger] is_exponent_marker(s[q]) && is_mantissa(s.take(q))
            && is_exponent(s.skip(q + 1))
}

/// The upper-case form of the lower-case letters that the special words use.
pub open spec fn ascii_upper(c: char) -> char {
    if c == 'a' {
        'A'
    } else if c == 'f' {
        'F'
    } else if c == 'i' {
        'I'
    } else if c == 'n' {
        'N'
    } else if c == 't' {
        'T'
    } else if c == 'y' {
        'Y'
    } else {
        c
    }
}

/// Whether `s` spells the lower-case word `w`, each letter in either case.
pub open spec fn matches_word(s: Seq<char>, w: Seq<char>) -> bool {
    s.len() == w.len() && forall|i: int| 0 <= i < s.len() ==> (#[trigger] s[i] == w[i] || s[i] == ascii_upper(w[i]))
}

pub open spec fn is_unsigned_number(s: Seq<char>) -> bool {
    ||| matches_word(s, seq!['i', 'n', 'f'])
    ||| matches_word(s, seq!['i', 'n', 'f', 'i', 'n', 'i', 't', 'y'])
    ||| matches_word(s, seq!['n', 'a', 'n'])
    ||| is_decimal(s)
}

/// Whether `s` is the text of a number: an optional sign, then an unsigned number.
pub open spec fn is_number_literal(s: Seq<char>) -> bool {
    if s.len() > 0 && is_sign(s[0]) {
        is_unsigned_number(s.skip(1))
    } else {
        is_unsigned_number(s)
    }
}

fn char_is_digit(c: char) -> (res: bool)
    ensures
        res == is_digit(c),
{
    '0' <= c && c <= '9'
}

fn upper_of(c: char) -> (res: char)
    ensures
        res == ascii_upper(c),
{
    if c == 'a' {
        'A'
    } else if c == 'f' {
        'F'
    } else if c == 'i' {
        'I'
    } else if c == 'n' {
        'N'
    } else if c == 't' {
        'T'
    } else if c == 'y' {
        'Y'
    } else {
        c
    }
}

fn digits_between(v: &Vec<char>, a: usize, b: usize) -> (res: bool)
    requires
        a <= b <= v@.len(),
    ensures
        res == all_digits(v@.subrange(a as int, b as int)),
{
    let mut i = a;
    while i < b
        invariant
            a <= i <= b <= v@.len(),
            forall|j: int| a <= j < i ==> is_digit(v@[j]),
        decreases b - i,
    {
        if !char_is_digit(v[i]) {
            assert(v@.subrange(a as int, b as int)[i - a] == v@[i as int]);
            return false;
        }
        i = i + 1;
    }
    assert forall|j: int| 0 <= j < b - a implies #[trigger] is_digit(v@.subrange(a as int, b as int)[j]) by {
        assert(v@.subrange(a as int, b as int)[j] == v@[a + j]);
    }
    true
}

/// The first index in `a .. b` whose character is a decimal point.
fn find_point(v: &Vec<char>, a: usize, b: usize) -> (res: Option<usize>)
    requires
        a <= b <= v@.len(),
    ensures
        res matches Some(p) ==> a <= p < b && v@[p as int] == '.' && forall|j: int| a <= j < p ==> v@[j] != '.',
        res is None ==> forall|j: int| a <= j < b ==> v@[j] != '.',
{
    let mut i = a;
    while i < b
        invariant
            a <= i <= b <= v@.len(),
            forall|j: int| a <= j < i ==> v@[j] != '.',
        decreases b - i,
    {
        if v[i] == '.' {
            return Some(i);
        }
        i = i + 1;
    }
    None
}

/// The first index in `a .. b` whose character is an exponent marker.
fn find_exponent_marker(v: &Vec<char>, a: usize, b: usize) -> (res: Option<usize>)
    requires
        a <= b <= v@.len(),
    ensures
        res matches Some(q) ==> a <= q < b && is_exponent_marker(v@[q as int]) && forall|j: int|
            a <= j < q ==> !is_exponent_marker(v@[j]),
        res is None ==> forall|j: int| a <= j < b ==> !is_exponent_marker(v@[j]),
{
    let mut i = a;
    while i < b
        invariant
            a <= i <= b <= v@.len(),
            forall|j: int| a <= j < i ==> !is_exponent_marker(v@[j]),
        decreases b - i,
    {
        if v[i] == 'e' || v[i] == 'E' {
            return Some(i);
        }
        i = i + 1;
    }
    None
}

fn mantissa_between(v: &Vec<char>, a: usize, b: usize) -> (res: bool)
    requires
        a <= b <= v@.len(),
    ensures
        res == is_mantissa(v@.subrange(a as int, b as int)),
{
    let ghost s = v@.subrange(a as int, b as int);
    match find_point(v, a, b) {
        None => {
            assert forall|p: int| 0 <= p < s.len() implies #[trigger] s[p] != '.' by {
                assert(s[p] == v@[a + p]);
            }
            b > a && digits_between(v, a, b)
        },
        Some(p) => {
            let ghost pp = p - a;
            assert(s[pp] == '.');
            assert(!is_digit(s[pp]));
            assert(s.take(pp) =~= v@.subrange(a as int, p as int));
            assert(s.skip(pp + 1) =~= v@.subrange(p + 1, b as int));
            let r = b - a > 1 && digits_between(v, a, p) && digits_between(v, p + 1, b);
            if !r {
                assert forall|p2: int|
                    0 <= p2 < s.len() && s.len() > 1 && #[trigger] s[p2] == '.' implies !(all_digits(
                        s.take(p2),
                    ) && all_digits(s.skip(p2 + 1))) by {
                    if p2 < pp {
                        assert(s[p2] == v@[a + p2]);
                    } else if p2 > pp {
                        assert(s.take(p2)[pp] == '.');
                        assert(!is_digit(s.take(p2)[pp]));
                    }
                }
            }
            r
        },
    }
}

fn exponent_between(v: &Vec<char>, a: usize, b: usize) -> (res: bool)
    requires
        a <= b <= v@.len(),
    ensures
        res == is_exponent(v@.subrange(a as int, b as int)),
{
    let ghost s = v@.subrange(a as int, b as int);
    if b == a {
        return false;
    }
    if v[a] == '+' || v[a] == '-' {
        assert(s[0] == v@[a as int]);
        assert(!is_digit(s[0]));
        assert(s.skip(1) =~= v@.subrange(a + 1, b as int));
        b - a > 1 && digits_between(v, a + 1, b)
    } else {
        assert(s[0] == v@[a as int]);
        digits_between(v, a, b)
    }
}

fn decimal_between(v: &Vec<char>, a: usize, b: usize) -> (res: bool)
    requires
        a <= b <= v@.len(),
    ensures
        res == is_decimal(v@.subrange(a as int, b as int)),
{
    let ghost s = v@.subrange(a as int, b as int);
    match find_exponent_marker(v, a, b) {
        None => {
            assert forall|q: int| 0 <= q < s.len() implies !#[trigger] is_exponent_marker(s[q]) by {
                assert(s[q] == v@[a + q]);
            }
            mantissa_between(v, a, b)
        },
        Some(q) => {
            let ghost qq = q - a;
            assert(s[qq] == v@[q as int]);
            assert(s.take(qq) =~= v@.subrange(a as int, q as int));
            assert(s.skip(qq + 1) =~= v@.subrange(q + 1, b as int));
            // a mantissa holds no exponent marker
            assert(!is_mantissa(s)) by {
                assert(!is_digit(s[qq]));
                assert forall|p: int|
                    0 <= p < s.len() && s.len() > 1 && #[trigger] s[p] == '.' implies !(all_digits(
                        s.take(p),
                    ) && all_digits(s.skip(p + 1))) by {
                    if p < qq {
                        assert(s.skip(p + 1)[qq - p - 1] == s[qq]);
                        assert(!is_digit(s.skip(p + 1)[qq - p - 1]));
                    } else {
                        assert(s.take(p)[qq] == s[qq]);
                        assert(!is_digit(s.take(p)[qq]));
                    }
                }
            }
            let r = mantissa_between(v, a, q) && exponent_between(v, q + 1, b);
            if !r {
                assert forall|q2: int|
                    0 <= q2 < s.len() && #[trigger] is_exponent_marker(s[q2]) implies !(is_mantissa(
                        s.take(q2),
                    ) && is_exponent(s.skip(q2 + 1))) by {
                    if q2 < qq {
                        assert(s[q2] == v@[a + q2]);
                    } else if q2 > qq {
                        let m = s.take(q2);
                        assert(m[qq] == s[qq]);
                        assert(!is_digit(m[qq]));
                        assert forall|p: int|
                            0 <= p < m.len() && m.len() > 1 && #[trigger] m[p] == '.' implies !(
                            all_digits(m.take(p)) && all_digits(m.skip(p + 1))) by {
                            if p < qq {
                                assert(m.skip(p + 1)[qq - p - 1] == m[qq]);
                                assert(!is_digit(m.skip(p + 1)[qq - p - 1]));
                            } else {
                                assert(m.take(p)[qq] == m[qq]);
                                assert(!is_digit(m.take(p)[qq]));
                            }
                        }
                    }
                }
            }
            r
        },
    }
}

fn word_between(v: &Vec<char>, a: usize, b: usize, w: &Vec<char>) -> (res: bool)
    requires
        a <= b <= v@.len(),
    ensures
        res == matches_word(v@.subrange(a as int, b as int), w@),
{
    let ghost s = v@.subrange(a as int, b as int);
    if b - a != w.len() {
        return false;
    }
    let mut i: usize = 0;
    while i < w.len()
        invariant
            a <= b <= v@.len(),
            b - a == w@.len(),
            s == v@.subrange(a as int, b as int),
            i <= w@.len(),
            forall|j: int| 0 <= j < i ==> (#[trigger] s[j] == w@[j] || s[j] == ascii_upper(w@[j])),
        decreases w@.len() - i,
    {
        let c = v[a + i];
        assert(s[i as int] == c);
        if c != w[i] && c != upper_of(w[i]) {
            return false;
        }
        i = i + 1;
    }
    true
}

fn unsigned_number_between(v: &Vec<char>, a: usize, b: usize) -> (res: bool)
    requires
        a <= b <= v@.len(),
    ensures
        res == is_unsigned_number(v@.subrange(a as int, b as int)),
{
    let inf = vec!['i', 'n', 'f'];
    let infinity = vec!['i', 'n', 'f', 'i', 'n', 'i', 't', 'y'];
    let nan = vec!['n', 'a', 'n'];
    assert(inf@ =~= seq!['i', 'n', 'f']);
    assert(infinity@ =~= seq!['i', 'n', 'f', 'i', 'n', 'i', 't', 'y']);
    assert(nan@ =~= seq!['n', 'a', 'n']);
    word_between(v, a, b, &inf) || word_between(v, a, b, &infinity) || word_between(v, a, b, &nan)
        || decimal_between(v, a, b)
}

/// Whether `token` is the text of a number (see `is_number_literal`).
pub fn is_number(token: &str) -> (res: bool)
    ensures
        res == is_number_literal(token@),
{
    let n = token.unicode_len();
    let mut v: Vec<char> = Vec::new();
    let mut i: usize = 0;
    while i < n
        invariant
            n == token@.len(),
            i <= n,
            v@ == token@.take(i as int),
        decreases n - i,
    {
        v.push(token.get_char(i));
        i = i + 1;
        assert(v@ =~= token@.take(i as int));
    }
    assert(v@ =~= token@);
    assert(v@.subrange(0, n as int) =~= v@);
    if n > 0 && (v[0] == '+' || v[0] == '-') {
        assert(v@.subrange(1, n as int) =~= v@.skip(1));
        unsigned_number_between(&v, 1, n)
    } else {
        unsigned_number_between(&v, 0, n)
    }
}

/// A text whose first character is not a digit, a decimal point, a sign, nor
/// the first letter of `inf`, `infinity` or `nan` is not a number.
pub proof fn lemma_not_number(s: Seq<char>)
    requires
        s.len() > 0,
        !is_digit(s[0]),
        s[0] != '.',
        !is_sign(s[0]),
        s[0] != 'i' && s[0] != 'I' && s[0] != 'n' && s[0] != 'N',
    ensures
        !is_number_literal(s),
{
    assert(!matches_word(s, seq!['i', 'n', 'f'])) by {
        if s.len() == 3 {
            assert(seq!['i', 'n', 'f'][0] == 'i');
        }
    }
    assert(!matches_word(s, seq!['i', 'n', 'f', 'i', 'n', 'i', 't', 'y'])) by {
        if s.len() == 8 {
            assert(seq!['i', 'n', 'f', 'i', 'n', 'i', 't', 'y'][0] == 'i');
        }
    }
    assert(!matches_word(s, seq!['n', 'a', 'n'])) by {
        if s.len() == 3 {
            assert(seq!['n', 'a', 'n'][0] == 'n');
        }
    }
    lemma_not_mantissa(s);
    assert forall|q: int| 0 <= q < s.len() && #[trigger] is_exponent_marker(s[q]) implies !(is_mantissa(s.take(q))
        && is_exponent(s.skip(q + 1))) by {
        if q > 0 {
            assert(s.take(q)[0] == s[0]);
            lemma_not_mantissa(s.take(q));
        }
    }
}

proof fn lemma_not_mantissa(s: Seq<char>)
    requires
        s.len() > 0,
        !is_digit(s[0]),
        s[0] != '.',
    ensures
        !is_mantissa(s),
{
    assert forall|p: int| 0 <= p < s.len() && s.len() > 1 && #[trigger] s[p] == '.' implies !(all_digits(s.take(p))
        && all_digits(s.skip(p + 1))) by {
        if p > 0 {
            assert(s.take(p)[0] == s[0]);
        }
    }
}

/// Digits, with or without one decimal point between them, and with or
/// without a sign before them, are a number.
pub proof fn lemma_decimal_numbers(d1: Seq<char>, d2: Seq<char>, sign: Seq<char>)
    requires
        d1.len() > 0,
        all_digits(d1),
        all_digits(d2),
        sign.len() == 0 || (sign.len() == 1 && is_sign(sign[0])),
    ensures
        is_number_literal(sign + d1),
        is_number_literal(sign + d1 + seq!['.'] + d2),
{
    let a = d1;
    let b = d1 + seq!['.'] + d2;
    assert(is_mantissa(a));
    assert(b[d1.len() as int] == '.');
    assert(b.take(d1.len() as int) =~= d1);
    assert(b.skip((d1.len() + 1) as int) =~= d2);
    assert(is_mantissa(b));
    assert(is_decimal(a) && is_decimal(b));
    assert(is_unsigned_number(a) && is_unsigned_number(b));
    assert(is_digit(d1[0]));
    assert(!is_sign(d1[0]));
    if sign.len() == 1 {
        assert((sign + a).skip(1) =~= a);
        assert((sign + a)[0] == sign[0]);
        assert((sign + d1 + seq!['.'] + d2).skip(1) =~= b);
        assert((sign + d1 + seq!['.'] + d2)[0] == sign[0]);
    } else {
        assert(sign + a =~= a);
        assert(sign + d1 + seq!['.'] + d2 =~= b);
        assert(a[0] == d1[0]);
        assert(b[0] == d1[0]);
    }
}
} // verus!
