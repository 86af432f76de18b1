//! Recognition of the decimal floating-point literals that `f64::from_str`
//! accepts, as its documentation gives their grammar (letters in any case):
//!
//! ```text
//! Float  ::= Sign? ( 'inf' | 'infinity' | 'nan' | Number )
//! Number ::= ( Digit+ | Digit+ '.' Digit* | Digit* '.' Digit+ ) Exp?
//! Exp    ::= 'e' Sign? Digit+
//! Sign   ::= [+-]
//! Digit  ::= [0-9]
//! ```
use vstd::prelude::*;

verus! {

pub open spec fn is_digit(c: char) -> bool {
    0x30 <= (c as u32) <= 0x39
}

pub open spec fn is_sign(c: char) -> bool {
    c == '+' || c == '-'
}

/// `c` is the lowercase ASCII letter `w`, in either case.
pub open spec fn letter_matches(c: char, w: char) -> bool {
    c == w || (0x41 <= (c as u32) <= 0x5a && (c as u32) + 32 == (w as u32))
}

/// `s` spells the lowercase word `w`, ignoring ASCII case.
pub open spec fn word_matches(s: Seq<char>, w: Seq<char>) -> bool {
    s.len() == w.len() && forall|i: int| 0 <= i < s.len() ==> letter_matches(s[i], w[i])
}

/// Number of leading decimal digits of `s`.
pub open spec fn digit_run(s: Seq<char>) -> nat
    decreases s.len(),
{
    if s.len() > 0 && is_digit(s[0]) {
        1 + digit_run(s.drop_first())
    } else {
        0
    }
}

pub proof fn lemma_digit_run(s: Seq<char>)
    ensures
        digit_run(s) <= s.len(),
        forall|j: int| 0 <= j < digit_run(s) ==> is_digit(s[j]),
        digit_run(s) < s.len() ==> !is_digit(s[digit_run(s) as int]),
    decreases s.len(),
{
    if s.len() > 0 && is_digit(s[0]) {
        lemma_digit_run(s.drop_first());
        assert forall|j: int| 0 <= j < digit_run(s) implies is_digit(s[j]) by {
            if j > 0 {
                assert(s[j] == s.drop_first()[j - 1]);
            }
        }
    }
}

/// `Exp ::= 'e' Sign? Digit+`
pub open spec fn is_exponent(s: Seq<char>) -> bool {
    s.len() >= 1 && letter_matches(s[0], 'e') && {
        let t = s.drop_first();
        let u = if t.len() > 0 && is_sign(t[0]) {
            t.drop_first()
        } else {
            t
        };
        u.len() >= 1 && digit_run(u) == u.len()
    }
}

/// `Number ::= ( Digit+ | Digit+ '.' Digit* | Digit* '.' Digit+ ) Exp?`
pub open spec fn is_number(s: Seq<char>) -> bool {
    let d1 = digit_run(s);
    let r1 = s.skip(d1 as int);
    if r1.len() > 0 && r1[0] == '.' {
        let r2 = r1.drop_first();
        let d2 = digit_run(r2);
        let r3 = r2.skip(d2 as int);
        d1 + d2 >= 1 && (r3.len() == 0 || is_exponent(r3))
    } else {
        d1 >= 1 && (r1.len() == 0 || is_exponent(r1))
    }
}

/// `Float ::= Sign? ( 'inf' | 'infinity' | 'nan' | Number )`
pub open spec fn is_float_literal(s: Seq<char>) -> bool {
    let b = if s.len() > 0 && is_sign(s[0]) {
        s.drop_first()
    } else {
        s
    };
    ||| word_matches(b, seq!['i', 'n', 'f'])
    ||| word_matches(b, seq!['i', 'n', 'f', 'i', 'n', 'i', 't', 'y'])
    ||| word_matches(b, seq!['n', 'a', 'n'])
    ||| is_number(b)
}

/// Every character of `s` is a decimal digit.
pub open spec fn all_digits(s: Seq<char>) -> bool {
    forall|i: int| 0 <= i < s.len() ==> is_digit(s[i])
}

/// `Digit+ | Digit+ '.' Digit* | Digit* '.' Digit+`, stated by where the
/// point stands.
pub open spec fn is_mantissa_form(m: Seq<char>) -> bool {
    ||| m.len() >= 1 && all_digits(m)
    ||| exists|i: int|
        0 <= i < m.len() && m.len() >= 2 && #[trigger] m[i] == '.' && all_digits(m.take(i))
            && all_digits(m.skip(i + 1))
}

/// `'e' Sign? Digit+`, either case of `e`.
pub open spec fn is_exponent_form(e: Seq<char>) -> bool {
    &&& e.len() >= 2
    &&& letter_matches(e[0], 'e')
    &&& (all_digits(e.skip(1)) || (e.len() >= 3 && is_sign(e[1]) && all_digits(e.skip(2))))
}

/// `Number ::= Mantissa Exp?`, stated by where the exponent starts.
pub open spec fn is_number_form(b: Seq<char>) -> bool {
    ||| is_mantissa_form(b)
    ||| exists|k: int|
        0 < k < b.len() && is_mantissa_form(#[trigger] b.take(k)) && is_exponent_form(b.skip(k))
}

/// `Float ::= Sign? ( 'inf' | 'infinity' | 'nan' | Number )`, stated by
/// whether a sign is there.
pub open spec fn is_float_form(s: Seq<char>) -> bool {
    exists|b: Seq<char>|
        (b == s || (s.len() > 0 && is_sign(s[0]) && b == s.drop_first())) && {
            ||| word_matches(b, seq!['i', 'n', 'f'])
            ||| word_matches(b, seq!['i', 'n', 'f', 'i', 'n', 'i', 't', 'y'])
            ||| word_matches(b, seq!['n', 'a', 'n'])
            ||| is_number_form(b)
        }
}

/// The run of leading digits ends exactly where the digits stop.
proof fn lemma_digit_run_exact(s: Seq<char>, i: int)
    requires
        0 <= i <= s.len(),
        forall|j: int| 0 <= j < i ==> is_digit(s[j]),
        i == s.len() || !is_digit(s[i]),
    ensures
        digit_run(s) == i,
{
    lemma_digit_run(s);
    let d = digit_run(s) as int;
    if d < i {
        assert(is_digit(s[d]));
    } else if d > i {
        assert(is_digit(s[i]));
    }
}

proof fn lemma_exponent_form(e: Seq<char>)
    ensures
        is_exponent(e) <==> is_exponent_form(e),
{
    if e.len() >= 1 {
        let t = e.drop_first();
        assert(t =~= e.skip(1));
        if t.len() > 0 && is_sign(t[0]) {
            let u = t.drop_first();
            assert(u =~= e.skip(2));
            lemma_digit_run(u);
            if all_digits(u) {
                lemma_digit_run_exact(u, u.len() as int);
            }
        } else {
            lemma_digit_run(t);
            if all_digits(t) {
                lemma_digit_run_exact(t, t.len() as int);
            }
            if e.len() >= 3 && is_sign(e[1]) {
                assert(t[0] == e[1]);
            }
        }
    }
}

/// The recogniser of numbers accepts exactly the words of the grammar
/// `( Digit+ | Digit+ '.' Digit* | Digit* '.' Digit+ ) Exp?`.
pub proof fn lemma_number_grammar(b: Seq<char>)
    ensures
        is_number(b) <==> is_number_form(b),
{
    lemma_digit_run(b);
    let d1 = digit_run(b) as int;
    let r1 = b.skip(d1);
    assert forall|j: int| 0 <= j < d1 implies is_digit(b.take(d1)[j]) by {}
    if r1.len() > 0 && r1[0] == '.' {
        let r2 = r1.drop_first();
        assert(r2 =~= b.skip(d1 + 1));
        lemma_digit_run(r2);
        let d2 = digit_run(r2) as int;
        let r3 = r2.skip(d2);
        assert(r3 =~= b.skip(d1 + 1 + d2));
        assert(b[d1] == '.');
        if is_number(b) {
            let k = d1 + 1 + d2;
            assert(b.take(k).take(d1) =~= b.take(d1));
            assert(b.take(k).skip(d1 + 1) =~= r2.take(d2));
            assert(all_digits(r2.take(d2)));
            assert(b.take(k)[d1] == '.');
            assert(is_mantissa_form(b.take(k)));
            if r3.len() == 0 {
                assert(b.take(k) =~= b);
            } else {
                lemma_exponent_form(r3);
                assert(is_number_form(b));
            }
        }
        if is_number_form(b) {
            lemma_number_form_point(b, d1);
        }
    } else {
        if is_number(b) {
            if r1.len() == 0 {
                assert(b.take(d1) =~= b);
                assert(is_mantissa_form(b));
            } else {
                lemma_exponent_form(r1);
                assert(b.take(d1).len() >= 1 && all_digits(b.take(d1)));
                assert(is_mantissa_form(b.take(d1)));
            }
        }
        if is_number_form(b) {
            lemma_number_form_no_point(b, d1);
        }
    }
}

/// A word of the grammar whose leading digits are followed by a point.
proof fn lemma_number_form_point(b: Seq<char>, d1: int)
    requires
        is_number_form(b),
        d1 == digit_run(b),
        d1 < b.len(),
        b[d1] == '.',
    ensures
        is_number(b),
{
    lemma_digit_run(b);
    let r2 = b.skip(d1 + 1);
    assert(b.skip(d1).drop_first() =~= r2);
    lemma_digit_run(r2);
    let d2 = digit_run(r2) as int;
    assert(r2.skip(d2) =~= b.skip(d1 + 1 + d2));
    // Where the point stands in a mantissa.
    if is_mantissa_form(b) {
        if all_digits(b) {
            assert(is_digit(b[d1]));
        }
        let i = choose|i: int|
            0 <= i < b.len() && b.len() >= 2 && #[trigger] b[i] == '.' && all_digits(b.take(i))
                && all_digits(b.skip(i + 1));
        if i < d1 {
            assert(is_digit(b[i]));
        } else if i > d1 {
            assert(b.take(i)[d1] == b[d1]);
        }
        assert forall|j: int| 0 <= j < r2.len() implies is_digit(r2[j]) by {
            assert(r2[j] == b.skip(i + 1)[j]);
        }
        lemma_digit_run_exact(r2, r2.len() as int);
        assert(b.skip(d1 + 1 + d2).len() == 0);
    } else {
        let k = choose|k: int|
            0 < k < b.len() && is_mantissa_form(#[trigger] b.take(k)) && is_exponent_form(
                b.skip(k),
            );
        let m = b.take(k);
        let e = b.skip(k);
        assert(!is_digit(e[0]) && e[0] != '.');
        if d1 >= k {
            assert(is_digit(b[k]));
            assert(b[k] == e[0]);
        }
        assert(m[d1] == '.');
        if all_digits(m) {
            assert(is_digit(m[d1]));
        }
        let i = choose|i: int|
            0 <= i < m.len() && m.len() >= 2 && #[trigger] m[i] == '.' && all_digits(m.take(i))
                && all_digits(m.skip(i + 1));
        if i < d1 {
            assert(m.take(d1 + 1)[i] == m[i]);
            assert(is_digit(b[i]));
        } else if i > d1 {
            assert(m.take(i)[d1] == m[d1]);
        }
        assert forall|j: int| 0 <= j < k - d1 - 1 implies is_digit(r2[j]) by {
            assert(r2[j] == m.skip(i + 1)[j]);
        }
        assert(r2[k - d1 - 1] == e[0]);
        lemma_digit_run_exact(r2, k - d1 - 1);
        assert(b.skip(d1 + 1 + d2) =~= e);
        lemma_exponent_form(e);
    }
}

/// A word of the grammar whose leading digits are not followed by a point.
proof fn lemma_number_form_no_point(b: Seq<char>, d1: int)
    requires
        is_number_form(b),
        d1 == digit_run(b),
        !(d1 < b.len() && b[d1] == '.'),
    ensures
        is_number(b),
{
    lemma_digit_run(b);
    let r1 = b.skip(d1);
    if is_mantissa_form(b) {
        if !all_digits(b) {
            let i = choose|i: int|
                0 <= i < b.len() && b.len() >= 2 && #[trigger] b[i] == '.' && all_digits(
                    b.take(i),
                ) && all_digits(b.skip(i + 1));
            assert forall|j: int| 0 <= j < i implies is_digit(b[j]) by {
                assert(b[j] == b.take(i)[j]);
            }
            lemma_digit_run_exact(b, i);
            assert(false);
        }
        lemma_digit_run_exact(b, b.len() as int);
    } else {
        let k = choose|k: int|
            0 < k < b.len() && is_mantissa_form(#[trigger] b.take(k)) && is_exponent_form(
                b.skip(k),
            );
        let m = b.take(k);
        let e = b.skip(k);
        assert(b[k] == e[0]);
        assert(!is_digit(e[0]) && e[0] != '.');
        if !all_digits(m) {
            let i = choose|i: int|
                0 <= i < m.len() && m.len() >= 2 && #[trigger] m[i] == '.' && all_digits(
                    m.take(i),
                ) && all_digits(m.skip(i + 1));
            assert forall|j: int| 0 <= j < i implies is_digit(b[j]) by {
                assert(b[j] == m.take(i)[j]);
            }
            assert(b[i] == m[i]);
            lemma_digit_run_exact(b, i);
            assert(false);
        }
        assert forall|j: int| 0 <= j < k implies is_digit(b[j]) by {
            assert(b[j] == m[j]);
        }
        lemma_digit_run_exact(b, k);
        lemma_exponent_form(e);
        assert(r1 =~= e);
    }
}

/// The literals recognised are exactly those of `f64::from_str`'s grammar
/// (letters in either case): an optional sign, then `inf`, `infinity`, `nan`
/// or a number `( Digit+ | Digit+ '.' Digit* | Digit* '.' Digit+ ) Exp?`.
pub proof fn lemma_float_grammar(s: Seq<char>)
    ensures
        is_float_literal(s) <==> is_float_form(s),
{
    let b0 = if s.len() > 0 && is_sign(s[0]) {
        s.drop_first()
    } else {
        s
    };
    lemma_number_grammar(b0);
    if is_float_form(s) {
        let b = choose|b: Seq<char>|
            (b == s || (s.len() > 0 && is_sign(s[0]) && b == s.drop_first())) && {
                ||| word_matches(b, seq!['i', 'n', 'f'])
                ||| word_matches(b, seq!['i', 'n', 'f', 'i', 'n', 'i', 't', 'y'])
                ||| word_matches(b, seq!['n', 'a', 'n'])
                ||| is_number_form(b)
            };
        lemma_number_grammar(b);
        if b != b0 {
            // `b` is `s` itself though `s` starts with a sign: no word of the
            // grammar starts with a sign.
            assert(b == s && s.len() > 0 && is_sign(s[0]));
            assert(!letter_matches(s[0], 'i') && !letter_matches(s[0], 'n'));
            if is_number_form(b) {
                lemma_digit_run(b);
                if is_number(b) {
                    assert(digit_run(b) == 0);
                }
            }
        }
    }
}

fn digit(c: char) -> (b: bool)
    ensures
        b == is_digit(c),
{
    let u = c as u32;
    0x30 <= u && u <= 0x39
}

fn letter(c: char, w: char) -> (b: bool)
    ensures
        b == letter_matches(c, w),
{
    let u = c as u32;
    c == w || (0x41 <= u && u <= 0x5a && u + 32 == w as u32)
}

/// End of the run of digits that starts `s[lo..hi]`.
fn digits_end(s: &Vec<char>, lo: usize, hi: usize) -> (r: usize)
    requires
        lo <= hi <= s.len(),
    ensures
        lo <= r <= hi,
        r - lo == digit_run(s@.subrange(lo as int, hi as int)),
{
    let mut i = lo;
    while i < hi && digit(s[i])
        invariant
            lo <= i <= hi <= s.len(),
            digit_run(s@.subrange(lo as int, hi as int)) == (i - lo) + digit_run(
                s@.subrange(i as int, hi as int),
            ),
        decreases hi - i,
    {
        assert(s@.subrange(i as int, hi as int).drop_first() =~= s@.subrange(i + 1, hi as int));
        i = i + 1;
    }
    i
}

/// `s[lo..hi]` spells the lowercase word `w`, ignoring ASCII case.
fn word_at(s: &Vec<char>, lo: usize, hi: usize, w: &[char]) -> (b: bool)
    requires
        lo <= hi <= s.len(),
    ensures
        b == word_matches(s@.subrange(lo as int, hi as int), w@),
{
    if hi - lo != w.len() {
        return false;
    }
    let mut k: usize = 0;
    while k < w.len()
        invariant
            k <= w.len() == hi - lo,
            lo <= hi <= s.len(),
            forall|j: int| 0 <= j < k ==> letter_matches(s@[lo + j], w@[j]),
        decreases w.len() - k,
    {
        if !letter(s[lo + k], w[k]) {
            assert(s@.subrange(lo as int, hi as int)[k as int] == s@[lo + k]);
            return false;
        }
        k = k + 1;
    }
    proof {
        let t = s@.subrange(lo as int, hi as int);
        assert forall|i: int| 0 <= i < t.len() implies letter_matches(t[i], w@[i]) by {
            assert(t[i] == s@[lo + i]);
        }
    }
    true
}

fn exponent_at(s: &Vec<char>, lo: usize, hi: usize) -> (b: bool)
    requires
        lo <= hi <= s.len(),
    ensures
        b == is_exponent(s@.subrange(lo as int, hi as int)),
{
    let ghost t = s@.subrange(lo as int, hi as int);
    if lo == hi || !letter(s[lo], 'e') {
        return false;
    }
    let mut i = lo + 1;
    assert(t.drop_first() =~= s@.subrange(i as int, hi as int));
    if i < hi && (s[i] == '+' || s[i] == '-') {
        assert(s@.subrange(i as int, hi as int).drop_first() =~= s@.subrange(i + 1, hi as int));
        i = i + 1;
    }
    let e = digits_end(s, i, hi);
    i < hi && e == hi
}

/// `s[lo..hi]` is a literal that `f64::from_str` accepts.
pub fn float_literal_at(s: &Vec<char>, lo: usize, hi: usize) -> (b: bool)
    requires
        lo <= hi <= s.len(),
    ensures
        b == is_float_literal(s@.subrange(lo as int, hi as int)),
        b == is_float_form(s@.subrange(lo as int, hi as int)),
{
    let ghost t = s@.subrange(lo as int, hi as int);
    proof {
        lemma_float_grammar(t);
    }
    let mut i = lo;
    if i < hi && (s[i] == '+' || s[i] == '-') {
        assert(t.drop_first() =~= s@.subrange(i + 1, hi as int));
        i = i + 1;
    }
    let ghost b = s@.subrange(i as int, hi as int);
    assert(b == (if t.len() > 0 && is_sign(t[0]) {
        t.drop_first()
    } else {
        t
    }));
    if word_at(s, i, hi, &['i', 'n', 'f']) || word_at(s, i, hi, &['i', 'n', 'f', 'i', 'n', 'i', 't', 'y'])
        || word_at(s, i, hi, &['n', 'a', 'n']) {
        return true;
    }
    assert(!word_matches(b, seq!['i', 'n', 'f']));
    assert(!word_matches(b, seq!['i', 'n', 'f', 'i', 'n', 'i', 't', 'y']));
    assert(!word_matches(b, seq!['n', 'a', 'n']));
    let d1 = digits_end(s, i, hi);
    assert(b.skip(d1 - i) =~= s@.subrange(d1 as int, hi as int));
    if d1 < hi && s[d1] == '.' {
        assert(s@.subrange(d1 as int, hi as int).drop_first() =~= s@.subrange(d1 + 1, hi as int));
        let d2 = digits_end(s, d1 + 1, hi);
        assert(s@.subrange(d1 + 1, hi as int).skip(d2 - d1 - 1) =~= s@.subrange(
            d2 as int,
            hi as int,
        ));
        (d1 > i || d2 > d1 + 1) && (d2 == hi || exponent_at(s, d2, hi))
    } else {
        d1 > i && (d1 == hi || exponent_at(s, d1, hi))
    }
}

} // verus!
