//! Character-level text handling: the whitespace, trimming, splitting and line
//! conventions of Rust's `str`, stated over `Seq<char>` and implemented over a
//! `Vec<char>` by index ranges.
use vstd::prelude::*;

verus! {

/// Unicode `White_Space`, the property that `str::trim` and
/// `str::split_whitespace` use.
pub open spec fn is_white_space(c: char) -> bool {
    let u = c as u32;
    ||| 0x9 <= u <= 0xd
    ||| u == 0x20
    ||| u == 0x85
    ||| u == 0xa0
    ||| u == 0x1680
    ||| 0x2000 <= u <= 0x200a
    ||| u == 0x2028
    ||| u == 0x2029
    ||| u == 0x202f
    ||| u == 0x205f
    ||| u == 0x3000
}

/// Exec test of [`is_white_space`].
pub fn white_space(c: char) -> (b: bool)
    ensures
        b == is_white_space(c),
{
    let u = c as u32;
    (0x9 <= u && u <= 0xd) || u == 0x20 || u == 0x85 || u == 0xa0 || u == 0x1680 || (0x2000
        <= u && u <= 0x200a) || u == 0x2028 || u == 0x2029 || u == 0x202f || u == 0x205f || u
        == 0x3000
}

/// `s` with its leading white space removed.
pub open spec fn trim_start(s: Seq<char>) -> Seq<char>
    decreases s.len(),
{
    if s.len() > 0 && is_white_space(s[0]) {
        trim_start(s.drop_first())
    } else {
        s
    }
}

/// `s` with its trailing white space removed.
pub open spec fn trim_end(s: Seq<char>) -> Seq<char>
    decreases s.len(),
{
    if s.len() > 0 && is_white_space(s.last()) {
        trim_end(s.drop_last())
    } else {
        s
    }
}

/// What `str::trim` gives back.
pub open spec fn trim(s: Seq<char>) -> Seq<char> {
    trim_end(trim_start(s))
}

/// Index of the first `c` in `s`, or `-1` when `s` holds none.
pub open spec fn first_index(s: Seq<char>, c: char) -> int
    decreases s.len(),
{
    if s.len() == 0 {
        -1
    } else if s[0] == c {
        0
    } else {
        let r = first_index(s.drop_first(), c);
        if r < 0 {
            -1
        } else {
            r + 1
        }
    }
}

pub proof fn lemma_first_index(s: Seq<char>, c: char)
    ensures
        -1 <= first_index(s, c) < s.len(),
        first_index(s, c) == -1 <==> (forall|j: int| 0 <= j < s.len() ==> s[j] != c),
        first_index(s, c) >= 0 ==> s[first_index(s, c)] == c,
        forall|j: int| 0 <= j < first_index(s, c) ==> s[j] != c,
    decreases s.len(),
{
    if s.len() > 0 && s[0] != c {
        lemma_first_index(s.drop_first(), c);
        assert forall|j: int|
            0 <= j < s.len() && (first_index(s, c) == -1 || j < first_index(s, c)) implies s[j]
            != c by {
            if j > 0 {
                assert(s[j] == s.drop_first()[j - 1]);
            }
        }
    }
}

/// The part of `s` before its first `c`; all of `s` when it holds none
/// (what `s.split(c).next()` gives).
pub open spec fn before_first(s: Seq<char>, c: char) -> Seq<char> {
    let i = first_index(s, c);
    if i < 0 {
        s
    } else {
        s.take(i)
    }
}

/// The parts of `s` before and after its first `c`, if it holds one.
pub open spec fn split_once(s: Seq<char>, c: char) -> Option<(Seq<char>, Seq<char>)> {
    let i = first_index(s, c);
    if i < 0 {
        None
    } else {
        Some((s.take(i), s.skip(i + 1)))
    }
}

/// `s` without one trailing `'\r'`.
pub open spec fn strip_cr(s: Seq<char>) -> Seq<char> {
    if s.len() > 0 && s.last() == '\r' {
        s.drop_last()
    } else {
        s
    }
}

/// What `str::lines` gives back: the pieces between `'\n'`, without a last
/// empty piece after a final `'\n'`, each `'\n'`-terminated piece without one
/// trailing `'\r'`.
pub open spec fn lines(s: Seq<char>) -> Seq<Seq<char>>
    decreases s.len(),
{
    if s.len() == 0 {
        seq![]
    } else {
        let i = first_index(s, '\n');
        if i < 0 {
            seq![s]
        } else {
            proof {
                lemma_first_index(s, '\n');
            }
            seq![strip_cr(s.take(i))] + lines(s.skip(i + 1))
        }
    }
}

/// What is left of a line once its comment is cut off and it is trimmed.
pub open spec fn effective_line(raw: Seq<char>) -> Seq<char> {
    trim(before_first(raw, '#'))
}

/// White space at the end does not change what `trim` gives.
pub proof fn lemma_trim_drop_white_last(s: Seq<char>)
    requires
        s.len() > 0,
        is_white_space(s.last()),
    ensures
        trim(s) == trim(s.drop_last()),
    decreases s.len(),
{
    if s.len() == 1 {
        assert(s.drop_first().len() == 0);
        assert(trim_start(s) == trim_start(s.drop_first()));
        assert(s.drop_last().len() == 0);
    } else if is_white_space(s[0]) {
        lemma_trim_drop_white_last(s.drop_first());
        assert(s.drop_last().drop_first() =~= s.drop_first().drop_last());
        assert(s.drop_last()[0] == s[0]);
    } else {
        assert(s.drop_last()[0] == s[0]);
    }
}

/// Where the first `c` of a concatenation stands.
pub proof fn lemma_first_index_concat(p: Seq<char>, q: Seq<char>, c: char)
    ensures
        first_index(p + q, c) == if first_index(p, c) >= 0 {
            first_index(p, c)
        } else if first_index(q, c) >= 0 {
            p.len() + first_index(q, c)
        } else {
            -1
        },
{
    lemma_first_index(p, c);
    lemma_first_index(q, c);
    lemma_first_index(p + q, c);
    let f = first_index(p + q, c);
    let fp = first_index(p, c);
    let fq = first_index(q, c);
    if fp >= 0 {
        assert((p + q)[fp] == p[fp]);
        if f >= 0 && f < fp {
            assert((p + q)[f] == p[f]);
        }
    } else if fq >= 0 {
        assert((p + q)[p.len() + fq] == q[fq]);
        if f >= 0 && f < p.len() {
            assert((p + q)[f] == p[f]);
        } else if f >= 0 && f < p.len() + fq {
            assert((p + q)[f] == q[f - p.len()]);
        }
    } else {
        assert forall|j: int| 0 <= j < (p + q).len() implies (p + q)[j] != c by {
            if j < p.len() {
                assert((p + q)[j] == p[j]);
            } else {
                assert((p + q)[j] == q[j - p.len()]);
            }
        }
    }
}

/// A comment `#m` put after `a`, before `b`.
pub open spec fn with_comment(a: Seq<char>, m: Seq<char>, b: Seq<char>) -> Seq<char> {
    a + seq!['#'] + m + b
}

/// What stands before the first `#` does not change when a comment follows.
proof fn lemma_before_first_comment(a: Seq<char>, m: Seq<char>)
    ensures
        before_first(a + seq!['#'] + m, '#') == before_first(a, '#'),
{
    let q = seq!['#'] + m;
    assert(a + seq!['#'] + m =~= a + q);
    lemma_first_index_concat(a, q, '#');
    lemma_first_index(a, '#');
    assert(first_index(q, '#') == 0);
    if first_index(a, '#') < 0 {
        assert((a + q).take(a.len() as int) =~= a);
    } else {
        assert((a + q).take(first_index(a, '#')) =~= a.take(first_index(a, '#')));
    }
}

/// The line `a` (holding no line break) says the same whether or not a
/// carriage return or a comment follows it.
proof fn lemma_effective_strip_cr(a: Seq<char>, m: Seq<char>)
    requires
        forall|j: int| 0 <= j < a.len() ==> a[j] != '\n',
    ensures
        effective_line(strip_cr(a + seq!['#'] + m)) == effective_line(a),
        effective_line(strip_cr(a)) == effective_line(a),
{
    let c = a + seq!['#'] + m;
    if m.len() > 0 && m.last() == '\r' {
        assert(c.drop_last() =~= a + seq!['#'] + m.drop_last());
        lemma_before_first_comment(a, m.drop_last());
    } else {
        if m.len() == 0 {
            assert(c.last() == '#');
        } else {
            assert(c.last() == m.last());
        }
        lemma_before_first_comment(a, m);
    }
    if a.len() > 0 && a.last() == '\r' {
        lemma_first_index(a, '#');
        lemma_first_index(a.drop_last(), '#');
        let f = first_index(a, '#');
        if f >= 0 {
            assert(f < a.len() - 1);
            assert(a.drop_last()[f] == a[f]);
            let g = first_index(a.drop_last(), '#');
            if g >= 0 && g < f {
                assert(a.drop_last()[g] == a[g]);
            }
            assert(g == f);
            assert(a.drop_last().take(f) =~= a.take(f));
        } else {
            assert forall|j: int| 0 <= j < a.drop_last().len() implies a.drop_last()[j] != '#' by {
                assert(a.drop_last()[j] == a[j]);
            }
            assert(is_white_space(a.last()));
            lemma_trim_drop_white_last(a);
        }
    }
}

/// Putting a comment `#m` (without a line break) at the end of a line keeps
/// the number of lines and what each line says.
pub proof fn lemma_lines_with_comment(a: Seq<char>, m: Seq<char>, b: Seq<char>)
    requires
        forall|j: int| 0 <= j < m.len() ==> m[j] != '\n',
        (b.len() > 0 && b[0] == '\n') || (b.len() == 0 && a.len() > 0 && a.last() != '\n'),
    ensures
        lines(with_comment(a, m, b)).len() == lines(a + b).len(),
        forall|i: int|
            0 <= i < lines(a + b).len() ==> effective_line(
                #[trigger] lines(with_comment(a, m, b))[i],
            ) == effective_line(lines(a + b)[i]),
    decreases a.len(),
{
    let x = with_comment(a, m, b);
    let y = a + b;
    let r = seq!['#'] + m + b;
    assert(x =~= a + r);
    lemma_first_index_concat(a, r, '\n');
    lemma_first_index_concat(a, b, '\n');
    lemma_first_index(a, '\n');
    let i = first_index(a, '\n');
    if i >= 0 {
        let a2 = a.skip(i + 1);
        assert(x.take(i) =~= a.take(i));
        assert(y.take(i) =~= a.take(i));
        assert(x.skip(i + 1) =~= with_comment(a2, m, b));
        assert(y.skip(i + 1) =~= a2 + b);
        if b.len() == 0 {
            assert(a[i] == '\n');
            assert(i < a.len() - 1);
            assert(a2.last() == a.last());
        }
        lemma_lines_with_comment(a2, m, b);
        assert(lines(x) == seq![strip_cr(a.take(i))] + lines(with_comment(a2, m, b)));
        assert(lines(y) == seq![strip_cr(a.take(i))] + lines(a2 + b));
        assert forall|k: int| 0 <= k < lines(y).len() implies effective_line(
            #[trigger] lines(x)[k],
        ) == effective_line(lines(y)[k]) by {
            if k > 0 {
                assert(lines(x)[k] == lines(with_comment(a2, m, b))[k - 1]);
                assert(lines(y)[k] == lines(a2 + b)[k - 1]);
            }
        }
    } else {
        let pre = a + seq!['#'] + m;
        assert(x =~= pre + b);
        lemma_first_index_concat(a, seq!['#'] + m, '\n');
        lemma_first_index(seq!['#'] + m, '\n');
        assert forall|j: int| 0 <= j < (seq!['#'] + m).len() implies (seq!['#'] + m)[j] != '\n' by {
            if j > 0 {
                assert((seq!['#'] + m)[j] == m[j - 1]);
            }
        }
        assert(pre =~= a + (seq!['#'] + m));
        lemma_first_index_concat(pre, b, '\n');
        lemma_effective_strip_cr(a, m);
        if b.len() == 0 {
            assert(x =~= pre);
            assert(y =~= a);
            lemma_before_first_comment(a, m);
            assert(lines(x) == seq![x]);
            assert(lines(y) == seq![y]);
        } else {
            lemma_first_index(b, '\n');
            assert(first_index(b, '\n') == 0);
            assert(x.take(pre.len() as int) =~= pre);
            assert(y.take(a.len() as int) =~= a);
            assert(x.skip(pre.len() + 1int) =~= b.skip(1));
            assert(y.skip(a.len() + 1int) =~= b.skip(1));
            assert(lines(x) == seq![strip_cr(pre)] + lines(b.skip(1)));
            assert(lines(y) == seq![strip_cr(a)] + lines(b.skip(1)));
            assert forall|k: int| 0 <= k < lines(y).len() implies effective_line(
                #[trigger] lines(x)[k],
            ) == effective_line(lines(y)[k]) by {
                if k > 0 {
                    assert(lines(x)[k] == lines(b.skip(1))[k - 1]);
                    assert(lines(y)[k] == lines(b.skip(1))[k - 1]);
                }
            }
        }
    }
}

/// Number of leading characters of `s` that are not white space.
pub open spec fn word_len(s: Seq<char>) -> nat
    decreases s.len(),
{
    if s.len() == 0 || is_white_space(s[0]) {
        0
    } else {
        1 + word_len(s.drop_first())
    }
}

pub proof fn lemma_word_len(s: Seq<char>)
    ensures
        word_len(s) <= s.len(),
        forall|j: int| 0 <= j < word_len(s) ==> !is_white_space(s[j]),
        word_len(s) < s.len() ==> is_white_space(s[word_len(s) as int]),
    decreases s.len(),
{
    if s.len() > 0 && !is_white_space(s[0]) {
        lemma_word_len(s.drop_first());
        assert forall|j: int| 0 <= j < word_len(s) implies !is_white_space(s[j]) by {
            if j > 0 {
                assert(s[j] == s.drop_first()[j - 1]);
            }
        }
    }
}

/// What `str::split_whitespace` gives back: the maximal runs of characters
/// that are not white space, in order.
pub open spec fn words(s: Seq<char>) -> Seq<Seq<char>>
    decreases s.len(),
{
    if s.len() == 0 {
        seq![]
    } else if is_white_space(s[0]) {
        words(s.drop_first())
    } else {
        proof {
            lemma_word_len(s);
        }
        seq![s.take(word_len(s) as int)] + words(s.skip(word_len(s) as int))
    }
}

/// `s` starts with `p`.
pub open spec fn has_prefix(s: Seq<char>, p: Seq<char>) -> bool {
    p.len() <= s.len() && s.take(p.len() as int) == p
}

/// The characters of a `&str`, in order.
pub fn str_chars(s: &str) -> (v: Vec<char>)
    ensures
        v@ == s@,
{
    let mut v: Vec<char> = Vec::new();
    for c in it: s.chars()
        invariant
            it.seq() == s@,
            v@ == s@.take(it.index() as int),
    {
        v.push(c);
    }
    v
}

/// Bounds of `s[lo..hi]` with its leading and trailing white space removed.
pub fn trim_range(s: &Vec<char>, lo: usize, hi: usize) -> (r: (usize, usize))
    requires
        lo <= hi <= s.len(),
    ensures
        lo <= r.0 <= r.1 <= hi,
        s@.subrange(r.0 as int, r.1 as int) == trim(s@.subrange(lo as int, hi as int)),
{
    let mut i = lo;
    while i < hi && white_space(s[i])
        invariant
            lo <= i <= hi <= s.len(),
            trim_start(s@.subrange(lo as int, hi as int)) == trim_start(
                s@.subrange(i as int, hi as int),
            ),
        decreases hi - i,
    {
        assert(s@.subrange(i as int, hi as int).drop_first() =~= s@.subrange(
            i + 1,
            hi as int,
        ));
        i = i + 1;
    }
    let mut j = hi;
    while j > i && white_space(s[j - 1])
        invariant
            lo <= i <= j <= hi <= s.len(),
            trim_end(s@.subrange(i as int, hi as int)) == trim_end(
                s@.subrange(i as int, j as int),
            ),
        decreases j - i,
    {
        assert(s@.subrange(i as int, j as int).drop_last() =~= s@.subrange(
            i as int,
            j - 1,
        ));
        j = j - 1;
    }
    (i, j)
}

/// Position of the first `c` in `s[lo..hi]`, or `hi` when there is none.
pub fn find_char(s: &Vec<char>, lo: usize, hi: usize, c: char) -> (r: usize)
    requires
        lo <= hi <= s.len(),
    ensures
        lo <= r <= hi,
        r < hi ==> first_index(s@.subrange(lo as int, hi as int), c) == r - lo,
        r == hi ==> first_index(s@.subrange(lo as int, hi as int), c) == -1,
{
    let mut i = lo;
    while i < hi && s[i] != c
        invariant
            lo <= i <= hi <= s.len(),
            forall|j: int| lo <= j < i ==> s@[j] != c,
        decreases hi - i,
    {
        i = i + 1;
    }
    proof {
        let t = s@.subrange(lo as int, hi as int);
        lemma_first_index(t, c);
        let f = first_index(t, c);
        if i < hi {
            assert(t[i - lo] == c);
            if f < i - lo {
                assert(t[f] == s@[lo + f]);
            }
        } else {
            assert forall|j: int| 0 <= j < t.len() implies t[j] != c by {
                assert(t[j] == s@[lo + j]);
            }
        }
    }
    i
}

/// `s[lo..hi]` starts with `p`.
pub fn starts_with_at(s: &Vec<char>, lo: usize, hi: usize, p: &[char]) -> (b: bool)
    requires
        lo <= hi <= s.len(),
    ensures
        b == has_prefix(s@.subrange(lo as int, hi as int), p@),
{
    if p.len() > hi - lo {
        return false;
    }
    let mut k: usize = 0;
    while k < p.len()
        invariant
            k <= p.len() <= hi - lo,
            lo <= hi <= s.len(),
            forall|j: int| 0 <= j < k ==> s@[lo + j] == p@[j],
        decreases p.len() - k,
    {
        if s[lo + k] != p[k] {
            proof {
                let t = s@.subrange(lo as int, hi as int);
                assert(t.take(p@.len() as int)[k as int] != p@[k as int]);
            }
            return false;
        }
        k = k + 1;
    }
    assert(s@.subrange(lo as int, hi as int).take(p@.len() as int) =~= p@);
    true
}

/// Bounds of the words of `s[lo..hi]` (what `split_whitespace` yields), in order.
pub fn word_ranges(s: &Vec<char>, lo: usize, hi: usize) -> (r: Vec<(usize, usize)>)
    requires
        lo <= hi <= s.len(),
    ensures
        r@.len() == words(s@.subrange(lo as int, hi as int)).len(),
        forall|k: int|
            0 <= k < r@.len() ==> lo <= #[trigger] r@[k].0 <= r@[k].1 <= hi && s@.subrange(
                r@[k].0 as int,
                r@[k].1 as int,
            ) == words(s@.subrange(lo as int, hi as int))[k],
{
    let mut r: Vec<(usize, usize)> = Vec::new();
    let ghost got: Seq<Seq<char>> = seq![];
    let mut i = lo;
    while i < hi
        invariant
            lo <= i <= hi <= s.len(),
            r@.len() == got.len(),
            forall|k: int|
                0 <= k < r@.len() ==> lo <= #[trigger] r@[k].0 <= r@[k].1 <= hi && s@.subrange(
                    r@[k].0 as int,
                    r@[k].1 as int,
                ) == got[k],
            words(s@.subrange(lo as int, hi as int)) == got + words(
                s@.subrange(i as int, hi as int),
            ),
        decreases hi - i,
    {
        let ghost rest = s@.subrange(i as int, hi as int);
        if white_space(s[i]) {
            assert(rest.drop_first() =~= s@.subrange(i + 1, hi as int));
            i = i + 1;
        } else {
            let mut j = i + 1;
            proof {
                assert(rest.drop_first() =~= s@.subrange(i + 1, hi as int));
            }
            while j < hi && !white_space(s[j])
                invariant
                    i < j <= hi <= s.len(),
                    word_len(rest) == (j - i) + word_len(s@.subrange(j as int, hi as int)),
                    rest == s@.subrange(i as int, hi as int),
                decreases hi - j,
            {
                assert(s@.subrange(j as int, hi as int).drop_first() =~= s@.subrange(
                    j + 1,
                    hi as int,
                ));
                j = j + 1;
            }
            proof {
                assert(word_len(s@.subrange(j as int, hi as int)) == 0);
                assert(rest.take(j - i) =~= s@.subrange(i as int, j as int));
                assert(rest.skip(j - i) =~= s@.subrange(j as int, hi as int));
                let w = s@.subrange(i as int, j as int);
                assert(got + (seq![w] + words(s@.subrange(j as int, hi as int))) =~= got.push(w)
                    + words(s@.subrange(j as int, hi as int)));
                got = got.push(w);
            }
            r.push((i, j));
            i = j;
        }
    }
    assert(words(s@.subrange(i as int, hi as int)) =~= seq![]);
    assert(got + seq![] =~= got);
    r
}

/// Bounds of the first line of `s[i..n]` and the position after it:
/// `lines(s[i..n]) == [s[lo..hi]] + lines(s[next..n])`.
pub fn next_line(s: &Vec<char>, i: usize) -> (r: (usize, usize, usize))
    requires
        i < s.len(),
    ensures
        i == r.0 <= r.1 <= r.2 <= s.len(),
        i < r.2,
        lines(s@.subrange(i as int, s.len() as int)) == seq![
            s@.subrange(r.0 as int, r.1 as int),
        ] + lines(s@.subrange(r.2 as int, s.len() as int)),
{
    let n = s.len();
    let j = find_char(s, i, n, '\n');
    let ghost t = s@.subrange(i as int, n as int);
    if j == n {
        assert(lines(s@.subrange(n as int, n as int)) =~= seq![]);
        assert(seq![t] + seq![] =~= seq![t]);
        (i, n, n)
    } else {
        assert(t.take(j - i) =~= s@.subrange(i as int, j as int));
        assert(t.skip(j - i + 1) =~= s@.subrange(j + 1, n as int));
        if j > i && s[j - 1] == '\r' {
            assert(s@.subrange(i as int, j as int).drop_last() =~= s@.subrange(i as int, j - 1));
            (i, j - 1, j + 1)
        } else {
            (i, j, j + 1)
        }
    }
}

/// The decimal digit `d` (for `d < 10`).
pub open spec fn digit_char(d: nat) -> char {
    seq!['0', '1', '2', '3', '4', '5', '6', '7', '8', '9'][d as int]
}

/// Decimal notation of `n`, without leading zeros.
pub open spec fn decimal(n: nat) -> Seq<char>
    decreases n,
{
    if n < 10 {
        seq![digit_char(n)]
    } else {
        decimal(n / 10).push(digit_char(n % 10))
    }
}

/// Appends the decimal notation of `n` to `s`.
pub fn push_decimal(s: &mut String, n: usize)
    ensures
        final(s)@ == old(s)@ + decimal(n as nat),
    decreases n,
{
    let digits = ['0', '1', '2', '3', '4', '5', '6', '7', '8', '9'];
    if n >= 10 {
        push_decimal(s, n / 10);
    }
    let ghost mid = s@;
    s.push(digits[n % 10]);
    assert(digits@ == seq!['0', '1', '2', '3', '4', '5', '6', '7', '8', '9']);
    if n >= 10 {
        assert(decimal(n as nat) == decimal((n / 10) as nat).push(digit_char((n % 10) as nat)));
    }
    assert(old(s)@ + decimal(n as nat) =~= mid.push(digit_char((n % 10) as nat)));
}

/// `String::push` appends one character.
pub assume_specification[ String::push ](s: &mut String, ch: char)
    ensures
        final(s)@ == old(s)@.push(ch),
;

/// A new `String` holding `s[lo..hi]`.
pub fn string_of(s: &Vec<char>, lo: usize, hi: usize) -> (r: String)
    requires
        lo <= hi <= s.len(),
    ensures
        r@ == s@.subrange(lo as int, hi as int),
{
    let mut r = String::new();
    let mut i = lo;
    while i < hi
        invariant
            lo <= i <= hi <= s.len(),
            r@ == s@.subrange(lo as int, i as int),
        decreases hi - i,
    {
        r.push(s[i]);
        assert(s@.subrange(lo as int, i + 1) =~= s@.subrange(lo as int, i as int).push(s@[i as int]));
        i = i + 1;
    }
    r
}

} // verus!
