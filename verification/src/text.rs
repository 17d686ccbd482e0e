//! Text handling shared by the modules: characters of a string, Unicode
//! white space, trimming, splitting into lines and decimal numerals.

use vstd::prelude::*;

verus! {

/// Calls `String::push`: appends one character.
#[verifier::external_body]
pub(crate) fn push_char(s: &mut String, c: char)
    ensures
        final(s)@ == old(s)@.push(c),
{
    s.push(c)
}

/// The characters of a text, in order.
pub(crate) fn to_chars(s: &str) -> (r: Vec<char>)
    ensures
        r@ == s@,
{
    broadcast use vstd::string::axiom_spec_iter;
    let mut r: Vec<char> = Vec::new();
    for c in it: s.chars()
        invariant
            it.seq() == s@,
            r@ == it.seq().take(it.index()),
    {
        r.push(c);
    }
    r
}

/// A string holding the characters `v[from..to]`.
pub(crate) fn string_of(v: &Vec<char>, from: usize, to: usize) -> (r: String)
    requires
        from <= to <= v@.len(),
    ensures
        r@ == v@.subrange(from as int, to as int),
{
    let mut s = String::new();
    let mut i = from;
    while i < to
        invariant
            from <= i <= to <= v@.len(),
            s@ == v@.subrange(from as int, i as int),
        decreases to - i,
    {
        push_char(&mut s, v[i]);
        assert(s@ =~= v@.subrange(from as int, i + 1));
        i = i + 1;
    }
    s
}

/// Characters with the Unicode `White_Space` property, which
/// `char::is_whitespace` tests.
pub open spec fn is_ws(c: char) -> bool {
    ||| '\u{9}' <= c <= '\u{d}'
    ||| c == ' '
    ||| c == '\u{85}'
    ||| c == '\u{a0}'
    ||| c == '\u{1680}'
    ||| '\u{2000}' <= c <= '\u{200a}'
    ||| c == '\u{2028}'
    ||| c == '\u{2029}'
    ||| c == '\u{202f}'
    ||| c == '\u{205f}'
    ||| c == '\u{3000}'
}

/// Test for white space.
pub fn is_whitespace(c: char) -> (r: bool)
    ensures
        r == is_ws(c),
{
    ('\u{9}' <= c && c <= '\u{d}') || c == ' ' || c == '\u{85}' || c == '\u{a0}' || c
        == '\u{1680}' || ('\u{2000}' <= c && c <= '\u{200a}') || c == '\u{2028}' || c
        == '\u{2029}' || c == '\u{202f}' || c == '\u{205f}' || c == '\u{3000}'
}

/// Number of leading white-space characters.
pub open spec fn lead_ws(s: Seq<char>) -> nat
    decreases s.len(),
{
    if s.len() > 0 && is_ws(s[0]) {
        1 + lead_ws(s.drop_first())
    } else {
        0
    }
}

/// Number of trailing white-space characters.
pub open spec fn trail_ws(s: Seq<char>) -> nat
    decreases s.len(),
{
    if s.len() > 0 && is_ws(s.last()) {
        1 + trail_ws(s.drop_last())
    } else {
        0
    }
}

/// The text without leading and trailing white space (`str::trim`).
pub open spec fn trim(s: Seq<char>) -> Seq<char> {
    let t = s.subrange(lead_ws(s) as int, s.len() as int);
    t.subrange(0, t.len() - trail_ws(t))
}

proof fn lemma_lead_ws_exact(s: Seq<char>, n: int)
    requires
        0 <= n <= s.len(),
        forall|i: int| 0 <= i < n ==> is_ws(#[trigger] s[i]),
        n < s.len() ==> !is_ws(s[n]),
    ensures
        lead_ws(s) == n,
    decreases s.len(),
{
    if n > 0 {
        assert(is_ws(s[0]));
        assert forall|i: int| 0 <= i < n - 1 implies is_ws(#[trigger] s.drop_first()[i]) by {
            assert(s.drop_first()[i] == s[i + 1]);
        }
        lemma_lead_ws_exact(s.drop_first(), n - 1);
    }
}

proof fn lemma_trail_ws_exact(s: Seq<char>, n: int)
    requires
        0 <= n <= s.len(),
        forall|i: int| s.len() - n <= i < s.len() ==> is_ws(#[trigger] s[i]),
        n < s.len() ==> !is_ws(s[s.len() - n - 1]),
    ensures
        trail_ws(s) == n,
    decreases s.len(),
{
    if n > 0 {
        assert(is_ws(s.last()));
        assert forall|i: int| s.len() - 1 - (n - 1) <= i < s.len() - 1 implies is_ws(
            #[trigger] s.drop_last()[i],
        ) by {
            assert(s.drop_last()[i] == s[i]);
        }
        lemma_trail_ws_exact(s.drop_last(), n - 1);
    }
}

/// Bounds of the trimmed part of `v[from..to]`.
pub(crate) fn trim_bounds(v: &Vec<char>, from: usize, to: usize) -> (r: (usize, usize))
    requires
        from <= to <= v@.len(),
    ensures
        from <= r.0 <= r.1 <= to,
        v@.subrange(r.0 as int, r.1 as int) == trim(v@.subrange(from as int, to as int)),
{
    let ghost s = v@.subrange(from as int, to as int);
    let mut a = from;
    while a < to && is_whitespace(v[a])
        invariant
            from <= a <= to <= v@.len(),
            forall|i: int| from <= i < a ==> is_ws(#[trigger] v@[i]),
        decreases to - a,
    {
        a = a + 1;
    }
    proof {
        assert forall|i: int| 0 <= i < a - from implies is_ws(#[trigger] s[i]) by {
            assert(s[i] == v@[from + i]);
        }
        if a < to {
            assert(s[a - from] == v@[a as int]);
        }
        lemma_lead_ws_exact(s, a - from);
    }
    let ghost t = s.subrange(a - from, s.len() as int);
    assert(t =~= v@.subrange(a as int, to as int));
    let mut b = to;
    while b > a && is_whitespace(v[b - 1])
        invariant
            from <= a <= b <= to <= v@.len(),
            forall|i: int| b <= i < to ==> is_ws(#[trigger] v@[i]),
        decreases b - a,
    {
        b = b - 1;
    }
    proof {
        assert forall|i: int| t.len() - (to - b) <= i < t.len() implies is_ws(#[trigger] t[i]) by {
            assert(t[i] == v@[a + i]);
        }
        if b > a {
            assert(t[t.len() - (to - b) - 1] == v@[b - 1]);
        }
        lemma_trail_ws_exact(t, to - b);
        assert(v@.subrange(a as int, b as int) =~= t.subrange(0, t.len() - trail_ws(t)));
    }
    (a, b)
}

/// The lines of a text, as `str::lines` gives them: split at each `\n`, a
/// `\r` just before the `\n` dropped, and no empty last line after a final
/// `\n`.
pub open spec fn lines_of(s: Seq<char>) -> Seq<Seq<char>>
    decreases s.len(),
{
    if s.len() == 0 {
        seq![]
    } else {
        let i = first_newline(s, 0);
        proof {
            lemma_first_newline(s, 0);
        }
        if i == s.len() {
            seq![s]
        } else {
            let raw = s.subrange(0, i);
            let line = if i > 0 && s[i - 1] == '\r' {
                s.subrange(0, i - 1)
            } else {
                raw
            };
            seq![line] + lines_of(s.subrange(i + 1, s.len() as int))
        }
    }
}

/// Index of the first `\n` at or after `from`, or the length.
pub open spec fn first_newline(s: Seq<char>, from: int) -> int
    decreases s.len() - from,
{
    if from < 0 || from >= s.len() {
        s.len() as int
    } else if s[from] == '\n' {
        from
    } else {
        first_newline(s, from + 1)
    }
}

pub proof fn lemma_first_newline(s: Seq<char>, from: int)
    requires
        0 <= from <= s.len(),
    ensures
        from <= first_newline(s, from) <= s.len(),
        forall|j: int| from <= j < first_newline(s, from) ==> #[trigger] s[j] != '\n',
        first_newline(s, from) < s.len() ==> s[first_newline(s, from)] == '\n',
    decreases s.len() - from,
{
    if from < s.len() && s[from] != '\n' {
        lemma_first_newline(s, from + 1);
    }
}

proof fn lemma_first_newline_shift(s: Seq<char>, start: int, from: int)
    requires
        0 <= start <= from <= s.len(),
    ensures
        first_newline(s.subrange(start, s.len() as int), from - start) == first_newline(s, from)
            - start,
    decreases s.len() - from,
{
    let t = s.subrange(start, s.len() as int);
    if from < s.len() {
        assert(t[from - start] == s[from]);
        if s[from] != '\n' {
            lemma_first_newline_shift(s, start, from + 1);
        }
    }
}

/// Split a text into lines, each given by its bounds in `v`.
pub(crate) fn line_bounds(v: &Vec<char>) -> (r: Vec<(usize, usize)>)
    ensures
        r@.len() == lines_of(v@).len(),
        forall|i: int|
            0 <= i < r@.len() ==> (#[trigger] r@[i]).0 <= r@[i].1 <= v@.len() && v@.subrange(
                r@[i].0 as int,
                r@[i].1 as int,
            ) == lines_of(v@)[i],
{
    let mut r: Vec<(usize, usize)> = Vec::new();
    let mut start: usize = 0;
    let n = v.len();
    assert(v@.subrange(0, n as int) =~= v@);
    assert(r@.map_values(|b: (usize, usize)| v@.subrange(b.0 as int, b.1 as int)) =~= Seq::<
        Seq<char>,
    >::empty());
    while start < n
        invariant
            0 <= start <= n == v@.len(),
            lines_of(v@) == r@.map_values(
                |b: (usize, usize)| v@.subrange(b.0 as int, b.1 as int),
            ) + lines_of(v@.subrange(start as int, n as int)),
            forall|i: int| 0 <= i < r@.len() ==> (#[trigger] r@[i]).0 <= r@[i].1 <= v@.len(),
        decreases n - start,
    {
        let ghost rest = v@.subrange(start as int, n as int);
        let mut i = start;
        while i < n && v[i] != '\n'
            invariant
                start <= i <= n == v@.len(),
                forall|j: int| start <= j < i ==> #[trigger] v@[j] != '\n',
            decreases n - i,
        {
            i = i + 1;
        }
        proof {
            lemma_first_newline(v@, start as int);
            lemma_first_newline_shift(v@, start as int, start as int);
            if i < n {
                assert(first_newline(v@, start as int) == i) by {
                    if first_newline(v@, start as int) < i {
                        assert(v@[first_newline(v@, start as int)] == '\n');
                    }
                }
            } else {
                assert(first_newline(v@, start as int) == n);
            }
            assert(first_newline(rest, 0) == i - start);
        }
        let ghost prev = r@;
        if i == n {
            r.push((start, n));
            proof {
                assert(lines_of(rest) == seq![rest]);
                assert(v@.subrange(n as int, n as int) =~= Seq::<char>::empty());
                assert(r@.map_values(|b: (usize, usize)| v@.subrange(b.0 as int, b.1 as int))
                    =~= prev.map_values(|b: (usize, usize)| v@.subrange(b.0 as int, b.1 as int))
                    + seq![rest]);
            }
            start = n;
        } else {
            let end = if i > start && v[i - 1] == '\r' {
                i - 1
            } else {
                i
            };
            r.push((start, end));
            proof {
                let line = if i - start > 0 && rest[i - start - 1] == '\r' {
                    rest.subrange(0, i - start - 1)
                } else {
                    rest.subrange(0, i - start)
                };
                if i > start {
                    assert(rest[i - start - 1] == v@[i - 1]);
                }
                assert(line =~= v@.subrange(start as int, end as int));
                assert(rest.subrange(i - start + 1, rest.len() as int) =~= v@.subrange(
                    i + 1,
                    n as int,
                ));
                assert(lines_of(rest) == seq![line] + lines_of(
                    rest.subrange(i - start + 1, rest.len() as int),
                ));
                assert(r@.map_values(|b: (usize, usize)| v@.subrange(b.0 as int, b.1 as int))
                    =~= prev.map_values(|b: (usize, usize)| v@.subrange(b.0 as int, b.1 as int))
                    + seq![line]);
            }
            start = i + 1;
        }
    }
    proof {
        assert(v@.subrange(n as int, n as int) =~= Seq::<char>::empty());
        assert(lines_of(v@) =~= r@.map_values(
            |b: (usize, usize)| v@.subrange(b.0 as int, b.1 as int),
        ));
        assert forall|i: int| 0 <= i < r@.len() implies v@.subrange(
            (#[trigger] r@[i]).0 as int,
            r@[i].1 as int,
        ) == lines_of(v@)[i] by {
            assert(lines_of(v@)[i] == r@.map_values(
                |b: (usize, usize)| v@.subrange(b.0 as int, b.1 as int),
            )[i]);
        }
    }
    r
}

/// The decimal digit of a value below 10.
pub open spec fn digit_char(d: nat) -> char {
    (d + 48) as char
}

/// Decimal numeral of a natural number, without leading zeros.
pub open spec fn decimal(n: nat) -> Seq<char>
    decreases n,
{
    if n < 10 {
        seq![digit_char(n)]
    } else {
        decimal(n / 10).push(digit_char(n % 10))
    }
}

/// The number a text of decimal digits reads as, most significant first.
pub open spec fn digits_value(s: Seq<char>) -> int
    decreases s.len(),
{
    if s.len() == 0 {
        0
    } else {
        digits_value(s.drop_last()) * 10 + ((s.last() as int) - ('0' as int))
    }
}

/// The decimal numeral of `n` is made of the digits `0`..`9` only, reads
/// as `n` in base 10, and has no leading zero (except the numeral of 0
/// itself, `0`).
pub proof fn lemma_decimal_reads_back(n: nat)
    ensures
        decimal(n).len() >= 1,
        forall|i: int| 0 <= i < decimal(n).len() ==> '0' <= #[trigger] decimal(n)[i] <= '9',
        digits_value(decimal(n)) == n,
        decimal(n)[0] == '0' ==> n == 0,
    decreases n,
{
    if n < 10 {
        assert(digit_char(n) as int == n + 48);
        assert(decimal(n).drop_last() =~= Seq::<char>::empty());
        assert(decimal(n).last() == digit_char(n));
        assert(('0' as int) == 48);
        assert(digits_value(decimal(n).drop_last()) == 0);
        assert(digits_value(decimal(n)) == n);
    } else {
        let q = n / 10;
        let d = n % 10;
        lemma_decimal_reads_back(q);
        let t = decimal(q).push(digit_char(d));
        assert(digit_char(d) as int == d + 48);
        assert(t.drop_last() =~= decimal(q));
        assert(t.last() == digit_char(d));
        assert(('0' as int) == 48);
        assert(digits_value(t) == digits_value(decimal(q)) * 10 + d);
        assert(forall|i: int| 0 <= i < decimal(q).len() ==> t[i] == decimal(q)[i]);
        assert(q * 10 + d == n) by (nonlinear_arith)
            requires
                q == n / 10,
                d == n % 10,
        ;
        assert(q >= 1) by (nonlinear_arith)
            requires
                q == n / 10,
                n >= 10,
        ;
    }
}

/// Append the decimal numeral of `n`.
pub(crate) fn push_decimal(s: &mut String, n: u64)
    ensures
        final(s)@ == old(s)@ + decimal(n as nat),
    decreases n,
{
    if n < 10 {
        push_char(s, ((n as u8) + 48) as char);
        assert(decimal(n as nat) =~= seq![digit_char(n as nat)]);
    } else {
        push_decimal(s, n / 10);
        push_char(s, (((n % 10) as u8) + 48) as char);
    }
}

} // verus!
