//! Small verified helpers on strings: appending a character, decimal
//! rendering and parsing.

use vstd::prelude::*;

verus! {

/// Relies on std's `String::push`: appends the given `char` to the end of
/// the string.
#[verifier::external_body]
pub fn push_char(s: &mut String, c: char)
    ensures
        final(s)@ == old(s)@ + seq![c],
{
    s.push(c);
}

/// The character that stands for one decimal digit.
pub open spec fn dec_digit_char(n: int) -> char {
    if n == 0 {
        '0'
    } else if n == 1 {
        '1'
    } else if n == 2 {
        '2'
    } else if n == 3 {
        '3'
    } else if n == 4 {
        '4'
    } else if n == 5 {
        '5'
    } else if n == 6 {
        '6'
    } else if n == 7 {
        '7'
    } else if n == 8 {
        '8'
    } else {
        '9'
    }
}

/// The usual decimal rendering of a natural number: no leading zeros,
/// except that zero itself is "0".
pub open spec fn dec_chars_of(n: nat) -> Seq<char>
    decreases n,
{
    if n < 10 {
        seq![dec_digit_char(n as int)]
    } else {
        dec_chars_of(n / 10) + seq![dec_digit_char((n % 10) as int)]
    }
}

fn dec_digit(n: u64) -> (c: char)
    requires
        n < 10,
    ensures
        c == dec_digit_char(n as int),
{
    match n {
        0 => '0',
        1 => '1',
        2 => '2',
        3 => '3',
        4 => '4',
        5 => '5',
        6 => '6',
        7 => '7',
        8 => '8',
        _ => '9',
    }
}

/// Renders `n` in decimal.
pub fn dec_string_of(n: u64) -> (r: String)
    ensures
        r@ == dec_chars_of(n as nat),
{
    let mut digits: Vec<char> = Vec::new();
    let mut rest: u64 = n;
    loop
        invariant_except_break
            dec_chars_of(n as nat) == dec_chars_of(rest as nat) + digits@,
        ensures
            dec_chars_of(n as nat) == digits@,
        decreases rest,
    {
        let ghost r0 = rest as nat;
        let ghost d0 = digits@;
        let d = rest % 10;
        let c = dec_digit(d);
        digits.insert(0, c);
        rest = rest / 10;
        proof {
            assert(digits@ =~= seq![c] + d0);
            if r0 < 10 {
                assert(dec_chars_of(r0) == seq![dec_digit_char(r0 as int)]);
            } else {
                assert(dec_chars_of(r0) == dec_chars_of(r0 / 10) + seq![
                    dec_digit_char((r0 % 10) as int),
                ]);
                assert(dec_chars_of(r0 / 10) + (seq![c] + d0) =~= (dec_chars_of(r0 / 10) + seq![c])
                    + d0);
            }
        }
        if rest == 0 {
            break;
        }
    }
    let mut out = String::new();
    let mut i: usize = 0;
    while i < digits.len()
        invariant
            0 <= i <= digits.len(),
            out@ == digits@.subrange(0, i as int),
            dec_chars_of(n as nat) == digits@,
        decreases digits.len() - i,
    {
        push_char(&mut out, digits[i]);
        proof {
            assert(digits@.subrange(0, (i + 1) as int) =~= digits@.subrange(0, i as int) + seq![
                digits@[i as int],
            ]);
        }
        i = i + 1;
    }
    proof {
        assert(digits@.subrange(0, digits@.len() as int) =~= digits@);
    }
    out
}

/// True of a decimal digit character.
pub open spec fn is_dec_digit(c: char) -> bool {
    '0' <= c && c <= '9'
}

/// The value of one decimal digit character.
pub open spec fn dec_val(c: char) -> int {
    c as int - '0' as int
}

/// The value of a digit string read in base ten.
pub open spec fn dec_value_of(s: Seq<char>) -> int
    decreases s.len(),
{
    if s.len() == 0 {
        0
    } else {
        dec_value_of(s.drop_last()) * 10 + dec_val(s.last())
    }
}

/// True when the whole string is decimal digits, at least one.
pub open spec fn all_dec_digits(s: Seq<char>) -> bool {
    s.len() > 0 && forall|i: int| 0 <= i < s.len() ==> is_dec_digit(s[i])
}

proof fn lemma_dec_value_nonneg(s: Seq<char>)
    requires
        forall|i: int| 0 <= i < s.len() ==> is_dec_digit(s[i]),
    ensures
        dec_value_of(s) >= 0,
    decreases s.len(),
{
    if s.len() > 0 {
        lemma_dec_value_nonneg(s.drop_last());
        let p = dec_value_of(s.drop_last());
        assert(p * 10 >= 0) by (nonlinear_arith)
            requires
                p >= 0,
        ;
    }
}

/// A digit string's value never shrinks as digits are appended: the value
/// of the whole string is at least the value of any non-empty prefix.
proof fn lemma_dec_value_grows(s: Seq<char>, k: int)
    requires
        0 < k <= s.len(),
        forall|i: int| 0 <= i < s.len() ==> is_dec_digit(s[i]),
    ensures
        dec_value_of(s) >= dec_value_of(s.subrange(0, k)),
    decreases s.len() - k,
{
    if k < s.len() {
        lemma_dec_value_grows(s, k + 1);
        let a = s.subrange(0, k);
        let b = s.subrange(0, k + 1);
        assert(b.drop_last() =~= a);
        assert(forall|i: int| 0 <= i < a.len() ==> is_dec_digit(a[i]));
        lemma_dec_value_nonneg(a);
        assert(dec_value_of(b) == dec_value_of(a) * 10 + dec_val(b.last()));
        assert(dec_value_of(a) * 10 >= dec_value_of(a)) by (nonlinear_arith)
            requires
                dec_value_of(a) >= 0,
        ;
        assert(dec_val(b.last()) >= 0);
    } else {
        assert(s.subrange(0, k) =~= s);
    }
}

/// The views of a list of strings.
pub open spec fn views_of(vs: Seq<String>) -> Seq<Seq<char>> {
    vs.map_values(|x: String| x@)
}

/// The whitespace that command input is trimmed of.
pub open spec fn is_ws(c: char) -> bool {
    c == ' ' || c == '\t' || c == '\r' || c == '\n'
}

/// The position of the first non-whitespace character at or after `p`,
/// or the length when none remains.
pub open spec fn first_non_ws(s: Seq<char>, p: int) -> int
    recommends
        0 <= p <= s.len(),
    decreases s.len() - p,
{
    if p < 0 || p >= s.len() {
        s.len() as int
    } else if !is_ws(s[p]) {
        p
    } else {
        first_non_ws(s, p + 1)
    }
}

/// The position after the last non-whitespace character at or before
/// position `q - 1`, or zero when none remains.
pub open spec fn last_non_ws(s: Seq<char>, q: int) -> int
    recommends
        0 <= q <= s.len(),
    decreases q,
{
    if q <= 0 {
        0
    } else if !is_ws(s[q - 1]) {
        q
    } else {
        last_non_ws(s, q - 1)
    }
}

/// What trimming returns: the text between the first and the last
/// non-whitespace character.
pub open spec fn trim_ws_spec(s: Seq<char>) -> Seq<char> {
    let a = first_non_ws(s, 0);
    let b = last_non_ws(s, s.len() as int);
    if a < b {
        s.subrange(a, b)
    } else {
        Seq::<char>::empty()
    }
}

fn is_ws_exec(c: char) -> (r: bool)
    ensures
        r == is_ws(c),
{
    c == ' ' || c == '\t' || c == '\r' || c == '\n'
}

/// Strips leading and trailing whitespace.
pub fn trim_ws(s: &str) -> (r: String)
    ensures
        r@ == trim_ws_spec(s@),
{
    let n = s.unicode_len();
    let mut a: usize = 0;
    loop
        invariant_except_break
            n == s@.len(),
            0 <= a <= n,
            first_non_ws(s@, 0) == first_non_ws(s@, a as int),
        ensures
            n == s@.len(),
            0 <= a <= n,
            first_non_ws(s@, 0) == a,
        decreases n - a,
    {
        if a >= n {
            break;
        }
        let c = s.get_char(a);
        if !is_ws_exec(c) {
            break;
        }
        a = a + 1;
    }
    let mut b: usize = n;
    loop
        invariant_except_break
            n == s@.len(),
            0 <= b <= n,
            last_non_ws(s@, n as int) == last_non_ws(s@, b as int),
        ensures
            n == s@.len(),
            0 <= b <= n,
            last_non_ws(s@, n as int) == b,
        decreases b,
    {
        if b == 0 {
            break;
        }
        let c = s.get_char(b - 1);
        if !is_ws_exec(c) {
            break;
        }
        b = b - 1;
    }
    if a < b {
        let sub = s.substring_char(a, b);
        String::from_str(sub)
    } else {
        String::new()
    }
}

/// The tokens of the text split at every single space, the token so far
/// and the tokens already complete carried along: what splitting at
/// spaces leaves, empty tokens included.
pub open spec fn split_acc(s: Seq<char>, p: int, cur: Seq<char>, acc: Seq<Seq<char>>) -> Seq<
    Seq<char>,
>
    recommends
        0 <= p <= s.len(),
    decreases s.len() - p,
{
    if p < 0 || p >= s.len() {
        acc.push(cur)
    } else if s[p] == ' ' {
        split_acc(s, p + 1, Seq::<char>::empty(), acc.push(cur))
    } else {
        split_acc(s, p + 1, cur.push(s[p]), acc)
    }
}

/// The tokens of the text, split at every single space: consecutive
/// spaces yield empty tokens, and the empty text yields one empty token.
pub open spec fn split_tokens(s: Seq<char>) -> Seq<Seq<char>> {
    split_acc(s, 0, Seq::<char>::empty(), Seq::<Seq<char>>::empty())
}

/// Splits the text at every single space.
pub fn split_spaces(s: &str) -> (r: Vec<String>)
    ensures
        views_of(r@) == split_tokens(s@),
        r@.len() >= 1,
{
    let n = s.unicode_len();
    let mut out: Vec<String> = Vec::new();
    let mut cur = String::new();
    let mut p: usize = 0;
    proof {
        assert(views_of(out@) =~= Seq::<Seq<char>>::empty());
    }
    while p < n
        invariant
            n == s@.len(),
            0 <= p <= n,
            split_tokens(s@) == split_acc(s@, p as int, cur@, views_of(out@)),
        decreases n - p,
    {
        let c = s.get_char(p);
        let ghost cur0 = cur@;
        let ghost acc0 = views_of(out@);
        if c == ' ' {
            out.push(cur);
            cur = String::new();
            proof {
                assert(views_of(out@) =~= acc0.push(cur0));
            }
        } else {
            push_char(&mut cur, c);
            proof {
                assert(cur@ =~= cur0.push(c));
            }
        }
        p = p + 1;
    }
    let ghost acc0 = views_of(out@);
    let ghost cur0 = cur@;
    out.push(cur);
    proof {
        assert(views_of(out@) =~= acc0.push(cur0));
    }
    out
}

/// Strict lexicographic order on character strings, by code point: a
/// proper prefix comes before the longer string.
pub open spec fn lex_lt(a: Seq<char>, b: Seq<char>) -> bool
    decreases a.len(),
{
    if b.len() == 0 {
        false
    } else if a.len() == 0 {
        true
    } else if a[0] != b[0] {
        a[0] < b[0]
    } else {
        lex_lt(a.drop_first(), b.drop_first())
    }
}

/// The strings stand in strictly ascending lexicographic order.
pub open spec fn lex_sorted(ps: Seq<Seq<char>>) -> bool {
    forall|i: int, j: int| 0 <= i < j < ps.len() ==> lex_lt(#[trigger] ps[i], #[trigger] ps[j])
}

/// No string comes before itself.
pub proof fn lemma_lex_irreflexive(a: Seq<char>)
    ensures
        !lex_lt(a, a),
    decreases a.len(),
{
    if a.len() > 0 {
        lemma_lex_irreflexive(a.drop_first());
    }
}

/// Two strings compare some way: one comes first, or they are equal.
pub proof fn lemma_lex_trichotomy(a: Seq<char>, b: Seq<char>)
    ensures
        lex_lt(a, b) || lex_lt(b, a) || a == b,
    decreases a.len(),
{
    if a.len() == 0 && b.len() == 0 {
        assert(a =~= b);
    } else if a.len() > 0 && b.len() > 0 && a[0] == b[0] {
        lemma_lex_trichotomy(a.drop_first(), b.drop_first());
        if a.drop_first() == b.drop_first() {
            assert(a.drop_first().len() == a.len() - 1);
            assert(b.drop_first().len() == b.len() - 1);
            assert(a.len() == b.len());
            assert forall|i: int| 0 <= i < a.len() implies a[i] == b[i] by {
                if i > 0 {
                    assert(a[i] == a.drop_first()[i - 1]);
                    assert(b[i] == b.drop_first()[i - 1]);
                    assert(a.drop_first()[i - 1] == b.drop_first()[i - 1]);
                }
            }
            assert(a =~= b);
        }
    }
}

/// The order carries across a middle string.
pub proof fn lemma_lex_transitive(a: Seq<char>, b: Seq<char>, c: Seq<char>)
    requires
        lex_lt(a, b),
        lex_lt(b, c),
    ensures
        lex_lt(a, c),
    decreases a.len(),
{
    if a.len() > 0 {
        if a[0] == b[0] && b[0] == c[0] {
            lemma_lex_transitive(a.drop_first(), b.drop_first(), c.drop_first());
        }
    }
}

/// Decides the lexicographic order of two strings.
pub fn lex_lt_str(a: &str, b: &str) -> (r: bool)
    ensures
        r == lex_lt(a@, b@),
{
    let na = a.unicode_len();
    let nb = b.unicode_len();
    let mut i: usize = 0;
    proof {
        assert(a@.skip(0) =~= a@);
        assert(b@.skip(0) =~= b@);
    }
    loop
        invariant
            na == a@.len(),
            nb == b@.len(),
            0 <= i <= na,
            i <= nb,
            lex_lt(a@, b@) == lex_lt(a@.skip(i as int), b@.skip(i as int)),
        decreases na - i,
    {
        if i >= nb {
            proof {
                assert(b@.skip(i as int).len() == 0);
            }
            return false;
        }
        if i >= na {
            proof {
                assert(a@.skip(i as int).len() == 0);
                assert(b@.skip(i as int).len() > 0);
            }
            return true;
        }
        let ca = a.get_char(i);
        let cb = b.get_char(i);
        proof {
            assert(a@.skip(i as int)[0] == a@[i as int]);
            assert(b@.skip(i as int)[0] == b@[i as int]);
        }
        if ca as u32 != cb as u32 {
            return (ca as u32) < (cb as u32);
        }
        proof {
            assert(a@.skip(i as int).drop_first() =~= a@.skip((i + 1) as int));
            assert(b@.skip(i as int).drop_first() =~= b@.skip((i + 1) as int));
        }
        i = i + 1;
    }
}

/// Parses a string of decimal digits as a `u64`.  Returns `None` when the
/// string is empty, holds a non-digit, or its value is above `bound`.
pub fn parse_dec_bounded(s: &str, bound: u64) -> (r: Option<u64>)
    ensures
        match r {
            Some(v) => all_dec_digits(s@) && v == dec_value_of(s@) && v <= bound,
            None => !(all_dec_digits(s@) && dec_value_of(s@) <= bound),
        },
{
    let n = s.unicode_len();
    if n == 0 {
        return None;
    }
    let mut acc: u64 = 0;
    let mut i: usize = 0;
    while i < n
        invariant
            0 < n == s@.len(),
            0 <= i <= n,
            acc <= bound,
            forall|k: int| 0 <= k < i ==> is_dec_digit(s@[k]),
            acc == dec_value_of(s@.subrange(0, i as int)),
        decreases n - i,
    {
        let c = s.get_char(i);
        let u: u32 = c as u32;
        if u < 48 || u > 57 {
            assert(!is_dec_digit(s@[i as int]));
            return None;
        }
        let d: u64 = (u - 48) as u64;
        proof {
            assert(s@.subrange(0, (i + 1) as int).drop_last() =~= s@.subrange(0, i as int));
            assert(s@.subrange(0, (i + 1) as int).last() == s@[i as int]);
            assert(dec_value_of(s@.subrange(0, (i + 1) as int)) == acc * 10 + d);
        }
        if acc > bound / 10 || (acc == bound / 10 && d > bound % 10) {
            proof {
                if all_dec_digits(s@) {
                    lemma_dec_value_grows(s@, (i + 1) as int);
                    assert(acc * 10 + d > bound) by (nonlinear_arith)
                        requires
                            acc >= 0,
                            d >= 0,
                            d < 10,
                            bound >= 0,
                            acc > bound / 10 || (acc == bound / 10 && d > bound % 10),
                            bound == (bound / 10) * 10 + bound % 10,
                            0 <= bound % 10 < 10,
                    ;
                }
            }
            return None;
        }
        proof {
            assert(acc * 10 + d <= bound) by (nonlinear_arith)
                requires
                    acc >= 0,
                    d >= 0,
                    d < 10,
                    bound >= 0,
                    !(acc > bound / 10 || (acc == bound / 10 && d > bound % 10)),
                    bound == (bound / 10) * 10 + bound % 10,
                    0 <= bound % 10 < 10,
            ;
        }
        acc = acc * 10 + d;
        i = i + 1;
    }
    proof {
        assert(s@.subrange(0, n as int) =~= s@);
    }
    Some(acc)
}

} // verus!
