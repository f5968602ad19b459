//! Character-level text handling: Unicode whitespace trimming and the
//! decimal integer grammar of `str::parse`.
use vstd::prelude::*;

verus! {

/// Whether `c` has the Unicode `White_Space` property: the ASCII tab, line
/// feed, vertical tab, form feed, carriage return and space, and U+0085,
/// U+00A0, U+1680, U+2000 to U+200A, U+2028, U+2029, U+202F, U+205F, U+3000.
pub open spec fn char_is_whitespace(c: char) -> bool {
    let n = c as u32;
    ||| 0x09 <= n <= 0x0d
    ||| n == 0x20
    ||| n == 0x85
    ||| n == 0xa0
    ||| n == 0x1680
    ||| 0x2000 <= n <= 0x200a
    ||| n == 0x2028
    ||| n == 0x2029
    ||| n == 0x202f
    ||| n == 0x205f
    ||| n == 0x3000
}

/// Whether `c` is whitespace, as `char::is_whitespace` answers: the code
/// points that `char_is_whitespace` lists.
pub fn is_whitespace(c: char) -> (b: bool)
    ensures
        b == char_is_whitespace(c),
{
    let n = c as u32;
    (0x09 <= n && n <= 0x0d) || n == 0x20 || n == 0x85 || n == 0xa0 || n == 0x1680 || (0x2000 <= n
        && n <= 0x200a) || n == 0x2028 || n == 0x2029 || n == 0x202f || n == 0x205f || n == 0x3000
}

/// `s` with its leading whitespace removed.
pub open spec fn trim_start(s: Seq<char>) -> Seq<char>
    decreases s.len(),
{
    if s.len() > 0 && char_is_whitespace(s[0]) {
        trim_start(s.drop_first())
    } else {
        s
    }
}

/// `s` with its trailing whitespace removed.
pub open spec fn trim_end(s: Seq<char>) -> Seq<char>
    decreases s.len(),
{
    if s.len() > 0 && char_is_whitespace(s.last()) {
        trim_end(s.drop_last())
    } else {
        s
    }
}

/// `s` with leading and trailing whitespace removed, as `str::trim` does.
pub open spec fn trim(s: Seq<char>) -> Seq<char> {
    trim_end(trim_start(s))
}

pub open spec fn is_ascii_digit(c: char) -> bool {
    '0' <= c <= '9'
}

pub open spec fn all_ascii_digits(s: Seq<char>) -> bool {
    forall|i: int| 0 <= i < s.len() ==> is_ascii_digit(#[trigger] s[i])
}

pub open spec fn digit_value(c: char) -> nat {
    (c as int - '0' as int) as nat
}

/// The number that the decimal digits `s` spell.
pub open spec fn decimal_value(s: Seq<char>) -> nat
    decreases s.len(),
{
    if s.len() == 0 {
        0
    } else {
        decimal_value(s.drop_last()) * 10 + digit_value(s.last())
    }
}

/// The digits of `s` after an optional leading sign, `+` only when `signed` is false.
pub open spec fn unsigned_part(s: Seq<char>, signed: bool) -> Seq<char> {
    if s.len() > 0 && (s[0] == '+' || (signed && s[0] == '-')) {
        s.drop_first()
    } else {
        s
    }
}

/// What `s.parse::<u32>()` gives: an optional `+`, then one or more ASCII digits
/// whose value fits in a `u32`.
pub open spec fn parse_u32_spec(s: Seq<char>) -> Option<u32> {
    let d = unsigned_part(s, false);
    if d.len() > 0 && all_ascii_digits(d) && decimal_value(d) <= u32::MAX {
        Some(decimal_value(d) as u32)
    } else {
        None
    }
}

/// The signed value that `s` spells, if it has the form `[+-]?[0-9]+`.
pub open spec fn signed_value(s: Seq<char>) -> Option<int> {
    let d = unsigned_part(s, true);
    if d.len() > 0 && all_ascii_digits(d) {
        if s[0] == '-' {
            Some(-(decimal_value(d) as int))
        } else {
            Some(decimal_value(d) as int)
        }
    } else {
        None
    }
}

/// What `s.parse::<i64>()` gives: an optional sign, then one or more ASCII digits,
/// whose value fits in an `i64`.
pub open spec fn parse_i64_spec(s: Seq<char>) -> Option<i64> {
    match signed_value(s) {
        Some(v) => if i64::MIN <= v <= i64::MAX {
            Some(v as i64)
        } else {
            None
        },
        None => None,
    }
}

/// Copies the characters of `s` into a vector.
pub fn chars_of(s: &str) -> (v: Vec<char>)
    ensures
        v@ == s@,
{
    let mut v: Vec<char> = Vec::new();
    for c in it: s.chars()
        invariant
            v@ == it.seq().take(it.index() as int),
            it.seq() == s@,
    {
        v.push(c);
    }
    v
}

/// Whether `v[a..b]` spells the string `lit`.
pub fn range_eq_str(v: &Vec<char>, a: usize, b: usize, lit: &str) -> (eq: bool)
    requires
        a <= b <= v@.len(),
    ensures
        eq == (v@.subrange(a as int, b as int) == lit@),
{
    let n = lit.unicode_len();
    if b - a != n {
        return false;
    }
    let mut i: usize = 0;
    while i < n
        invariant
            a <= b <= v@.len(),
            b - a == n,
            n == lit@.len(),
            i <= n,
            forall|k: int| 0 <= k < i ==> v@[a + k] == lit@[k],
        decreases n - i,
    {
        if v[a + i] != lit.get_char(i) {
            assert(v@.subrange(a as int, b as int)[i as int] != lit@[i as int]);
            return false;
        }
        i += 1;
    }
    assert(v@.subrange(a as int, b as int) =~= lit@);
    true
}

/// Whether the strings `x` and `y` hold the same characters.
pub fn str_eq(x: &str, y: &str) -> (eq: bool)
    ensures
        eq == (x@ == y@),
{
    let v = chars_of(x);
    let eq = range_eq_str(&v, 0, v.len(), y);
    assert(v@.subrange(0, v@.len() as int) =~= v@);
    eq
}

/// The bounds of `v[a..b]` with leading and trailing whitespace removed.
pub fn trim_range(v: &Vec<char>, a: usize, b: usize) -> (r: (usize, usize))
    requires
        a <= b <= v@.len(),
    ensures
        a <= r.0 <= r.1 <= b,
        v@.subrange(r.0 as int, r.1 as int) == trim(v@.subrange(a as int, b as int)),
{
    let mut i = a;
    while i < b && is_whitespace(v[i])
        invariant
            a <= i <= b <= v@.len(),
            trim_start(v@.subrange(a as int, b as int)) == trim_start(
                v@.subrange(i as int, b as int),
            ),
        decreases b - i,
    {
        assert(v@.subrange(i as int, b as int).drop_first() =~= v@.subrange(i + 1, b as int));
        i += 1;
    }
    assert(trim_start(v@.subrange(i as int, b as int)) == v@.subrange(i as int, b as int));
    let mut j = b;
    while j > i && is_whitespace(v[j - 1])
        invariant
            a <= i <= j <= b <= v@.len(),
            trim_end(v@.subrange(i as int, b as int)) == trim_end(v@.subrange(i as int, j as int)),
        decreases j - i,
    {
        assert(v@.subrange(i as int, j as int).drop_last() =~= v@.subrange(i as int, j - 1));
        j -= 1;
    }
    assert(trim_end(v@.subrange(i as int, j as int)) == v@.subrange(i as int, j as int));
    (i, j)
}

/// The value of the digits of a prefix of `s` is at most that of `s`.
pub proof fn lemma_decimal_value_prefix(s: Seq<char>, k: int)
    requires
        0 <= k <= s.len(),
    ensures
        decimal_value(s.take(k)) <= decimal_value(s),
    decreases s.len(),
{
    if k < s.len() {
        lemma_decimal_value_prefix(s.drop_last(), k);
        assert(s.drop_last().take(k) =~= s.take(k));
    } else {
        assert(s.take(k) =~= s);
    }
}

/// Parses the digits `v[a..b]` as a number no larger than `bound`.
fn parse_digits(v: &Vec<char>, a: usize, b: usize, bound: u64) -> (r: Option<u64>)
    requires
        a <= b <= v@.len(),
    ensures
        ({
            let d = v@.subrange(a as int, b as int);
            match r {
                Some(n) => all_ascii_digits(d) && decimal_value(d) <= bound && n == decimal_value(
                    d,
                ),
                None => !(all_ascii_digits(d) && decimal_value(d) <= bound),
            }
        }),
{
    let ghost d = v@.subrange(a as int, b as int);
    let mut acc: u64 = 0;
    let mut i = a;
    while i < b
        invariant
            a <= i <= b <= v@.len(),
            d == v@.subrange(a as int, b as int),
            all_ascii_digits(d.take(i - a)),
            acc == decimal_value(d.take(i - a)),
            acc <= bound,
        decreases b - i,
    {
        let c = v[i];
        assert(d[i - a] == c);
        if !('0' <= c && c <= '9') {
            return None;
        }
        let digit = (c as u32 - '0' as u32) as u64;
        assert(d.take(i - a + 1).drop_last() =~= d.take(i - a));
        assert(d.take(i - a + 1).last() == c);
        let next: u128 = acc as u128 * 10 + digit as u128;
        assert(next == decimal_value(d.take(i - a + 1)));
        if next > bound as u128 {
            proof {
                lemma_decimal_value_prefix(d, i - a + 1);
            }
            return None;
        }
        acc = next as u64;
        i += 1;
        assert(all_ascii_digits(d.take(i - a))) by {
            assert forall|k: int| 0 <= k < d.take(i - a).len() implies is_ascii_digit(
                #[trigger] d.take(i - a)[k],
            ) by {
                if k < i - a - 1 {
                    assert(d.take(i - a)[k] == d.take(i - a - 1)[k]);
                }
            }
        }
    }
    assert(d.take(b - a) =~= d);
    Some(acc)
}

/// Parses `v[a..b]` as `str::parse::<u32>` does.
pub fn parse_u32_range(v: &Vec<char>, a: usize, b: usize) -> (r: Option<u32>)
    requires
        a <= b <= v@.len(),
    ensures
        r == parse_u32_spec(v@.subrange(a as int, b as int)),
{
    let ghost s = v@.subrange(a as int, b as int);
    let mut start = a;
    if a < b && v[a] == '+' {
        start = a + 1;
    }
    assert(unsigned_part(s, false) =~= v@.subrange(start as int, b as int));
    if start == b {
        return None;
    }
    match parse_digits(v, start, b, 4294967295) {
        Some(n) => Some(n as u32),
        None => None,
    }
}

/// Parses `v[a..b]` as `str::parse::<i64>` does.
pub fn parse_i64_range(v: &Vec<char>, a: usize, b: usize) -> (r: Option<i64>)
    requires
        a <= b <= v@.len(),
    ensures
        r == parse_i64_spec(v@.subrange(a as int, b as int)),
{
    let ghost s = v@.subrange(a as int, b as int);
    let negative = a < b && v[a] == '-';
    let mut start = a;
    if a < b && (v[a] == '+' || v[a] == '-') {
        start = a + 1;
    }
    assert(unsigned_part(s, true) =~= v@.subrange(start as int, b as int));
    if start == b {
        return None;
    }
    let bound: u64 = if negative { 9223372036854775808 } else { 9223372036854775807 };
    match parse_digits(v, start, b, bound) {
        Some(n) => {
            if negative {
                if n == 9223372036854775808 {
                    Some(-9223372036854775808i64)
                } else {
                    Some(-(n as i64))
                }
            } else {
                Some(n as i64)
            }
        },
        None => None,
    }
}

/// Leading whitespace goes, up to the first character that is not whitespace.
pub proof fn lemma_trim_start_skips(ws: Seq<char>, d: Seq<char>)
    requires
        forall|i: int| 0 <= i < ws.len() ==> char_is_whitespace(#[trigger] ws[i]),
        d.len() == 0 || !char_is_whitespace(d[0]),
    ensures
        trim_start(ws + d) == d,
    decreases ws.len(),
{
    if ws.len() == 0 {
        assert(ws + d =~= d);
    } else {
        assert((ws + d)[0] == ws[0]);
        assert((ws + d).drop_first() =~= ws.drop_first() + d);
        lemma_trim_start_skips(ws.drop_first(), d);
    }
}

/// Trailing whitespace goes, back to the last character that is not whitespace.
pub proof fn lemma_trim_end_skips(d: Seq<char>, ws: Seq<char>)
    requires
        forall|i: int| 0 <= i < ws.len() ==> char_is_whitespace(#[trigger] ws[i]),
        d.len() == 0 || !char_is_whitespace(d.last()),
    ensures
        trim_end(d + ws) == d,
    decreases ws.len(),
{
    if ws.len() == 0 {
        assert(d + ws =~= d);
    } else {
        assert((d + ws).last() == ws.last());
        assert((d + ws).drop_last() =~= d + ws.drop_last());
        lemma_trim_end_skips(d, ws.drop_last());
    }
}

/// Text of non-whitespace characters, with any whitespace around it, trims to
/// exactly that text.
pub proof fn lemma_trim_surrounded(ws1: Seq<char>, d: Seq<char>, ws2: Seq<char>)
    requires
        forall|i: int| 0 <= i < ws1.len() ==> char_is_whitespace(#[trigger] ws1[i]),
        forall|i: int| 0 <= i < ws2.len() ==> char_is_whitespace(#[trigger] ws2[i]),
        forall|i: int| 0 <= i < d.len() ==> !char_is_whitespace(#[trigger] d[i]),
    ensures
        trim(ws1 + d + ws2) == d,
{
    if d.len() > 0 {
        assert(!char_is_whitespace(d[0]));
        assert(!char_is_whitespace(d[d.len() - 1]));
    }
    let e = d + ws2;
    assert(ws1 + d + ws2 =~= ws1 + e);
    if d.len() == 0 && ws2.len() > 0 {
        // all whitespace: the whole text trims away
        lemma_trim_start_all_whitespace(ws1 + ws2);
        assert(ws1 + d + ws2 =~= ws1 + ws2);
        assert(trim_end(Seq::<char>::empty()) == Seq::<char>::empty());
        assert(d =~= Seq::<char>::empty());
    } else {
        if d.len() > 0 {
            assert(e[0] == d[0]);
        } else {
            assert(e =~= Seq::<char>::empty());
        }
        lemma_trim_start_skips(ws1, e);
        lemma_trim_end_skips(d, ws2);
    }
}

/// Text made of whitespace alone trims away at the start.
pub proof fn lemma_trim_start_all_whitespace(ws: Seq<char>)
    requires
        forall|i: int| 0 <= i < ws.len() ==> char_is_whitespace(#[trigger] ws[i]),
    ensures
        trim_start(ws) == Seq::<char>::empty(),
    decreases ws.len(),
{
    if ws.len() == 0 {
        assert(ws =~= Seq::<char>::empty());
    } else {
        assert(char_is_whitespace(ws[0]));
        lemma_trim_start_all_whitespace(ws.drop_first());
    }
}

/// A run of ASCII digits, with an optional `+` before it, reads as the number
/// it spells wherever that number fits in an `i64`; with a `-` before it, as
/// its negation.
pub proof fn lemma_parse_i64_digits(d: Seq<char>)
    requires
        d.len() > 0,
        all_ascii_digits(d),
        decimal_value(d) <= i64::MAX,
    ensures
        parse_i64_spec(d) == Some(decimal_value(d) as i64),
        parse_i64_spec(seq!['+'] + d) == Some(decimal_value(d) as i64),
        parse_i64_spec(seq!['-'] + d) == Some((-(decimal_value(d) as int)) as i64),
{
    assert(is_ascii_digit(d[0]));
    assert(unsigned_part(d, true) == d);
    let p = seq!['+'] + d;
    let m = seq!['-'] + d;
    assert(p.drop_first() =~= d);
    assert(m.drop_first() =~= d);
    assert(unsigned_part(p, true) == d);
    assert(unsigned_part(m, true) == d);
}

} // verus!
