//! Character-level text handling: line splitting, whitespace trimming,
//! number parsing and message building.
use vstd::prelude::*;

verus! {

broadcast use vstd::string::axiom_spec_iter;

/// The characters of a string slice, in order.
pub fn chars_of(s: &str) -> (v: Vec<char>)
    ensures
        v@ == s@,
{
    let mut v: Vec<char> = Vec::new();
    for c in it: s.chars()
        invariant
            v@ == it.seq().take(it.index()),
            it.seq() == s@,
    {
        v.push(c);
    }
    v
}


/// Unicode `White_Space` characters (what `char::is_whitespace` accepts).
pub open spec fn is_space(c: char) -> bool {
    let u = c as u32;
    (0x09 <= u <= 0x0D) || u == 0x20 || u == 0x85 || u == 0xA0 || u == 0x1680 || (0x2000 <= u
        <= 0x200A) || u == 0x2028 || u == 0x2029 || u == 0x202F || u == 0x205F || u == 0x3000
}

/// Whether `c` is Unicode white space.
pub fn is_whitespace(c: char) -> (b: bool)
    ensures
        b == is_space(c),
{
    let u = c as u32;
    (0x09 <= u && u <= 0x0D) || u == 0x20 || u == 0x85 || u == 0xA0 || u == 0x1680 || (0x2000 <= u
        && u <= 0x200A) || u == 0x2028 || u == 0x2029 || u == 0x202F || u == 0x205F || u == 0x3000
}

/// `s` without its leading white space.
pub open spec fn trim_start(s: Seq<char>) -> Seq<char>
    decreases s.len(),
{
    if s.len() > 0 && is_space(s[0]) {
        trim_start(s.drop_first())
    } else {
        s
    }
}

/// `s` without its trailing white space.
pub open spec fn trim_end(s: Seq<char>) -> Seq<char>
    decreases s.len(),
{
    if s.len() > 0 && is_space(s.last()) {
        trim_end(s.drop_last())
    } else {
        s
    }
}

/// `s` without leading and trailing white space (what `str::trim` returns).
pub open spec fn trim(s: Seq<char>) -> Seq<char> {
    trim_end(trim_start(s))
}

/// Bounds of the trimmed part of `s[start..end]`.
pub fn trim_range(s: &Vec<char>, start: usize, end: usize) -> (r: (usize, usize))
    requires
        start <= end <= s.len(),
    ensures
        start <= r.0 <= r.1 <= end,
        s@.subrange(r.0 as int, r.1 as int) == trim(s@.subrange(start as int, end as int)),
{
    let mut a = start;
    while a < end && is_whitespace(s[a])
        invariant
            start <= a <= end <= s.len(),
            trim_start(s@.subrange(a as int, end as int)) == trim_start(
                s@.subrange(start as int, end as int),
            ),
        decreases end - a,
    {
        assert(s@.subrange(a as int, end as int).drop_first() =~= s@.subrange(
            a + 1,
            end as int,
        ));
        a += 1;
    }
    let ghost ts = s@.subrange(a as int, end as int);
    assert(trim_start(ts) == ts);
    let mut b = end;
    while b > a && is_whitespace(s[b - 1])
        invariant
            start <= a <= b <= end <= s.len(),
            trim_end(s@.subrange(a as int, b as int)) == trim_end(ts),
        decreases b - a,
    {
        assert(s@.subrange(a as int, b as int).drop_last() =~= s@.subrange(a as int, b - 1));
        b -= 1;
    }
    (a, b)
}

/// Whether every character of `s` is a decimal digit.
pub open spec fn all_decimal(s: Seq<char>) -> bool {
    forall|i: int| 0 <= i < s.len() ==> '0' <= #[trigger] s[i] <= '9'
}

/// Value of a string of decimal digits.
pub open spec fn decimal_value(s: Seq<char>) -> nat
    decreases s.len(),
{
    if s.len() == 0 {
        0
    } else {
        decimal_value(s.drop_last()) * 10 + (s.last() as nat - '0' as nat) as nat
    }
}

/// What `str::parse::<u8>` gives: an optional `+` sign, then at least one
/// decimal digit and nothing else, with a value of at most 255.
pub open spec fn parse_u8(s: Seq<char>) -> Option<u8> {
    let d = if s.len() > 0 && s[0] == '+' {
        s.drop_first()
    } else {
        s
    };
    if d.len() > 0 && all_decimal(d) && decimal_value(d) <= 255 {
        Some(decimal_value(d) as u8)
    } else {
        None
    }
}

/// Parses `s[start..end]` as a `u8` the way `str::parse::<u8>` does.
pub fn parse_u8_range(s: &Vec<char>, start: usize, end: usize) -> (r: Option<u8>)
    requires
        start <= end <= s.len(),
    ensures
        r == parse_u8(s@.subrange(start as int, end as int)),
{
    let ghost whole = s@.subrange(start as int, end as int);
    let mut i = start;
    if i < end && s[i] == '+' {
        i += 1;
    }
    let ghost d = s@.subrange(i as int, end as int);
    assert(d =~= (if whole.len() > 0 && whole[0] == '+' {
        whole.drop_first()
    } else {
        whole
    }));
    if i == end {
        return None;
    }
    let first = i;
    let mut value: u32 = 0;
    while i < end
        invariant
            start <= first <= i <= end <= s.len(),
            d == s@.subrange(first as int, end as int),
            whole == s@.subrange(start as int, end as int),
            d == (if whole.len() > 0 && whole[0] == '+' {
                whole.drop_first()
            } else {
                whole
            }),
            value <= 256,
            value == (if decimal_value(s@.subrange(first as int, i as int)) < 256 {
                decimal_value(s@.subrange(first as int, i as int))
            } else {
                256
            }),
            all_decimal(s@.subrange(first as int, i as int)),
        decreases end - i,
    {
        let c = s[i];
        let ghost pre = s@.subrange(first as int, i as int);
        let ghost next = s@.subrange(first as int, i + 1);
        assert(next.drop_last() =~= pre);
        if '0' <= c && c <= '9' {
            let digit = (c as u32) - ('0' as u32);
            let v = value * 10 + digit;
            value = if v > 256 {
                256
            } else {
                v
            };
        } else {
            assert(d[i - first] == c);
            assert(!all_decimal(d));
            assert(parse_u8(whole) is None);
            return None;
        }
        i += 1;
    }
    assert(s@.subrange(first as int, end as int) =~= d);
    if value <= 255 {
        Some(value as u8)
    } else {
        None
    }
}


/// Appends one character to a string.
///
/// Calls `String::push`; the contract claims, as its documentation says,
/// that the character is appended at the end.
#[verifier::external_body]
pub(crate) fn push_char(s: &mut String, c: char)
    ensures
        final(s)@ == old(s)@.push(c),
{
    s.push(c);
}

/// Appends a string slice to a string.
pub(crate) fn push_str(s: &mut String, t: &str)
    ensures
        final(s)@ == old(s)@ + t@,
{
    s.append(t);
}

/// A string holding `s[start..end]`.
pub fn string_from_range(s: &Vec<char>, start: usize, end: usize) -> (r: String)
    requires
        start <= end <= s.len(),
    ensures
        r@ == s@.subrange(start as int, end as int),
{
    let mut r = String::new();
    let mut i = start;
    while i < end
        invariant
            start <= i <= end <= s.len(),
            r@ == s@.subrange(start as int, i as int),
        decreases end - i,
    {
        push_char(&mut r, s[i]);
        assert(r@ =~= s@.subrange(start as int, i + 1));
        i += 1;
    }
    r
}

/// The character of digit `d` (`0`-`9`, then `a`-`f`).
pub open spec fn digit_char(d: nat) -> char {
    if d < 10 {
        (48 + d) as char
    } else {
        (87 + d) as char
    }
}

/// Decimal representation of `n`, without leading zeros.
pub open spec fn decimal(n: nat) -> Seq<char>
    decreases n,
{
    if n < 10 {
        seq![digit_char(n)]
    } else {
        decimal(n / 10).push(digit_char(n % 10))
    }
}

/// Lower-case hexadecimal representation of `n`, without leading zeros.
pub open spec fn hex(n: nat) -> Seq<char>
    decreases n,
{
    if n < 16 {
        seq![digit_char(n)]
    } else {
        hex(n / 16).push(digit_char(n % 16))
    }
}

fn digit(d: u64) -> (c: char)
    requires
        d < 16,
    ensures
        c == digit_char(d as nat),
{
    if d < 10 {
        ((48 + d) as u8) as char
    } else {
        ((87 + d) as u8) as char
    }
}

/// Appends the decimal representation of `n`.
pub fn push_decimal(s: &mut String, n: u64)
    ensures
        final(s)@ == old(s)@ + decimal(n as nat),
    decreases n,
{
    if n >= 10 {
        push_decimal(s, n / 10);
    }
    push_char(s, digit(n % 10));
    assert(final(s)@ =~= old(s)@ + decimal(n as nat));
}

/// Appends the lower-case hexadecimal representation of `n`.
pub fn push_hex(s: &mut String, n: u64)
    ensures
        final(s)@ == old(s)@ + hex(n as nat),
    decreases n,
{
    if n >= 16 {
        push_hex(s, n / 16);
    }
    push_char(s, digit(n % 16));
    assert(final(s)@ =~= old(s)@ + hex(n as nat));
}

/// The character of digit `d` in upper case (`0`-`9`, then `A`-`F`).
pub open spec fn upper_digit_char(d: nat) -> char {
    if d < 10 {
        (48 + d) as char
    } else {
        (55 + d) as char
    }
}

/// Upper-case hexadecimal representation of `n`, without leading zeros.
pub open spec fn hex_upper(n: nat) -> Seq<char>
    decreases n,
{
    if n < 16 {
        seq![upper_digit_char(n)]
    } else {
        hex_upper(n / 16).push(upper_digit_char(n % 16))
    }
}

/// Upper-case hexadecimal representation of `n`, with leading zeros up to
/// `width` digits (what `{:0width$X}` prints).
pub open spec fn hex_upper_padded(n: nat, width: nat) -> Seq<char> {
    let h = hex_upper(n);
    if h.len() < width {
        Seq::new((width - h.len()) as nat, |i: int| '0') + h
    } else {
        h
    }
}

fn upper_digit(d: u64) -> (c: char)
    requires
        d < 16,
    ensures
        c == upper_digit_char(d as nat),
{
    if d < 10 {
        ((48 + d) as u8) as char
    } else {
        ((55 + d) as u8) as char
    }
}

/// The number of upper-case hexadecimal digits of `n`.
fn hex_upper_len(n: u64) -> (k: usize)
    ensures
        k == hex_upper(n as nat).len(),
        k <= 16,
    decreases n,
{
    if n < 16 {
        1
    } else {
        proof {
            lemma_hex_upper_len_bound(n as nat);
        }
        let k = hex_upper_len(n / 16);
        k + 1
    }
}

/// `16^k`.
pub open spec fn pow16(k: nat) -> nat
    decreases k,
{
    if k == 0 {
        1
    } else {
        16 * pow16((k - 1) as nat)
    }
}

/// A 64-bit number has at most 16 hexadecimal digits.
proof fn lemma_hex_upper_len_bound(n: nat)
    requires
        n < 0x1_0000_0000_0000_0000,
    ensures
        hex_upper(n).len() <= 16,
{
    reveal_with_fuel(pow16, 17);
    assert(pow16(16) == 0x1_0000_0000_0000_0000);
    lemma_hex_upper_len_bound_k(n, 16);
}

/// A number below `16^k` (for `k >= 1`) has at most `k` hexadecimal digits.
proof fn lemma_hex_upper_len_bound_k(n: nat, k: nat)
    requires
        k >= 1,
        n < pow16(k),
    ensures
        hex_upper(n).len() <= k,
    decreases k,
{
    if n >= 16 {
        let p = pow16((k - 1) as nat);
        if k == 1 {
            assert(pow16(1) == 16 * pow16(0));
        } else {
            assert(n / 16 < p) by (nonlinear_arith)
                requires
                    n < 16 * p,
            ;
            lemma_hex_upper_len_bound_k(n / 16, (k - 1) as nat);
        }
    }
}

/// Appends the upper-case hexadecimal representation of `n`.
pub fn push_hex_upper(s: &mut String, n: u64)
    ensures
        final(s)@ == old(s)@ + hex_upper(n as nat),
    decreases n,
{
    if n >= 16 {
        push_hex_upper(s, n / 16);
    }
    push_char(s, upper_digit(n % 16));
    assert(final(s)@ =~= old(s)@ + hex_upper(n as nat));
}

/// Appends the upper-case hexadecimal representation of `n`, with leading
/// zeros up to `width` digits.
pub fn push_hex_upper_padded(s: &mut String, n: u64, width: usize)
    ensures
        final(s)@ == old(s)@ + hex_upper_padded(n as nat, width as nat),
{
    let k = hex_upper_len(n);
    let ghost start = s@;
    if k < width {
        let mut i: usize = 0;
        while i < width - k
            invariant
                k < width,
                i <= width - k,
                s@ == start + Seq::new(i as nat, |j: int| '0'),
            decreases width - k - i,
        {
            push_char(s, '0');
            assert(s@ =~= start + Seq::new((i + 1) as nat, |j: int| '0'));
            i += 1;
        }
    }
    let ghost mid = s@;
    push_hex_upper(s, n);
    assert(s@ =~= old(s)@ + hex_upper_padded(n as nat, width as nat));
}

/// ASCII lower-casing of one character (other characters are kept).
pub open spec fn ascii_lower(c: char) -> char {
    if 'A' <= c <= 'Z' {
        ((c as u32) + 32) as char
    } else {
        c
    }
}

/// Whether `s`, ASCII-lower-cased, starts with the lower-case ASCII `p`.
pub open spec fn starts_with_ignoring_ascii_case(s: Seq<char>, p: Seq<char>) -> bool {
    p.len() <= s.len() && forall|i: int| 0 <= i < p.len() ==> ascii_lower(#[trigger] s[i]) == p[i]
}

/// Whether `s`, ASCII-lower-cased, contains the lower-case ASCII `p` at position `k`.
pub open spec fn occurs_ignoring_ascii_case_at(s: Seq<char>, p: Seq<char>, k: int) -> bool {
    0 <= k && k + p.len() <= s.len() && forall|i: int|
        0 <= i < p.len() ==> ascii_lower(#[trigger] s[k + i]) == p[i]
}

fn lower(c: char) -> (r: char)
    ensures
        r == ascii_lower(c),
{
    if 'A' <= c && c <= 'Z' {
        (((c as u32) + 32) as u8) as char
    } else {
        c
    }
}

/// Whether `s[k..k + p.len()]`, ASCII-lower-cased, equals `p`.
fn matches_at(s: &Vec<char>, p: &Vec<char>, k: usize) -> (b: bool)
    requires
        k + p.len() <= s.len(),
    ensures
        b == occurs_ignoring_ascii_case_at(s@, p@, k as int),
{
    let mut i: usize = 0;
    while i < p.len()
        invariant
            k + p.len() <= s.len(),
            i <= p.len(),
            forall|j: int| 0 <= j < i ==> ascii_lower(#[trigger] s@[k + j]) == p@[j],
        decreases p.len() - i,
    {
        if lower(s[k + i]) != p[i] {
            return false;
        }
        i += 1;
    }
    true
}

/// Whether `s` starts with `p`, ignoring ASCII case in `s`.
pub fn starts_with_ascii_ci(s: &Vec<char>, p: &Vec<char>) -> (b: bool)
    ensures
        b == starts_with_ignoring_ascii_case(s@, p@),
{
    if p.len() > s.len() {
        return false;
    }
    let r = matches_at(s, p, 0);
    assert(r == starts_with_ignoring_ascii_case(s@, p@)) by {
        if r {
            assert forall|i: int| 0 <= i < p@.len() implies ascii_lower(#[trigger] s@[i])
                == p@[i] by {
                assert(s@[0 + i] == s@[i]);
            }
        } else {
            if starts_with_ignoring_ascii_case(s@, p@) {
                assert forall|i: int| 0 <= i < p@.len() implies ascii_lower(
                    #[trigger] s@[0 + i],
                ) == p@[i] by {
                    assert(s@[0 + i] == s@[i]);
                }
            }
        }
    }
    r
}

/// Whether `p` occurs in `s`, ignoring ASCII case in `s`.
pub fn contains_ascii_ci(s: &Vec<char>, p: &Vec<char>) -> (b: bool)
    ensures
        b == exists|k: int| occurs_ignoring_ascii_case_at(s@, p@, k),
{
    if p.len() > s.len() {
        assert forall|k: int| !occurs_ignoring_ascii_case_at(s@, p@, k) by {}
        return false;
    }
    let mut k: usize = 0;
    while k <= s.len() - p.len()
        invariant
            p.len() <= s.len(),
            k <= s.len() - p.len() + 1,
            forall|j: int| 0 <= j < k ==> !occurs_ignoring_ascii_case_at(s@, p@, j),
        decreases s.len() - k,
    {
        if matches_at(s, p, k) {
            return true;
        }
        k += 1;
    }
    assert forall|j: int| !occurs_ignoring_ascii_case_at(s@, p@, j) by {
        if 0 <= j < k {
        }
    }
    false
}

/// Whether the string slice equals the given text exactly.
pub fn str_equals(s: &Vec<char>, t: &str) -> (b: bool)
    ensures
        b == (s@ == t@),
{
    let tv = chars_of(t);
    if s.len() != tv.len() {
        return false;
    }
    let mut i: usize = 0;
    while i < s.len()
        invariant
            s.len() == tv.len(),
            tv@ == t@,
            i <= s.len(),
            forall|j: int| 0 <= j < i ==> s@[j] == tv@[j],
        decreases s.len() - i,
    {
        if s[i] != tv[i] {
            return false;
        }
        i += 1;
    }
    assert(s@ =~= tv@);
    true
}


/// Length of the longest prefix of `s` that does not contain `c`.
pub open spec fn span_until(s: Seq<char>, c: char) -> nat
    decreases s.len(),
{
    if s.len() == 0 || s[0] == c {
        0
    } else {
        1 + span_until(s.drop_first(), c)
    }
}

/// `k` is the span of `s` before the first `c` exactly when no earlier
/// character is `c` and `k` is the end or holds `c`.
pub proof fn lemma_span_until(s: Seq<char>, c: char, k: int)
    ensures
        span_until(s, c) <= s.len(),
        span_until(s, c) < s.len() ==> s[span_until(s, c) as int] == c,
        forall|i: int| 0 <= i < span_until(s, c) ==> s[i] != c,
        (0 <= k <= s.len() && (forall|i: int| 0 <= i < k ==> s[i] != c) && (k == s.len() || s[k]
            == c)) ==> span_until(s, c) == k,
    decreases s.len(),
{
    if s.len() > 0 && s[0] != c {
        lemma_span_until(s.drop_first(), c, k - 1);
        assert forall|i: int| 0 <= i < span_until(s, c) implies s[i] != c by {
            if i > 0 {
                assert(s[i] == s.drop_first()[i - 1]);
            }
        }
        if 0 <= k <= s.len() && (forall|i: int| 0 <= i < k ==> s[i] != c) && (k == s.len() || s[k]
            == c) {
            assert(k > 0);
            assert forall|i: int| 0 <= i < k - 1 implies s.drop_first()[i] != c by {
                assert(s.drop_first()[i] == s[i + 1]);
            }
        }
    }
}

/// Index of the first `c` in `s[start..end]`, or `end` if there is none.
pub fn find_char(s: &Vec<char>, start: usize, end: usize, c: char) -> (r: usize)
    requires
        start <= end <= s.len(),
    ensures
        start <= r <= end,
        r - start == span_until(s@.subrange(start as int, end as int), c),
{
    let mut j = start;
    while j < end && s[j] != c
        invariant
            start <= j <= end <= s.len(),
            forall|i: int| start <= i < j ==> s@[i] != c,
        decreases end - j,
    {
        j += 1;
    }
    proof {
        let sub = s@.subrange(start as int, end as int);
        lemma_span_until(sub, c, j - start);
    }
    j
}


/// Length of the run of non-space characters that starts `s`.
pub open spec fn token_len(s: Seq<char>) -> nat
    decreases s.len(),
{
    if s.len() == 0 || is_space(s[0]) {
        0
    } else {
        1 + token_len(s.drop_first())
    }
}

/// `k` is the token length of `s` exactly when the first `k` characters are
/// not spaces and `k` is the end or a space.
pub proof fn lemma_token_len(s: Seq<char>, k: int)
    ensures
        token_len(s) <= s.len(),
        (0 <= k <= s.len() && (forall|i: int| 0 <= i < k ==> !is_space(s[i])) && (k == s.len()
            || is_space(s[k]))) ==> token_len(s) == k,
    decreases s.len(),
{
    if s.len() > 0 && !is_space(s[0]) {
        lemma_token_len(s.drop_first(), k - 1);
        if 0 <= k <= s.len() && (forall|i: int| 0 <= i < k ==> !is_space(s[i])) && (k == s.len()
            || is_space(s[k])) {
            assert(k > 0);
            assert forall|i: int| 0 <= i < k - 1 implies !is_space(s.drop_first()[i]) by {
                assert(s.drop_first()[i] == s[i + 1]);
            }
        }
    }
}

/// The white-space separated words of `s` (what `str::split_whitespace` yields).
pub open spec fn tokens(s: Seq<char>) -> Seq<Seq<char>>
    decreases s.len(),
{
    if s.len() == 0 {
        seq![]
    } else if is_space(s[0]) {
        tokens(s.drop_first())
    } else {
        let n = token_len(s);
        proof {
            lemma_token_len(s, 0);
        }
        seq![s.subrange(0, n as int)] + tokens(s.subrange(n as int, s.len() as int))
    }
}

/// Character ranges of the white-space separated words of `s`.
pub fn token_ranges(s: &Vec<char>) -> (r: Vec<(usize, usize)>)
    ensures
        r@.len() == tokens(s@).len(),
        forall|i: int|
            #![trigger r@[i]]
            0 <= i < r@.len() ==> {
                &&& r@[i].0 <= r@[i].1
                &&& r@[i].1 <= s.len()
                &&& s@.subrange(r@[i].0 as int, r@[i].1 as int) == tokens(s@)[i]
            },
{
    let mut r: Vec<(usize, usize)> = Vec::new();
    let mut pos: usize = 0;
    let ghost mut found: Seq<Seq<char>> = seq![];
    assert(s@.subrange(0, s.len() as int) =~= s@);
    while pos < s.len()
        invariant
            pos <= s.len(),
            tokens(s@) == found + tokens(s@.subrange(pos as int, s.len() as int)),
            r@.len() == found.len(),
            forall|i: int|
                #![trigger r@[i]]
                0 <= i < r@.len() ==> {
                    &&& r@[i].0 <= r@[i].1
                    &&& r@[i].1 <= s.len()
                    &&& s@.subrange(r@[i].0 as int, r@[i].1 as int) == found[i]
                },
        decreases s.len() - pos,
    {
        let ghost rest = s@.subrange(pos as int, s.len() as int);
        if is_whitespace(s[pos]) {
            assert(rest.drop_first() =~= s@.subrange(pos + 1, s.len() as int));
            pos += 1;
        } else {
            let mut j = pos + 1;
            while j < s.len() && !is_whitespace(s[j])
                invariant
                    pos < j <= s.len(),
                    forall|i: int| pos <= i < j ==> !is_space(s@[i]),
                decreases s.len() - j,
            {
                j += 1;
            }
            let ghost old_r = r@;
            r.push((pos, j));
            proof {
                lemma_token_len(rest, j - pos);
                assert(rest.subrange(0, j - pos) =~= s@.subrange(pos as int, j as int));
                assert(rest.subrange(j - pos, rest.len() as int) =~= s@.subrange(
                    j as int,
                    s.len() as int,
                ));
                assert(tokens(rest) == seq![s@.subrange(pos as int, j as int)] + tokens(
                    s@.subrange(j as int, s.len() as int),
                ));
                let old_found = found;
                found = found.push(s@.subrange(pos as int, j as int));
                assert(tokens(s@) =~= found + tokens(s@.subrange(j as int, s.len() as int)));
                assert forall|i: int| #![trigger r@[i]] 0 <= i < r@.len() implies {
                    &&& r@[i].0 <= r@[i].1
                    &&& r@[i].1 <= s.len()
                    &&& s@.subrange(r@[i].0 as int, r@[i].1 as int) == found[i]
                } by {
                    if i < old_found.len() {
                        assert(r@[i] == old_r[i]);
                        assert(found[i] == old_found[i]);
                    }
                }
            }
            pos = j;
        }
    }
    assert(tokens(s@.subrange(pos as int, s.len() as int)) =~= seq![]);
    assert(tokens(s@) =~= found);
    r
}

/// Value of a hexadecimal digit.
pub open spec fn hex_digit_value(c: char) -> Option<nat> {
    if '0' <= c <= '9' {
        Some((c as nat - '0' as nat) as nat)
    } else if 'a' <= c <= 'f' {
        Some((c as nat - 'a' as nat + 10) as nat)
    } else if 'A' <= c <= 'F' {
        Some((c as nat - 'A' as nat + 10) as nat)
    } else {
        None
    }
}

/// Whether every character of `s` is a hexadecimal digit.
pub open spec fn all_hex(s: Seq<char>) -> bool {
    forall|i: int| 0 <= i < s.len() ==> (#[trigger] hex_digit_value(s[i])) is Some
}

/// Value of a string of hexadecimal digits.
pub open spec fn hex_value(s: Seq<char>) -> nat
    decreases s.len(),
{
    if s.len() == 0 {
        0
    } else {
        hex_value(s.drop_last()) * 16 + match hex_digit_value(s.last()) {
            Some(d) => d,
            None => 0,
        }
    }
}

/// What `usize::from_str_radix(s, 16)` gives: an optional `+` sign, then at
/// least one hexadecimal digit (either case) and nothing else, with a value
/// that fits in `usize`.
pub open spec fn parse_hex_usize(s: Seq<char>) -> Option<usize> {
    let d = if s.len() > 0 && s[0] == '+' {
        s.drop_first()
    } else {
        s
    };
    if d.len() > 0 && all_hex(d) && hex_value(d) <= usize::MAX {
        Some(hex_value(d) as usize)
    } else {
        None
    }
}

fn hex_digit(c: char) -> (r: Option<usize>)
    ensures
        match hex_digit_value(c) {
            Some(d) => r == Some(d as usize),
            None => r is None,
        },
{
    if '0' <= c && c <= '9' {
        Some((c as u32 - '0' as u32) as usize)
    } else if 'a' <= c && c <= 'f' {
        Some((c as u32 - 'a' as u32 + 10) as usize)
    } else if 'A' <= c && c <= 'F' {
        Some((c as u32 - 'A' as u32 + 10) as usize)
    } else {
        None
    }
}

/// Parses `s[start..end]` the way `usize::from_str_radix(_, 16)` does.
pub fn parse_hex_range(s: &Vec<char>, start: usize, end: usize) -> (r: Option<usize>)
    requires
        start <= end <= s.len(),
    ensures
        r == parse_hex_usize(s@.subrange(start as int, end as int)),
{
    let ghost whole = s@.subrange(start as int, end as int);
    let mut i = start;
    if i < end && s[i] == '+' {
        i += 1;
    }
    let ghost d = s@.subrange(i as int, end as int);
    assert(d =~= (if whole.len() > 0 && whole[0] == '+' {
        whole.drop_first()
    } else {
        whole
    }));
    if i == end {
        return None;
    }
    let first = i;
    let mut value: usize = 0;
    let mut overflow = false;
    while i < end
        invariant
            start <= first <= i <= end <= s.len(),
            d == s@.subrange(first as int, end as int),
            whole == s@.subrange(start as int, end as int),
            d == (if whole.len() > 0 && whole[0] == '+' {
                whole.drop_first()
            } else {
                whole
            }),
            !overflow ==> value == hex_value(s@.subrange(first as int, i as int)),
            overflow ==> hex_value(s@.subrange(first as int, i as int)) > usize::MAX,
            all_hex(s@.subrange(first as int, i as int)),
        decreases end - i,
    {
        let c = s[i];
        let ghost pre = s@.subrange(first as int, i as int);
        let ghost next = s@.subrange(first as int, i + 1);
        assert(next.drop_last() =~= pre);
        match hex_digit(c) {
            None => {
                assert(d[i - first] == c);
                assert(!all_hex(d));
                assert(parse_hex_usize(whole) is None);
                return None;
            },
            Some(digit) => {
                if !overflow {
                    if value > (usize::MAX - digit) / 16 {
                        overflow = true;
                    } else {
                        value = value * 16 + digit;
                    }
                }
            },
        }
        i += 1;
    }
    assert(s@.subrange(first as int, end as int) =~= d);
    if overflow {
        None
    } else {
        Some(value)
    }
}

/// Words joined with single spaces.
pub open spec fn join_spaces(ws: Seq<Seq<char>>) -> Seq<char>
    decreases ws.len(),
{
    if ws.len() == 0 {
        seq![]
    } else if ws.len() == 1 {
        ws[0]
    } else {
        join_spaces(ws.drop_last()) + seq![' '] + ws.last()
    }
}

} // verus!
