//! Character-level text model: the specifications every formatting and
//! parsing routine of the dashboard is stated in, and the small verified
//! routines that implement them.
use vstd::prelude::*;
use vstd::string::*;

verus! {

/// Unicode `White_Space` code points, the set `str::trim` removes.
pub open spec fn is_white_space(c: char) -> bool {
    ||| ('\u{9}' <= c && c <= '\u{d}')
    ||| c == ' '
    ||| c == '\u{85}'
    ||| c == '\u{a0}'
    ||| c == '\u{1680}'
    ||| ('\u{2000}' <= c && c <= '\u{200a}')
    ||| c == '\u{2028}'
    ||| c == '\u{2029}'
    ||| c == '\u{202f}'
    ||| c == '\u{205f}'
    ||| c == '\u{3000}'
}

pub open spec fn trim_start(s: Seq<char>) -> Seq<char>
    decreases s.len(),
{
    if s.len() > 0 && is_white_space(s[0]) {
        trim_start(s.drop_first())
    } else {
        s
    }
}

pub open spec fn trim_end(s: Seq<char>) -> Seq<char>
    decreases s.len(),
{
    if s.len() > 0 && is_white_space(s.last()) {
        trim_end(s.drop_last())
    } else {
        s
    }
}

/// `s` without its leading and trailing white space.
pub open spec fn trim(s: Seq<char>) -> Seq<char> {
    trim_end(trim_start(s))
}

fn is_white_space_char(c: char) -> (r: bool)
    ensures
        r == is_white_space(c),
{
    ('\u{9}' <= c && c <= '\u{d}') || c == ' ' || c == '\u{85}' || c == '\u{a0}' || c == '\u{1680}'
        || ('\u{2000}' <= c && c <= '\u{200a}') || c == '\u{2028}' || c == '\u{2029}' || c == '\u{202f}'
        || c == '\u{205f}' || c == '\u{3000}'
}

proof fn lemma_trim_start_at(s: Seq<char>, a: int)
    requires
        0 <= a <= s.len(),
        forall|i: int| 0 <= i < a ==> is_white_space(#[trigger] s[i]),
        a == s.len() || !is_white_space(s[a]),
    ensures
        trim_start(s) == s.skip(a),
{
    assert(s =~= s.take(a) + s.skip(a));
    assert forall|i: int| 0 <= i < s.take(a).len() implies is_white_space(#[trigger] s.take(a)[i]) by {
        assert(s.take(a)[i] == s[i]);
    }
    lemma_trim_start_skips_white(s.take(a), s.skip(a));
    if a < s.len() {
        assert(s.skip(a)[0] == s[a]);
    }
}

proof fn lemma_trim_end_at(x: Seq<char>, b: int)
    requires
        0 <= b <= x.len(),
        forall|i: int| b <= i < x.len() ==> is_white_space(#[trigger] x[i]),
        b == 0 || !is_white_space(x[b - 1]),
    ensures
        trim_end(x) == x.take(b),
{
    assert(x =~= x.take(b) + x.skip(b));
    assert forall|i: int| 0 <= i < x.skip(b).len() implies is_white_space(#[trigger] x.skip(b)[i]) by {
        assert(x.skip(b)[i] == x[b + i]);
    }
    lemma_trim_end_skips_white(x.take(b), x.skip(b));
    if b > 0 {
        assert(x.take(b).last() == x[b - 1]);
    }
}

/// `s` without its leading and trailing white space (`str::trim`).
pub(crate) fn trim_text<'a>(s: &'a str) -> (r: &'a str)
    ensures
        r@ == trim(s@),
{
    let n = s.unicode_len();
    let mut a: usize = 0;
    loop
        invariant
            n == s@.len(),
            a <= n,
            forall|i: int| 0 <= i < a ==> is_white_space(#[trigger] s@[i]),
        ensures
            a <= n,
            forall|i: int| 0 <= i < a ==> is_white_space(#[trigger] s@[i]),
            a == n || !is_white_space(s@[a as int]),
        decreases n - a,
    {
        if a == n {
            break;
        }
        if !is_white_space_char(s.get_char(a)) {
            break;
        }
        a = a + 1;
    }
    let mut b: usize = n;
    loop
        invariant
            n == s@.len(),
            a <= b <= n,
            forall|i: int| b <= i < n ==> is_white_space(#[trigger] s@[i]),
        ensures
            a <= b <= n,
            forall|i: int| b <= i < n ==> is_white_space(#[trigger] s@[i]),
            b == a || !is_white_space(s@[b - 1]),
        decreases b,
    {
        if b == a {
            break;
        }
        if !is_white_space_char(s.get_char(b - 1)) {
            break;
        }
        b = b - 1;
    }
    proof {
        lemma_trim_start_at(s@, a as int);
        let x = s@.skip(a as int);
        assert forall|i: int| b - a <= i < x.len() implies is_white_space(#[trigger] x[i]) by {
            assert(x[i] == s@[a + i]);
        }
        if b > a {
            assert(x[b - a - 1] == s@[b - 1]);
        }
        lemma_trim_end_at(x, b - a);
        assert(x.take(b - a) =~= s@.subrange(a as int, b as int));
    }
    s.substring_char(a, b)
}

pub open spec fn is_ascii_lower(c: char) -> bool {
    'a' <= c && c <= 'z'
}

pub open spec fn is_ascii_upper(c: char) -> bool {
    'A' <= c && c <= 'Z'
}

pub open spec fn is_digit(c: char) -> bool {
    '0' <= c && c <= '9'
}

/// ASCII upper-casing of one character; every other character is kept.
pub open spec fn ascii_upper(c: char) -> char {
    if is_ascii_lower(c) {
        ((c as u32) - 32) as char
    } else {
        c
    }
}

/// ASCII upper-casing of a whole text.
pub open spec fn upper(s: Seq<char>) -> Seq<char> {
    s.map_values(|c: char| ascii_upper(c))
}

fn ascii_upper_char(c: char) -> (r: char)
    ensures
        r == ascii_upper(c),
{
    if 'a' <= c && c <= 'z' {
        ((c as u32 - 32) as u8) as char
    } else {
        c
    }
}

/// ASCII upper-casing of a text (`str::to_ascii_uppercase`).
pub(crate) fn upper_text(s: &str) -> (r: String)
    ensures
        r@ == upper(s@),
{
    let n = s.unicode_len();
    let mut r = String::new();
    let mut i: usize = 0;
    while i < n
        invariant
            n == s@.len(),
            i <= n,
            r@ == upper(s@.take(i as int)),
        decreases n - i,
    {
        let c = s.get_char(i);
        push_char(&mut r, ascii_upper_char(c));
        assert(upper(s@.take(i + 1)) =~= upper(s@.take(i as int)).push(ascii_upper(c)));
        i = i + 1;
    }
    assert(s@.take(n as int) =~= s@);
    r
}

/// Calls `String::push`, which appends one character.
#[verifier::external_body]
pub(crate) fn push_char(s: &mut String, c: char)
    ensures
        final(s)@ == old(s)@.push(c),
{
    s.push(c)
}

/// Value of a decimal digit character.
pub open spec fn digit_value(c: char) -> int {
    if c == '0' {
        0
    } else if c == '1' {
        1
    } else if c == '2' {
        2
    } else if c == '3' {
        3
    } else if c == '4' {
        4
    } else if c == '5' {
        5
    } else if c == '6' {
        6
    } else if c == '7' {
        7
    } else if c == '8' {
        8
    } else {
        9
    }
}

pub proof fn lemma_digits_value_nonneg(s: Seq<char>)
    ensures
        digits_value(s) >= 0,
    decreases s.len(),
{
    if s.len() > 0 {
        lemma_digits_value_nonneg(s.drop_last());
    }
}

/// Literals read without a sign denote natural numbers.
pub proof fn lemma_unsigned_literal_nonneg(s: Seq<char>)
    ensures
        integer_literal(s, false) matches Some(v) ==> v >= 0,
{
    lemma_digits_value_nonneg(s);
    if s.len() > 0 {
        lemma_digits_value_nonneg(s.drop_first());
    }
}

pub open spec fn all_digits(s: Seq<char>) -> bool {
    forall|i: int| 0 <= i < s.len() ==> is_digit(#[trigger] s[i])
}

/// Value of a string of decimal digits, most significant first.
pub open spec fn digits_value(s: Seq<char>) -> int
    decreases s.len(),
{
    if s.len() == 0 {
        0
    } else {
        digits_value(s.drop_last()) * 10 + digit_value(s.last())
    }
}

/// The integer that a decimal literal denotes: an optional `+` (or `-`, when
/// `signed`) followed by at least one digit and nothing else.
pub open spec fn integer_literal(s: Seq<char>, signed: bool) -> Option<int> {
    if s.len() == 0 {
        None
    } else if s[0] == '+' || (signed && s[0] == '-') {
        let rest = s.drop_first();
        if rest.len() > 0 && all_digits(rest) {
            if s[0] == '-' {
                Some(-digits_value(rest))
            } else {
                Some(digits_value(rest))
            }
        } else {
            None
        }
    } else if all_digits(s) {
        Some(digits_value(s))
    } else {
        None
    }
}

fn digit_value_exec(c: char) -> (d: u64)
    requires
        is_digit(c),
    ensures
        d == digit_value(c),
        d < 10,
{
    if c == '0' {
        0
    } else if c == '1' {
        1
    } else if c == '2' {
        2
    } else if c == '3' {
        3
    } else if c == '4' {
        4
    } else if c == '5' {
        5
    } else if c == '6' {
        6
    } else if c == '7' {
        7
    } else if c == '8' {
        8
    } else {
        9
    }
}

proof fn lemma_digits_value_prefix_le(t: Seq<char>, k: int)
    requires
        0 <= k <= t.len(),
    ensures
        digits_value(t.take(k)) <= digits_value(t),
    decreases t.len() - k,
{
    if k < t.len() {
        lemma_digits_value_prefix_le(t, k + 1);
        assert(t.take(k + 1).drop_last() =~= t.take(k));
        lemma_digits_value_nonneg(t.take(k));
        assert(digit_value(t.take(k + 1).last()) >= 0);
    } else {
        assert(t.take(k) =~= t);
    }
}

/// The value of the digits of `s` from position `from` on, when they are at
/// least one digit, all digits, and their value does not exceed `bound`.
fn parse_digits(s: &str, from: usize, bound: u64) -> (r: Option<u64>)
    requires
        from <= s@.len(),
    ensures
        r is Some <==> (from < s@.len() && all_digits(s@.skip(from as int)) && digits_value(s@.skip(from as int)) <= bound),
        r matches Some(v) ==> v == digits_value(s@.skip(from as int)),
{
    let n = s.unicode_len();
    if from == n {
        return None;
    }
    let ghost t = s@.skip(from as int);
    let mut value: u128 = 0;
    let mut i: usize = from;
    assert(t.take(0) =~= Seq::<char>::empty());
    while i < n
        invariant
            n == s@.len(),
            from < n,
            from <= i <= n,
            t == s@.skip(from as int),
            all_digits(t.take(i - from)),
            value == digits_value(t.take(i - from)),
            value <= bound,
        decreases n - i,
    {
        let c = s.get_char(i);
        assert(t[i - from] == c);
        if !('0' <= c && c <= '9') {
            assert(!all_digits(t));
            return None;
        }
        let d = digit_value_exec(c);
        let next: u128 = value * 10 + d as u128;
        assert(t.take(i + 1 - from).drop_last() =~= t.take(i - from));
        assert(t.take(i + 1 - from).last() == c);
        if next > bound as u128 {
            proof {
                lemma_digits_value_prefix_le(t, i + 1 - from);
            }
            return None;
        }
        value = next;
        i = i + 1;
        assert forall|k: int| 0 <= k < t.take(i - from).len() implies is_digit(#[trigger] t.take(i - from)[k]) by {
            if k < i - 1 - from {
                assert(t.take(i - from)[k] == t.take(i - 1 - from)[k]);
            }
        }
    }
    assert(t.take(n - from) =~= t);
    Some(value as u64)
}

/// Reads a decimal `u32` (`<u32 as FromStr>::from_str`): an optional `+`
/// and decimal digits only, with out-of-range values refused.
pub(crate) fn parse_u32(s: &str) -> (r: Option<u32>)
    ensures
        r == (match integer_literal(s@, false) {
            Some(v) => if v <= u32::MAX { Some(v as u32) } else { None },
            None => None,
        }),
{
    if s.unicode_len() == 0 {
        return None;
    }
    let from: usize = if s.get_char(0) == '+' { 1 } else { 0 };
    assert(s@.skip(1) =~= s@.drop_first());
    assert(s@.skip(0) =~= s@);
    match parse_digits(s, from, 0xffff_ffff) {
        Some(v) => Some(v as u32),
        None => None,
    }
}

/// Reads a decimal `usize` (`<usize as FromStr>::from_str`): an optional
/// `+` and decimal digits only, with out-of-range values refused.
pub(crate) fn parse_usize(s: &str) -> (r: Option<usize>)
    ensures
        r == (match integer_literal(s@, false) {
            Some(v) => if v <= usize::MAX { Some(v as usize) } else { None },
            None => None,
        }),
{
    if s.unicode_len() == 0 {
        return None;
    }
    let from: usize = if s.get_char(0) == '+' { 1 } else { 0 };
    assert(s@.skip(1) =~= s@.drop_first());
    assert(s@.skip(0) =~= s@);
    match parse_digits(s, from, usize::MAX as u64) {
        Some(v) => Some(v as usize),
        None => None,
    }
}

/// Reads a decimal `i32` (`<i32 as FromStr>::from_str`): an optional sign
/// and decimal digits only, with out-of-range values refused.
pub(crate) fn parse_i32(s: &str) -> (r: Option<i32>)
    ensures
        r == (match integer_literal(s@, true) {
            Some(v) => if i32::MIN <= v <= i32::MAX { Some(v as i32) } else { None },
            None => None,
        }),
{
    if s.unicode_len() == 0 {
        return None;
    }
    let first = s.get_char(0);
    assert(s@.skip(1) =~= s@.drop_first());
    assert(s@.skip(0) =~= s@);
    proof {
        lemma_digits_value_nonneg(s@);
        lemma_digits_value_nonneg(s@.drop_first());
    }
    if first == '-' {
        match parse_digits(s, 1, 0x8000_0000) {
            Some(v) => Some((0i64 - v as i64) as i32),
            None => None,
        }
    } else {
        let from: usize = if first == '+' { 1 } else { 0 };
        match parse_digits(s, from, 0x7fff_ffff) {
            Some(v) => Some(v as i32),
            None => None,
        }
    }
}

pub open spec fn digit_char(d: int) -> char {
    if d == 0 {
        '0'
    } else if d == 1 {
        '1'
    } else if d == 2 {
        '2'
    } else if d == 3 {
        '3'
    } else if d == 4 {
        '4'
    } else if d == 5 {
        '5'
    } else if d == 6 {
        '6'
    } else if d == 7 {
        '7'
    } else if d == 8 {
        '8'
    } else {
        '9'
    }
}

/// Decimal digits of a natural number, without leading zeros.
pub open spec fn nat_text(n: nat) -> Seq<char>
    decreases n,
{
    if n < 10 {
        seq![digit_char(n as int)]
    } else {
        nat_text(n / 10) + seq![digit_char((n % 10) as int)]
    }
}

/// Decimal text of an integer, with a leading `-` when it is negative.
pub open spec fn int_text(n: int) -> Seq<char> {
    if n < 0 {
        seq!['-'] + nat_text((-n) as nat)
    } else {
        nat_text(n as nat)
    }
}

fn digit_char_exec(d: u32) -> (c: char)
    requires
        d < 10,
    ensures
        c == digit_char(d as int),
{
    if d == 0 {
        '0'
    } else if d == 1 {
        '1'
    } else if d == 2 {
        '2'
    } else if d == 3 {
        '3'
    } else if d == 4 {
        '4'
    } else if d == 5 {
        '5'
    } else if d == 6 {
        '6'
    } else if d == 7 {
        '7'
    } else if d == 8 {
        '8'
    } else {
        '9'
    }
}

/// Decimal text of a natural number (`u32::to_string`).
pub(crate) fn u32_text(n: u32) -> (r: String)
    ensures
        r@ == nat_text(n as nat),
    decreases n,
{
    if n < 10 {
        let mut r = String::new();
        push_char(&mut r, digit_char_exec(n));
        assert(r@ =~= nat_text(n as nat));
        r
    } else {
        let mut r = u32_text(n / 10);
        push_char(&mut r, digit_char_exec(n % 10));
        assert(r@ =~= nat_text(n as nat));
        r
    }
}

/// Decimal text of an integer, `-` first when negative (`i32::to_string`).
pub(crate) fn i32_text(n: i32) -> (r: String)
    ensures
        r@ == int_text(n as int),
{
    if n < 0 {
        let magnitude: u32 = (0i64 - n as i64) as u32;
        let mut r = String::new();
        push_char(&mut r, '-');
        let digits = u32_text(magnitude);
        r.append(digits.as_str());
        assert(r@ =~= int_text(n as int));
        r
    } else {
        u32_text(n as u32)
    }
}

/// Strict lexicographic order of texts by Unicode code point, which is the
/// order of their UTF-8 bytes.
pub open spec fn text_lt(a: Seq<char>, b: Seq<char>) -> bool
    decreases a.len(),
{
    if a.len() == 0 {
        b.len() > 0
    } else if b.len() == 0 {
        false
    } else if a[0] != b[0] {
        a[0] < b[0]
    } else {
        text_lt(a.drop_first(), b.drop_first())
    }
}

pub proof fn lemma_text_lt_irreflexive(a: Seq<char>)
    ensures
        !text_lt(a, a),
    decreases a.len(),
{
    if a.len() > 0 {
        lemma_text_lt_irreflexive(a.drop_first());
    }
}

pub proof fn lemma_text_lt_asymmetric(a: Seq<char>, b: Seq<char>)
    requires
        text_lt(a, b),
    ensures
        !text_lt(b, a),
    decreases a.len(),
{
    if a.len() > 0 && b.len() > 0 && a[0] == b[0] {
        lemma_text_lt_asymmetric(a.drop_first(), b.drop_first());
    }
}

pub proof fn lemma_text_lt_transitive(a: Seq<char>, b: Seq<char>, c: Seq<char>)
    requires
        text_lt(a, b),
        text_lt(b, c),
    ensures
        text_lt(a, c),
    decreases a.len(),
{
    if a.len() > 0 && b.len() > 0 && c.len() > 0 && a[0] == b[0] && b[0] == c[0] {
        lemma_text_lt_transitive(a.drop_first(), b.drop_first(), c.drop_first());
    }
}

pub proof fn lemma_text_lt_total(a: Seq<char>, b: Seq<char>)
    requires
        a != b,
    ensures
        text_lt(a, b) || text_lt(b, a),
    decreases a.len(),
{
    if a.len() > 0 && b.len() > 0 && a[0] == b[0] {
        if a.drop_first() == b.drop_first() {
            assert(a =~= seq![a[0]] + a.drop_first());
            assert(b =~= seq![b[0]] + b.drop_first());
        }
        lemma_text_lt_total(a.drop_first(), b.drop_first());
    } else if a.len() == 0 && b.len() == 0 {
        assert(a =~= b);
    }
}

/// Texts that agree on their first `i` characters compare as their rests do.
proof fn lemma_text_lt_common_prefix(a: Seq<char>, b: Seq<char>, i: int)
    requires
        0 <= i <= a.len(),
        i <= b.len(),
        forall|j: int| 0 <= j < i ==> a[j] == b[j],
    ensures
        text_lt(a, b) == text_lt(a.skip(i), b.skip(i)),
    decreases i,
{
    if i > 0 {
        assert(a.drop_first().skip(i - 1) =~= a.skip(i));
        assert(b.drop_first().skip(i - 1) =~= b.skip(i));
        lemma_text_lt_common_prefix(a.drop_first(), b.drop_first(), i - 1);
    } else {
        assert(a.skip(0) =~= a);
        assert(b.skip(0) =~= b);
    }
}

/// Three-way comparison of two texts in code point order: negative, zero or
/// positive as `a` comes before, equals or comes after `b`.
pub fn compare_text(a: &str, b: &str) -> (r: i8)
    ensures
        r < 0 <==> text_lt(a@, b@),
        r == 0 <==> a@ == b@,
        r > 0 <==> text_lt(b@, a@),
{
    let n = a.unicode_len();
    let m = b.unicode_len();
    let mut i: usize = 0;
    while i < n && i < m
        invariant
            n == a@.len(),
            m == b@.len(),
            i <= n,
            i <= m,
            forall|j: int| 0 <= j < i ==> a@[j] == b@[j],
        decreases n - i,
    {
        let x = a.get_char(i);
        let y = b.get_char(i);
        if x != y {
            proof {
                lemma_text_lt_common_prefix(a@, b@, i as int);
                lemma_text_lt_common_prefix(b@, a@, i as int);
                assert(a@.skip(i as int)[0] == x);
                assert(b@.skip(i as int)[0] == y);
            }
            if x < y {
                return -1;
            } else {
                return 1;
            }
        }
        i = i + 1;
    }
    proof {
        lemma_text_lt_common_prefix(a@, b@, i as int);
        lemma_text_lt_common_prefix(b@, a@, i as int);
    }
    if n == m {
        assert(a@ =~= b@);
        proof {
            lemma_text_lt_irreflexive(a@);
        }
        0
    } else if i == n {
        assert(a@ != b@);
        -1
    } else {
        assert(a@ != b@);
        1
    }
}

/// Whether two texts hold the same characters.
pub fn text_eq(a: &str, b: &str) -> (r: bool)
    ensures
        r == (a@ == b@),
{
    compare_text(a, b) == 0
}

pub open spec fn spaces(n: nat) -> Seq<char> {
    Seq::new(n, |i: int| ' ')
}

/// `s` followed by spaces up to `w` characters (left-aligned in a column of width `w`).
pub open spec fn pad_right(s: Seq<char>, w: nat) -> Seq<char> {
    if s.len() >= w {
        s
    } else {
        s + spaces((w - s.len()) as nat)
    }
}

/// `s` preceded by spaces up to `w` characters (right-aligned in a column of width `w`).
pub open spec fn pad_left(s: Seq<char>, w: nat) -> Seq<char> {
    if s.len() >= w {
        s
    } else {
        spaces((w - s.len()) as nat) + s
    }
}

/// Appends `count` spaces.
fn push_spaces(s: &mut String, count: usize)
    ensures
        final(s)@ == old(s)@ + spaces(count as nat),
{
    let mut k: usize = 0;
    while k < count
        invariant
            k <= count,
            s@ == old(s)@ + spaces(k as nat),
        decreases count - k,
    {
        push_char(s, ' ');
        k = k + 1;
        assert(s@ =~= old(s)@ + spaces(k as nat));
    }
}

/// Left-aligns `s` in a column of `w` characters.
pub fn pad_right_text(s: &str, w: usize) -> (r: String)
    ensures
        r@ == pad_right(s@, w as nat),
{
    let mut r = s.to_owned();
    let n = s.unicode_len();
    if n < w {
        push_spaces(&mut r, w - n);
    } else {
        assert(r@ == s@);
    }
    r
}

/// Right-aligns `s` in a column of `w` characters.
pub fn pad_left_text(s: &str, w: usize) -> (r: String)
    ensures
        r@ == pad_left(s@, w as nat),
{
    let n = s.unicode_len();
    let mut r = String::new();
    if n < w {
        push_spaces(&mut r, w - n);
    }
    r.append(s);
    assert(r@ =~= pad_left(s@, w as nat));
    r
}

/// Whether `pat` occurs in `s` starting at character `i`.
pub open spec fn occurs_at(s: Seq<char>, pat: Seq<char>, i: int) -> bool {
    0 <= i && i + pat.len() <= s.len() && s.subrange(i, i + pat.len()) == pat
}

pub open spec fn rfind_from(s: Seq<char>, pat: Seq<char>, k: int) -> Option<int>
    decreases k + 1,
{
    if k < 0 {
        None
    } else if occurs_at(s, pat, k) {
        Some(k)
    } else {
        rfind_from(s, pat, k - 1)
    }
}

/// Start of the last occurrence of `pat` in `s`.
pub open spec fn last_occurrence(s: Seq<char>, pat: Seq<char>) -> Option<int> {
    rfind_from(s, pat, s.len() - pat.len())
}

pub open spec fn find_char_from(s: Seq<char>, c: char, k: int) -> Option<int>
    decreases s.len() - k,
{
    if k < 0 || k >= s.len() {
        None
    } else if s[k] == c {
        Some(k)
    } else {
        find_char_from(s, c, k + 1)
    }
}

/// Index of the first `c` in `s`.
pub open spec fn first_index_of(s: Seq<char>, c: char) -> Option<int> {
    find_char_from(s, c, 0)
}

fn occurs_at_exec(s: &str, pat: &str, k: usize) -> (r: bool)
    requires
        k + pat@.len() <= s@.len(),
    ensures
        r == occurs_at(s@, pat@, k as int),
{
    let n = s.unicode_len();
    let m = pat.unicode_len();
    let mut j: usize = 0;
    while j < m
        invariant
            n == s@.len(),
            m == pat@.len(),
            k + m <= s@.len(),
            j <= m,
            forall|t: int| 0 <= t < j ==> s@[k + t] == pat@[t],
        decreases m - j,
    {
        if s.get_char(k + j) != pat.get_char(j) {
            assert(s@.subrange(k as int, k + m)[j as int] != pat@[j as int]);
            return false;
        }
        j = j + 1;
    }
    assert(s@.subrange(k as int, k + m) =~= pat@);
    true
}

/// Start of the last occurrence of `pat` in `s` (`str::rfind`, counted in characters).
pub fn last_occurrence_of(s: &str, pat: &str) -> (r: Option<usize>)
    ensures
        r matches Some(i) ==> last_occurrence(s@, pat@) == Some(i as int),
        r is None ==> last_occurrence(s@, pat@) is None,
{
    let n = s.unicode_len();
    let m = pat.unicode_len();
    if m > n {
        return None;
    }
    let mut k: usize = n - m;
    loop
        invariant
            n == s@.len(),
            m == pat@.len(),
            m <= n,
            k <= n - m,
            rfind_from(s@, pat@, (n - m) as int) == rfind_from(s@, pat@, k as int),
        decreases k,
    {
        if occurs_at_exec(s, pat, k) {
            return Some(k);
        }
        if k == 0 {
            assert(rfind_from(s@, pat@, -1) is None);
            return None;
        }
        k = k - 1;
    }
}

/// Index of the first `c` in `s` (`str::find` of a character, counted in characters).
pub fn first_index_of_char(s: &str, c: char) -> (r: Option<usize>)
    ensures
        r matches Some(i) ==> first_index_of(s@, c) == Some(i as int),
        r is None ==> first_index_of(s@, c) is None,
{
    let n = s.unicode_len();
    let mut k: usize = 0;
    while k < n
        invariant
            n == s@.len(),
            k <= n,
            first_index_of(s@, c) == find_char_from(s@, c, k as int),
        decreases n - k,
    {
        if s.get_char(k) == c {
            return Some(k);
        }
        k = k + 1;
    }
    None
}


pub proof fn lemma_rfind_from_occurs(s: Seq<char>, pat: Seq<char>, k: int)
    ensures
        rfind_from(s, pat, k) matches Some(i) ==> occurs_at(s, pat, i) && i <= k,
    decreases k + 1,
{
    if k >= 0 && !occurs_at(s, pat, k) {
        lemma_rfind_from_occurs(s, pat, k - 1);
    }
}

/// The search from `k` downward finds `p` when `pat` occurs at `p` and at no
/// position after it up to `k`.
pub proof fn lemma_rfind_from_finds(s: Seq<char>, pat: Seq<char>, k: int, p: int)
    requires
        0 <= p <= k,
        occurs_at(s, pat, p),
        forall|j: int| p < j <= k ==> !occurs_at(s, pat, j),
    ensures
        rfind_from(s, pat, k) == Some(p),
    decreases k - p,
{
    if k > p {
        lemma_rfind_from_finds(s, pat, k - 1, p);
    }
}

pub proof fn lemma_find_char_from_bounds(s: Seq<char>, c: char, k: int)
    ensures
        find_char_from(s, c, k) matches Some(i) ==> k <= i < s.len() && s[i] == c,
    decreases s.len() - k,
{
    if 0 <= k < s.len() && s[k] != c {
        lemma_find_char_from_bounds(s, c, k + 1);
    }
}


pub proof fn lemma_digit_char_value(d: int)
    requires
        0 <= d <= 9,
    ensures
        is_digit(digit_char(d)),
        digit_value(digit_char(d)) == d,
{
}

/// Decimal text reads back as the number it was written from.
pub proof fn lemma_nat_text_digits(n: nat)
    ensures
        nat_text(n).len() >= 1,
        all_digits(nat_text(n)),
        digits_value(nat_text(n)) == n,
    decreases n,
{
    let t = nat_text(n);
    if n < 10 {
        lemma_digit_char_value(n as int);
        assert(t.drop_last() =~= Seq::<char>::empty());
        assert(digits_value(t.drop_last()) == 0);
        assert(t.last() == digit_char(n as int));
    } else {
        lemma_nat_text_digits(n / 10);
        lemma_digit_char_value((n % 10) as int);
        assert(t.drop_last() =~= nat_text(n / 10));
        assert(t.last() == digit_char((n % 10) as int));
        assert(digits_value(t) == digits_value(nat_text(n / 10)) * 10 + digit_value(t.last()));
        assert((n / 10) * 10 + n % 10 == n);
        assert forall|i: int| 0 <= i < t.len() implies is_digit(#[trigger] t[i]) by {
            if i < t.len() - 1 {
                assert(t[i] == nat_text(n / 10)[i]);
            }
        }
    }
}

/// An unsigned literal of digits only denotes their value.
pub proof fn lemma_digits_literal(s: Seq<char>, signed: bool)
    requires
        s.len() >= 1,
        all_digits(s),
    ensures
        integer_literal(s, signed) == Some(digits_value(s)),
{
    assert(is_digit(s[0]));
}



/// Every character of `w` is white space.
pub open spec fn all_white(w: Seq<char>) -> bool {
    forall|i: int| 0 <= i < w.len() ==> is_white_space(#[trigger] w[i])
}

pub proof fn lemma_trim_start_skips_white(w: Seq<char>, x: Seq<char>)
    requires
        all_white(w),
    ensures
        trim_start(w + x) == trim_start(x),
    decreases w.len(),
{
    if w.len() > 0 {
        assert((w + x)[0] == w[0]);
        assert((w + x).drop_first() =~= w.drop_first() + x);
        lemma_trim_start_skips_white(w.drop_first(), x);
    } else {
        assert(w + x =~= x);
    }
}

pub proof fn lemma_trim_end_skips_white(x: Seq<char>, w: Seq<char>)
    requires
        all_white(w),
    ensures
        trim_end(x + w) == trim_end(x),
    decreases w.len(),
{
    if w.len() > 0 {
        assert((x + w).last() == w.last());
        assert((x + w).drop_last() =~= x + w.drop_last());
        lemma_trim_end_skips_white(x, w.drop_last());
    } else {
        assert(x + w =~= x);
    }
}

proof fn lemma_trim_start_append(x: Seq<char>, y: Seq<char>)
    ensures
        trim_start(x + y) == if trim_start(x).len() > 0 {
            trim_start(x) + y
        } else {
            trim_start(y)
        },
    decreases x.len(),
{
    if x.len() == 0 {
        assert(x + y =~= y);
    } else {
        assert((x + y)[0] == x[0]);
        if is_white_space(x[0]) {
            assert((x + y).drop_first() =~= x.drop_first() + y);
            lemma_trim_start_append(x.drop_first(), y);
        }
    }
}

/// White space around a text does not change its trimmed form.
pub proof fn lemma_trim_surrounding(w1: Seq<char>, x: Seq<char>, w2: Seq<char>)
    requires
        all_white(w1),
        all_white(w2),
    ensures
        trim(w1 + x + w2) == trim(x),
{
    assert(w1 + x + w2 =~= w1 + (x + w2));
    lemma_trim_start_skips_white(w1, x + w2);
    lemma_trim_start_append(x, w2);
    if trim_start(x).len() > 0 {
        lemma_trim_end_skips_white(trim_start(x), w2);
    } else {
        lemma_trim_start_skips_white(w2, Seq::<char>::empty());
        assert(w2 + Seq::<char>::empty() =~= w2);
        assert(trim_start(x) =~= Seq::<char>::empty());
        assert(trim_start(w2) =~= Seq::<char>::empty());
    }
}

proof fn lemma_trim_start_first(x: Seq<char>)
    ensures
        trim_start(x).len() > 0 ==> !is_white_space(trim_start(x)[0]),
    decreases x.len(),
{
    if x.len() > 0 && is_white_space(x[0]) {
        lemma_trim_start_first(x.drop_first());
    }
}

proof fn lemma_trim_end_prefix(y: Seq<char>)
    ensures
        trim_end(y).len() <= y.len(),
        forall|i: int| 0 <= i < trim_end(y).len() ==> #[trigger] trim_end(y)[i] == y[i],
        trim_end(y).len() > 0 ==> !is_white_space(trim_end(y).last()),
    decreases y.len(),
{
    if y.len() > 0 && is_white_space(y.last()) {
        lemma_trim_end_prefix(y.drop_last());
    }
}

/// Trimming a trimmed text changes nothing.
pub proof fn lemma_trim_idempotent(x: Seq<char>)
    ensures
        trim(trim(x)) == trim(x),
{
    let t1 = trim_start(x);
    let t2 = trim_end(t1);
    lemma_trim_start_first(x);
    lemma_trim_end_prefix(t1);
    if t2.len() > 0 {
        assert(t2[0] == t1[0]);
        assert(trim_start(t2) == t2);
        assert(trim_end(t2) == t2);
    } else {
        assert(trim_start(t2) == t2);
        assert(trim_end(t2) == t2);
    }
}

proof fn lemma_upper_white(c: char)
    ensures
        is_white_space(ascii_upper(c)) == is_white_space(c),
        !is_ascii_lower(ascii_upper(c)),
        is_digit(ascii_upper(c)) == is_digit(c),
        (ascii_upper(c) == '+') == (c == '+'),
        (ascii_upper(c) == '-') == (c == '-'),
{
}

/// Upper-casing and trimming commute.
pub proof fn lemma_trim_upper(x: Seq<char>)
    ensures
        trim(upper(x)) == upper(trim(x)),
{
    lemma_trim_start_upper(x);
    lemma_trim_end_upper(trim_start(x));
}

proof fn lemma_trim_start_upper(x: Seq<char>)
    ensures
        trim_start(upper(x)) == upper(trim_start(x)),
    decreases x.len(),
{
    if x.len() > 0 {
        lemma_upper_white(x[0]);
        assert(upper(x)[0] == ascii_upper(x[0]));
        if is_white_space(x[0]) {
            assert(upper(x).drop_first() =~= upper(x.drop_first()));
            lemma_trim_start_upper(x.drop_first());
        }
    } else {
        assert(upper(x) =~= x);
    }
}

proof fn lemma_trim_end_upper(x: Seq<char>)
    ensures
        trim_end(upper(x)) == upper(trim_end(x)),
    decreases x.len(),
{
    if x.len() > 0 {
        lemma_upper_white(x.last());
        assert(upper(x).last() == ascii_upper(x.last()));
        if is_white_space(x.last()) {
            assert(upper(x).drop_last() =~= upper(x.drop_last()));
            lemma_trim_end_upper(x.drop_last());
        }
    } else {
        assert(upper(x) =~= x);
    }
}

/// Upper-casing twice is upper-casing once.
pub proof fn lemma_upper_idempotent(x: Seq<char>)
    ensures
        upper(upper(x)) == upper(x),
{
    assert forall|i: int| 0 <= i < x.len() implies upper(upper(x))[i] == upper(x)[i] by {
        lemma_upper_white(x[i]);
    }
    assert(upper(upper(x)) =~= upper(x));
}

proof fn lemma_literal_refused(s: Seq<char>, i: int, signed: bool)
    requires
        0 <= i < s.len(),
        !is_digit(s[i]),
        s[i] != '+',
        s[i] != '-',
    ensures
        integer_literal(s, signed) is None,
{
    if i > 0 {
        assert(s.drop_first()[i - 1] == s[i]);
    }
}

/// Upper-casing does not change what a decimal literal denotes.
pub proof fn lemma_literal_upper(t: Seq<char>, signed: bool)
    ensures
        integer_literal(upper(t), signed) == integer_literal(t, signed),
{
    if exists|i: int| 0 <= i < t.len() && is_ascii_lower(#[trigger] t[i]) {
        let i = choose|i: int| 0 <= i < t.len() && is_ascii_lower(#[trigger] t[i]);
        lemma_upper_white(t[i]);
        assert(upper(t)[i] == ascii_upper(t[i]));
        lemma_literal_refused(t, i, signed);
        lemma_literal_refused(upper(t), i, signed);
    } else {
        assert(upper(t) =~= t);
    }
}

} // verus!
