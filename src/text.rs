//! Character-level vocabulary shared by the parser and the renderer:
//! whitespace, scanning, trimming, line splitting, ASCII case-insensitive
//! keyword comparison and decimal numbers.
use vstd::prelude::*;

verus! {

/// The Unicode `White_Space` property, the notion of whitespace that
/// trimming, tokenizing and splitting use throughout.
pub open spec fn is_ws(c: char) -> bool {
    let u = c as u32;
    (0x9 <= u && u <= 0xd) || u == 0x20 || u == 0x85 || u == 0xa0 || u == 0x1680 || (0x2000 <= u
        && u <= 0x200a) || u == 0x2028 || u == 0x2029 || u == 0x202f || u == 0x205f || u == 0x3000
}

/// What a forward scan stops at.
pub enum Stop {
    /// the first character that is not whitespace
    NonSpace,
    /// the first whitespace character
    Space,
    /// the first whitespace character or `#`
    SpaceOrHash,
    /// the first line feed
    Newline,
}

pub open spec fn stops(kind: Stop, c: char) -> bool {
    match kind {
        Stop::NonSpace => !is_ws(c),
        Stop::Space => is_ws(c),
        Stop::SpaceOrHash => is_ws(c) || c == '#',
        Stop::Newline => c == '\n',
    }
}

/// The first index at or after `i` whose character stops the scan, or the
/// length of `s` when there is none.
pub open spec fn scan(s: Seq<char>, i: int, kind: Stop) -> int
    decreases s.len() - i,
{
    if 0 <= i < s.len() && !stops(kind, s[i]) {
        scan(s, i + 1, kind)
    } else {
        i
    }
}

/// The smallest index `a <= j` such that `s[a..j]` is all whitespace.
pub open spec fn rscan_ws(s: Seq<char>, j: int) -> int
    decreases j,
{
    if 0 < j <= s.len() && is_ws(s[j - 1]) {
        rscan_ws(s, j - 1)
    } else {
        j
    }
}

/// `s` without its leading and trailing whitespace.
pub open spec fn trim(s: Seq<char>) -> Seq<char> {
    let a = scan(s, 0, Stop::NonSpace);
    let b = rscan_ws(s, s.len() as int);
    if a < b {
        s.subrange(a, b)
    } else {
        Seq::empty()
    }
}

/// The lines of `t`: the pieces between line feeds, where a final line
/// feed ends the last line rather than starting an empty one.
pub open spec fn lines(t: Seq<char>) -> Seq<Seq<char>>
    decreases t.len(),
{
    if t.len() == 0 {
        Seq::empty()
    } else {
        let j = scan(t, 0, Stop::Newline);
        proof {
            lemma_scan_bounds(t, 0, Stop::Newline);
        }
        if j < t.len() {
            seq![t.subrange(0, j)] + lines(t.subrange(j + 1, t.len() as int))
        } else {
            seq![t]
        }
    }
}

/// Each line of `ls` followed by a line feed.
pub open spec fn join_lines(ls: Seq<Seq<char>>) -> Seq<char>
    decreases ls.len(),
{
    if ls.len() == 0 {
        Seq::empty()
    } else {
        ls[0] + seq!['\n'] + join_lines(ls.drop_first())
    }
}

/// `c` equals the lower-case ASCII letter or other character `k`, ignoring
/// ASCII case.
pub open spec fn char_eq_ci(c: char, k: char) -> bool {
    c == k || ('a' <= k && k <= 'z' && c as u32 == k as u32 - 32)
}

/// `s` spells the lower-case keyword `kw`, ignoring ASCII case.
pub open spec fn eq_ci(s: Seq<char>, kw: Seq<char>) -> bool {
    s.len() == kw.len() && forall|i: int| 0 <= i < s.len() ==> char_eq_ci(#[trigger] s[i], kw[i])
}

pub open spec fn is_digit(c: char) -> bool {
    '0' <= c && c <= '9'
}

pub open spec fn digit_value(c: char) -> nat {
    (c as u32 - '0' as u32) as nat
}

pub open spec fn digit_char(d: nat) -> char {
    (d + '0' as u32) as char
}

/// The number that the decimal digits `s` spell.
pub open spec fn digits_value(s: Seq<char>) -> nat
    decreases s.len(),
{
    if s.len() == 0 {
        0
    } else {
        digits_value(s.drop_last()) * 10 + digit_value(s.last())
    }
}

pub open spec fn all_digits(s: Seq<char>) -> bool {
    forall|i: int| 0 <= i < s.len() ==> is_digit(#[trigger] s[i])
}

/// The length of an optional leading `+`.
pub open spec fn sign_len(s: Seq<char>) -> int {
    if s.len() > 0 && s[0] == '+' {
        1
    } else {
        0
    }
}

/// A number in decimal no larger than `max`: an optional `+`, then at
/// least one digit. This is how Rust reads an unsigned integer type whose
/// largest value is `max`.
pub open spec fn parse_num(s: Seq<char>, max: nat) -> Option<nat> {
    let d = s.subrange(sign_len(s), s.len() as int);
    if d.len() > 0 && all_digits(d) && digits_value(d) <= max {
        Some(digits_value(d))
    } else {
        None
    }
}

/// A 16-bit unsigned number in decimal.
pub open spec fn parse_u16(s: Seq<char>) -> Option<u16> {
    match parse_num(s, 65535) {
        Some(n) => Some(n as u16),
        None => None,
    }
}

/// The shortest decimal spelling of `n`.
pub open spec fn decimal(n: nat) -> Seq<char>
    decreases n,
{
    if n < 10 {
        seq![digit_char(n)]
    } else {
        decimal(n / 10) + seq![digit_char(n % 10)]
    }
}

pub proof fn lemma_scan_bounds(s: Seq<char>, i: int, kind: Stop)
    requires
        0 <= i <= s.len(),
    ensures
        i <= scan(s, i, kind) <= s.len(),
        scan(s, i, kind) < s.len() ==> stops(kind, s[scan(s, i, kind)]),
        forall|k: int| i <= k < scan(s, i, kind) ==> !stops(kind, #[trigger] s[k]),
    decreases s.len() - i,
{
    if i < s.len() && !stops(kind, s[i]) {
        lemma_scan_bounds(s, i + 1, kind);
    }
}

/// A scan ends at `j` when nothing in `s[i..j]` stops it and `j` does.
pub proof fn lemma_scan_at(s: Seq<char>, i: int, j: int, kind: Stop)
    requires
        0 <= i <= j <= s.len(),
        forall|k: int| i <= k < j ==> !stops(kind, #[trigger] s[k]),
        j == s.len() || stops(kind, s[j]),
    ensures
        scan(s, i, kind) == j,
    decreases j - i,
{
    if i < j {
        lemma_scan_at(s, i + 1, j, kind);
    }
}

/// A backward scan for whitespace ends at `a` when `s[a..j]` is all
/// whitespace and `s[a - 1]` is not.
pub proof fn lemma_rscan_at(s: Seq<char>, a: int, j: int)
    requires
        0 <= a <= j <= s.len(),
        forall|k: int| a <= k < j ==> is_ws(#[trigger] s[k]),
        a == 0 || !is_ws(s[a - 1]),
    ensures
        rscan_ws(s, j) == a,
    decreases j - a,
{
    if a < j {
        lemma_rscan_at(s, a, j - 1);
    }
}

pub fn is_ws_char(c: char) -> (r: bool)
    ensures
        r == is_ws(c),
{
    let u = c as u32;
    (0x9 <= u && u <= 0xd) || u == 0x20 || u == 0x85 || u == 0xa0 || u == 0x1680 || (0x2000 <= u
        && u <= 0x200a) || u == 0x2028 || u == 0x2029 || u == 0x202f || u == 0x205f || u == 0x3000
}

fn stops_exec(kind: &Stop, c: char) -> (r: bool)
    ensures
        r == stops(*kind, c),
{
    match kind {
        Stop::NonSpace => !is_ws_char(c),
        Stop::Space => is_ws_char(c),
        Stop::SpaceOrHash => is_ws_char(c) || c == '#',
        Stop::Newline => c == '\n',
    }
}

/// The characters of `text`, in order.
pub fn chars_of(text: &str) -> (r: Vec<char>)
    ensures
        r@ == text@,
{
    let mut r: Vec<char> = Vec::new();
    for c in it: text.chars()
        invariant
            r@ == it.seq().take(it.index() as int),
    {
        r.push(c);
    }
    r
}

/// A copy of `v[a..b]`.
pub fn sub_vec(v: &Vec<char>, a: usize, b: usize) -> (r: Vec<char>)
    requires
        a <= b <= v.len(),
    ensures
        r@ == v@.subrange(a as int, b as int),
{
    let mut r: Vec<char> = Vec::new();
    let mut i: usize = a;
    while i < b
        invariant
            a <= i <= b <= v.len(),
            r@ == v@.subrange(a as int, i as int),
        decreases b - i,
    {
        r.push(v[i]);
        i += 1;
        assert(r@ =~= v@.subrange(a as int, i as int));
    }
    r
}

/// Relies on `String`'s `FromIterator<char>`: the string holds the
/// characters it was collected from, in order.
#[verifier::external_body]
pub(crate) fn string_of(v: &[char]) -> (r: String)
    ensures
        r@ == v@,
{
    v.iter().collect()
}

/// The string `v[a..b]`.
pub fn substring(v: &Vec<char>, a: usize, b: usize) -> (r: String)
    requires
        a <= b <= v.len(),
    ensures
        r@ == v@.subrange(a as int, b as int),
{
    let piece = sub_vec(v, a, b);
    string_of(piece.as_slice())
}

/// Executes `scan`.
pub fn scan_from(v: &Vec<char>, i: usize, kind: Stop) -> (r: usize)
    requires
        i <= v.len(),
    ensures
        r == scan(v@, i as int, kind),
        i <= r <= v.len(),
        forall|k: int| i <= k < r ==> !stops(kind, #[trigger] v@[k]),
        r == v.len() || stops(kind, v@[r as int]),
{
    let mut j: usize = i;
    while j < v.len() && !stops_exec(&kind, v[j])
        invariant
            i <= j <= v.len(),
            forall|k: int| i <= k < j ==> !stops(kind, #[trigger] v@[k]),
        decreases v.len() - j,
    {
        j += 1;
    }
    proof {
        lemma_scan_at(v@, i as int, j as int, kind);
    }
    j
}

/// The bounds `(a, b)` of `trim(v@)` within `v`.
pub fn trim_bounds(v: &Vec<char>) -> (r: (usize, usize))
    ensures
        r.0 <= r.1 <= v.len(),
        v@.subrange(r.0 as int, r.1 as int) == trim(v@),
{
    let a = scan_from(v, 0, Stop::NonSpace);
    let mut b: usize = v.len();
    while b > a && is_ws_char(v[b - 1])
        invariant
            a <= b <= v.len(),
            forall|k: int| b <= k < v.len() ==> is_ws(#[trigger] v@[k]),
        decreases b,
    {
        b -= 1;
    }
    proof {
        if a < b {
            lemma_rscan_at(v@, b as int, v.len() as int);
        } else {
            if a < v.len() {
                assert(!is_ws(v@[a as int]));
            }
            lemma_rscan_at(v@, 0, v.len() as int);
            assert(v@.subrange(a as int, b as int) =~= Seq::<char>::empty());
        }
    }
    (a, b)
}

/// Whether `v[i..i + kw.len()]` spells the lower-case keyword `kw`, ignoring
/// ASCII case.
pub fn keyword_at(v: &Vec<char>, i: usize, kw: &[char]) -> (r: bool)
    requires
        i <= v.len(),
        forall|k: int| 0 <= k < kw@.len() ==> 'a' <= #[trigger] kw@[k] && kw@[k] <= 'z',
    ensures
        r == (i + kw@.len() <= v.len() && eq_ci(
            v@.subrange(i as int, i + kw@.len()),
            kw@,
        )),
{
    if kw.len() > v.len() - i {
        return false;
    }
    let mut k: usize = 0;
    while k < kw.len()
        invariant
            k <= kw.len(),
            i + kw@.len() <= v.len(),
            forall|k: int| 0 <= k < kw@.len() ==> 'a' <= #[trigger] kw@[k] && kw@[k] <= 'z',
            forall|m: int| 0 <= m < k ==> char_eq_ci(#[trigger] v@[i + m], kw@[m]),
        decreases kw.len() - k,
    {
        let c = v[i + k];
        let kc = kw[k];
        if !(c == kc || c as u32 == (kc as u32) - 32) {
            assert(!char_eq_ci(v@.subrange(i as int, i + kw@.len())[k as int], kw@[k as int]));
            return false;
        }
        k += 1;
    }
    assert forall|m: int| 0 <= m < kw@.len() implies char_eq_ci(
        #[trigger] v@.subrange(i as int, i + kw@.len())[m],
        kw@[m],
    ) by {
        assert(v@.subrange(i as int, i + kw@.len())[m] == v@[i + m]);
    }
    true
}

/// Digits past the first may only make a number larger.
pub proof fn lemma_digits_value_prefix(s: Seq<char>, k: int)
    requires
        0 <= k <= s.len(),
    ensures
        digits_value(s.subrange(0, k)) <= digits_value(s),
    decreases s.len() - k,
{
    if k < s.len() {
        lemma_digits_value_prefix(s.drop_last(), k);
        assert(s.drop_last().subrange(0, k) =~= s.subrange(0, k));
    } else {
        assert(s.subrange(0, k) =~= s);
    }
}

/// Executes `parse_num`.
pub fn parse_num_chars(s: &Vec<char>, max: usize) -> (r: Option<usize>)
    ensures
        match r {
            Some(n) => parse_num(s@, max as nat) == Some(n as nat),
            None => parse_num(s@, max as nat) is None,
        },
{
    let start: usize = if s.len() > 0 && s[0] == '+' {
        1
    } else {
        0
    };
    let ghost d = s@.subrange(start as int, s.len() as int);
    assert(start == sign_len(s@));
    if start >= s.len() {
        return None;
    }
    let mut acc: usize = 0;
    let mut i: usize = start;
    while i < s.len()
        invariant
            start <= i <= s.len(),
            start == sign_len(s@),
            d == s@.subrange(start as int, s.len() as int),
            acc <= max,
            acc == digits_value(d.subrange(0, i - start)),
            forall|k: int| start <= k < i ==> is_digit(#[trigger] s@[k]),
        decreases s.len() - i,
    {
        let c = s[i];
        assert(d[i - start] == c);
        if !('0' <= c && c <= '9') {
            assert(!is_digit(d[i - start]));
            assert(!all_digits(d));
            return None;
        }
        let dig: usize = (c as u32 - '0' as u32) as usize;
        assert(d.subrange(0, i + 1 - start).drop_last() =~= d.subrange(0, i - start));
        assert(d.subrange(0, i + 1 - start).last() == c);
        assert(acc * 10 + dig == digits_value(d.subrange(0, i + 1 - start)));
        if dig > max || acc > (max - dig) / 10 {
            assert(acc * 10 + dig > max) by (nonlinear_arith)
                requires
                    dig > max || acc > (max - dig) / 10,
                    acc >= 0,
            ;
            proof {
                lemma_digits_value_prefix(d, i + 1 - start);
            }
            assert(digits_value(d) > max);
            return None;
        }
        assert(acc * 10 + dig <= max) by (nonlinear_arith)
            requires
                dig <= max,
                acc <= (max - dig) / 10,
        ;
        acc = acc * 10 + dig;
        i += 1;
    }
    assert(d.subrange(0, d.len() as int) =~= d);
    Some(acc)
}

/// Executes `parse_u16`.
pub fn parse_u16_chars(s: &Vec<char>) -> (r: Option<u16>)
    ensures
        r == parse_u16(s@),
{
    match parse_num_chars(s, 65535) {
        Some(n) => Some(n as u16),
        None => None,
    }
}

fn digit_of(d: u16) -> (r: char)
    requires
        d < 10,
    ensures
        r == digit_char(d as nat),
{
    ((d as u8) + 48u8) as char
}

/// The decimal digits of `n`.
pub fn decimal_chars(n: u16) -> (r: Vec<char>)
    ensures
        r@ == decimal(n as nat),
    decreases n,
{
    if n < 10 {
        let mut r: Vec<char> = Vec::new();
        r.push(digit_of(n));
        assert(r@ =~= decimal(n as nat));
        r
    } else {
        let mut r = decimal_chars(n / 10);
        r.push(digit_of(n % 10));
        assert(r@ =~= decimal(n as nat));
        r
    }
}

} // verus!
