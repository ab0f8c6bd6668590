//! Text helpers: decimal and hexadecimal rendering of integers, and the
//! UTF-8 decoding calls that block parsing relies on.
use vstd::prelude::*;
use vstd::string::StringExecFns;

verus! {

/// The character of hexadecimal digit `d` (upper case), for `d < 16`.
pub open spec fn hex_char(d: nat) -> char {
    if d < 10 {
        (48 + d) as char
    } else {
        (55 + d) as char
    }
}

/// Decimal rendering of `v` without leading zeros.
pub open spec fn decimal_chars(v: nat) -> Seq<char>
    decreases v,
{
    if v < 10 {
        seq![hex_char(v)]
    } else {
        decimal_chars(v / 10).push(hex_char(v % 10))
    }
}

/// Upper-case hexadecimal rendering of `v`, left-padded with zeros to at
/// least `width` digits.
pub open spec fn hex_chars(v: nat, width: nat) -> Seq<char>
    decreases v + width,
{
    if v < 16 && width <= 1 {
        seq![hex_char(v)]
    } else {
        let w = if width == 0 { 0 } else { (width - 1) as nat };
        hex_chars(v / 16, w).push(hex_char(v % 16))
    }
}

/// The one-character string of hexadecimal digit `d`.
fn digit_str(d: u64) -> (r: &'static str)
    requires
        d < 16,
    ensures
        r@ == seq![hex_char(d as nat)],
{
    match d {
        0 => { proof { reveal_strlit("0"); } "0" },
        1 => { proof { reveal_strlit("1"); } "1" },
        2 => { proof { reveal_strlit("2"); } "2" },
        3 => { proof { reveal_strlit("3"); } "3" },
        4 => { proof { reveal_strlit("4"); } "4" },
        5 => { proof { reveal_strlit("5"); } "5" },
        6 => { proof { reveal_strlit("6"); } "6" },
        7 => { proof { reveal_strlit("7"); } "7" },
        8 => { proof { reveal_strlit("8"); } "8" },
        9 => { proof { reveal_strlit("9"); } "9" },
        10 => { proof { reveal_strlit("A"); } "A" },
        11 => { proof { reveal_strlit("B"); } "B" },
        12 => { proof { reveal_strlit("C"); } "C" },
        13 => { proof { reveal_strlit("D"); } "D" },
        14 => { proof { reveal_strlit("E"); } "E" },
        _ => { proof { reveal_strlit("F"); } "F" },
    }
}

/// Renders `v` in decimal, as `format!("{}", v)` does.
pub fn decimal_string(v: u64) -> (s: String)
    ensures
        s@ == decimal_chars(v as nat),
    decreases v,
{
    if v < 10 {
        String::from_str(digit_str(v))
    } else {
        let mut s = decimal_string(v / 10);
        s.append(digit_str(v % 10));
        s
    }
}

/// Renders `v` in upper-case hexadecimal padded to `width` digits, as
/// `format!("{:0width$X}", v)` does.
pub fn hex_string(v: u64, width: u64) -> (s: String)
    ensures
        s@ == hex_chars(v as nat, width as nat),
    decreases v + width,
{
    if v < 16 && width <= 1 {
        String::from_str(digit_str(v))
    } else {
        let w = if width == 0 { 0 } else { width - 1 };
        let mut s = hex_string(v / 16, w);
        s.append(digit_str(v % 16));
        s
    }
}

/// Concatenates `a` and `b` into a new string.
pub fn concat_str(a: &str, b: &str) -> (s: String)
    ensures
        s@ == a@ + b@,
{
    let mut s = String::from_str(a);
    s.append(b);
    s
}

} // verus!

verus! {

/// What lossy UTF-8 decoding yields for a byte sequence that is not valid
/// UTF-8 (each invalid sequence becomes U+FFFD).
pub uninterp spec fn lossy_decode_invalid(bytes: Seq<u8>) -> Seq<char>;

/// What `String::from_utf8_lossy` yields: the decoded characters when the
/// bytes are valid UTF-8.
pub open spec fn lossy_utf8(bytes: Seq<u8>) -> Seq<char> {
    if vstd::utf8::valid_utf8(bytes) {
        vstd::utf8::decode_utf8(bytes)
    } else {
        lossy_decode_invalid(bytes)
    }
}

/// Calls `String::from_utf8_lossy`. Its documentation states that valid
/// UTF-8 is decoded unchanged; for invalid input the contract only says that
/// the result is a function of the bytes.
#[verifier::external_body]
pub(crate) fn utf8_lossy(bytes: &[u8]) -> (s: String)
    ensures
        vstd::utf8::valid_utf8(bytes@) ==> s@ == vstd::utf8::decode_utf8(bytes@),
        !vstd::utf8::valid_utf8(bytes@) ==> s@ == lossy_decode_invalid(bytes@),
{
    String::from_utf8_lossy(bytes).into_owned()
}

/// Calls `core::str::from_utf8`, which succeeds exactly on valid UTF-8 and
/// then yields the decoded characters.
#[verifier::external_body]
pub(crate) fn str_from_utf8(bytes: &[u8]) -> (r: Option<&str>)
    ensures
        r is Some <==> vstd::utf8::valid_utf8(bytes@),
        r matches Some(s) ==> s@ == vstd::utf8::decode_utf8(bytes@),
{
    core::str::from_utf8(bytes).ok()
}

} // verus!

verus! {

/// Compares two strings by their characters.
pub fn str_eq(a: &str, b: &str) -> (r: bool)
    ensures
        r == (a@ == b@),
{
    let ab = a.as_bytes();
    let bb = b.as_bytes();
    proof {
        vstd::utf8::encode_utf8_decode_utf8(a@);
        vstd::utf8::encode_utf8_decode_utf8(b@);
        assert(a@ == b@ ==> ab@ == bb@);
        assert(ab@ == bb@ ==> a@ == b@);
    }
    if ab.len() != bb.len() {
        return false;
    }
    let mut i: usize = 0;
    while i < ab.len()
        invariant
            i <= ab@.len(),
            ab@.len() == bb@.len(),
            a@ == b@ ==> ab@ == bb@,
            ab@ == bb@ ==> a@ == b@,
            ab@.subrange(0, i as int) == bb@.subrange(0, i as int),
        decreases ab@.len() - i,
    {
        if ab[i] != bb[i] {
            assert(ab@[i as int] != bb@[i as int]);
            return false;
        }
        assert(ab@.subrange(0, i + 1) =~= ab@.subrange(0, i as int).push(ab@[i as int]));
        assert(bb@.subrange(0, i + 1) =~= bb@.subrange(0, i as int).push(bb@[i as int]));
        i = i + 1;
    }
    assert(ab@ =~= ab@.subrange(0, i as int));
    assert(bb@ =~= bb@.subrange(0, i as int));
    true
}

} // verus!

verus! {

/// Concatenates three strings into a new string.
pub fn concat3(a: &str, b: &str, c: &str) -> (s: String)
    ensures
        s@ == a@ + b@ + c@,
{
    let mut s = String::from_str(a);
    s.append(b);
    s.append(c);
    s
}

} // verus!

verus! {

/// `s` with all leading `c` removed.
pub open spec fn strip_leading(s: Seq<char>, c: char) -> Seq<char>
    decreases s.len(),
{
    if s.len() > 0 && s[0] == c {
        strip_leading(s.drop_first(), c)
    } else {
        s
    }
}

/// `s` with all trailing `c` removed.
pub open spec fn strip_trailing(s: Seq<char>, c: char) -> Seq<char>
    decreases s.len(),
{
    if s.len() > 0 && s.last() == c {
        strip_trailing(s.drop_last(), c)
    } else {
        s
    }
}

/// `s` with all leading and trailing `c` removed.
pub open spec fn trim_char(s: Seq<char>, c: char) -> Seq<char> {
    strip_trailing(strip_leading(s, c), c)
}

/// Calls `str::trim_matches` with the NUL character, which removes all
/// leading and trailing NUL characters.
#[verifier::external_body]
pub(crate) fn trim_nul(s: &str) -> (r: &str)
    ensures
        r@ == trim_char(s@, '\0'),
{
    s.trim_matches('\0')
}

} // verus!

verus! {

/// Whether `c` has the Unicode `White_Space` property (what
/// `char::is_whitespace` tests).
pub open spec fn is_unicode_whitespace(c: char) -> bool {
    let u = c as u32;
    (0x09 <= u <= 0x0D) || u == 0x20 || u == 0x85 || u == 0xA0 || u == 0x1680 || (0x2000 <= u
        <= 0x200A) || u == 0x2028 || u == 0x2029 || u == 0x202F || u == 0x205F || u == 0x3000
}

/// Tests the Unicode `White_Space` property.
pub fn char_is_whitespace(c: char) -> (r: bool)
    ensures
        r == is_unicode_whitespace(c),
{
    let u = c as u32;
    (0x09 <= u && u <= 0x0D) || u == 0x20 || u == 0x85 || u == 0xA0 || u == 0x1680 || (0x2000
        <= u && u <= 0x200A) || u == 0x2028 || u == 0x2029 || u == 0x202F || u == 0x205F || u
        == 0x3000
}

/// Index of the first leading character of `s` that is not whitespace
/// (`s.len()` when there is none).
pub open spec fn ws_start(s: Seq<char>) -> int
    decreases s.len(),
{
    if s.len() > 0 && is_unicode_whitespace(s[0]) {
        1 + ws_start(s.drop_first())
    } else {
        0
    }
}

/// Length of `s` once trailing whitespace is removed.
pub open spec fn ws_end(s: Seq<char>) -> int
    decreases s.len(),
{
    if s.len() > 0 && is_unicode_whitespace(s.last()) {
        ws_end(s.drop_last())
    } else {
        s.len() as int
    }
}

/// `s` with leading and trailing whitespace removed (what `str::trim`
/// returns).
pub open spec fn trim_ws(s: Seq<char>) -> Seq<char> {
    let t = s.subrange(ws_start(s), s.len() as int);
    t.subrange(0, ws_end(t))
}

/// Index of the first `c` in `s` (`s.len()` when there is none).
pub open spec fn find_char(s: Seq<char>, c: char) -> int
    decreases s.len(),
{
    if s.len() == 0 {
        0
    } else if s[0] == c {
        0
    } else {
        1 + find_char(s.drop_first(), c)
    }
}

/// Whether `c` is an ASCII decimal digit.
pub open spec fn is_digit(c: char) -> bool {
    '0' <= c <= '9'
}

/// The value of a sequence of decimal digits.
pub open spec fn decimal_value(d: Seq<char>) -> int
    decreases d.len(),
{
    if d.len() == 0 {
        0
    } else {
        decimal_value(d.drop_last()) * 10 + (d.last() as int - 48)
    }
}

/// The digits of a number: `s` without a leading `+`.
pub open spec fn digits_part(s: Seq<char>) -> Seq<char> {
    if s.len() > 0 && s[0] == '+' {
        s.drop_first()
    } else {
        s
    }
}

/// Whether every character of `d` is a decimal digit.
pub open spec fn all_digits(d: Seq<char>) -> bool {
    forall|i: int| 0 <= i < d.len() ==> is_digit(#[trigger] d[i])
}

/// What `s.parse::<u16>()` yields: an optional `+`, then one or more
/// decimal digits whose value fits in 16 bits.
pub open spec fn parse_u16_spec(s: Seq<char>) -> Option<u16> {
    let d = digits_part(s);
    if d.len() == 0 || !all_digits(d) {
        None
    } else if decimal_value(d) <= 65535 {
        Some(decimal_value(d) as u16)
    } else {
        None
    }
}

/// The characters of a string.
pub fn str_chars(s: &str) -> (v: Vec<char>)
    ensures
        v@ == s@,
{
    let n = s.unicode_len();
    let mut v: Vec<char> = Vec::new();
    let mut i: usize = 0;
    while i < n
        invariant
            n == s@.len(),
            i <= n,
            v@ == s@.subrange(0, i as int),
        decreases n - i,
    {
        v.push(s.get_char(i));
        i = i + 1;
        assert(v@ =~= s@.subrange(0, i as int));
    }
    assert(s@.subrange(0, n as int) =~= s@);
    v
}

/// Digit sequences never lose value when extended.
proof fn lemma_decimal_value_grows(d: Seq<char>, k: int)
    requires
        0 <= k <= d.len(),
        forall|i: int| 0 <= i < d.len() ==> is_digit(#[trigger] d[i]),
    ensures
        decimal_value(d.subrange(0, k)) <= decimal_value(d),
        decimal_value(d) >= 0,
    decreases d.len(),
{
    if d.len() > 0 {
        if k < d.len() {
            lemma_decimal_value_grows(d.drop_last(), k);
            assert(d.drop_last().subrange(0, k) =~= d.subrange(0, k));
        } else {
            assert(d.subrange(0, k) =~= d);
            lemma_decimal_value_grows(d.drop_last(), 0);
        }
    }
}

/// What `s.parse::<usize>()` yields: an optional `+`, then one or more
/// decimal digits whose value fits in a `usize`.
pub open spec fn parse_usize_spec(s: Seq<char>) -> Option<usize> {
    let d = digits_part(s);
    if d.len() == 0 || !all_digits(d) {
        None
    } else if decimal_value(d) <= usize::MAX {
        Some(decimal_value(d) as usize)
    } else {
        None
    }
}

/// Parses `v[start..end]` as `str::parse::<usize>` does.
pub fn parse_usize_chars(v: &Vec<char>, start: usize, end: usize) -> (r: Option<usize>)
    requires
        start <= end <= v@.len(),
    ensures
        r == parse_usize_spec(v@.subrange(start as int, end as int)),
{
    let ghost s = v@.subrange(start as int, end as int);
    let mut i = start;
    if i < end && v[i] == '+' {
        i = i + 1;
    }
    let ghost d = digits_part(s);
    assert(d =~= v@.subrange(i as int, end as int));
    if i == end {
        return None;
    }
    let mut acc: usize = 0;
    let mut k = i;
    while k < end
        invariant
            i <= k <= end,
            end <= v@.len(),
            s == v@.subrange(start as int, end as int),
            d == digits_part(s),
            d == v@.subrange(i as int, end as int),
            d.len() > 0,
            forall|j: int| 0 <= j < k - i ==> is_digit(#[trigger] d[j]),
            acc as int == decimal_value(d.subrange(0, k - i)),
        decreases end - k,
    {
        let c = v[k];
        if !('0' <= c && c <= '9') {
            assert(!is_digit(d[k - i]));
            assert(!all_digits(d));
            return None;
        }
        assert(d.subrange(0, k + 1 - i).drop_last() =~= d.subrange(0, k - i));
        let digit = (c as u32 - 48) as usize;
        if acc > (usize::MAX - digit) / 10 {
            proof {
                assert(acc * 10 + digit > usize::MAX) by (nonlinear_arith)
                    requires
                        acc > (usize::MAX - digit) / 10,
                        digit <= 9,
                ;
                assert(decimal_value(d.subrange(0, k + 1 - i)) == acc * 10 + digit);
                if all_digits(d) {
                    lemma_decimal_value_grows(d, k + 1 - i);
                }
            }
            return None;
        }
        proof {
            assert(acc * 10 + digit <= usize::MAX) by (nonlinear_arith)
                requires
                    acc <= (usize::MAX - digit) / 10,
                    digit <= 9,
            ;
        }
        acc = acc * 10 + digit;
        k = k + 1;
        assert(acc as int == decimal_value(d.subrange(0, k - i)));
    }
    assert(d.subrange(0, k - i) =~= d);
    Some(acc)
}

/// Parses `v[start..end]` as `str::parse::<u16>` does.
pub fn parse_u16_chars(v: &Vec<char>, start: usize, end: usize) -> (r: Option<u16>)
    requires
        start <= end <= v@.len(),
    ensures
        r == parse_u16_spec(v@.subrange(start as int, end as int)),
{
    let ghost s = v@.subrange(start as int, end as int);
    let mut i = start;
    if i < end && v[i] == '+' {
        i = i + 1;
    }
    let ghost d = digits_part(s);
    assert(d =~= v@.subrange(i as int, end as int));
    if i == end {
        return None;
    }
    let mut acc: u32 = 0;
    let mut k = i;
    while k < end
        invariant
            i <= k <= end,
            end <= v@.len(),
            s == v@.subrange(start as int, end as int),
            d == digits_part(s),
            d == v@.subrange(i as int, end as int),
            d.len() > 0,
            forall|j: int| 0 <= j < k - i ==> is_digit(#[trigger] d[j]),
            acc as int == decimal_value(d.subrange(0, k - i)),
            acc <= 65535,
        decreases end - k,
    {
        let c = v[k];
        if !('0' <= c && c <= '9') {
            assert(!is_digit(d[k - i]));
            assert(!all_digits(d));
            assert(parse_u16_spec(s) is None);
            return None;
        }
        assert(d.subrange(0, k + 1 - i).drop_last() =~= d.subrange(0, k - i));
        acc = acc * 10 + (c as u32 - 48);
        k = k + 1;
        assert(acc as int == decimal_value(d.subrange(0, k - i)));
        if acc > 65535 {
            proof {
                if all_digits(d) {
                    lemma_decimal_value_grows(d, k - i);
                    assert(decimal_value(d) > 65535);
                }
            }
            assert(parse_u16_spec(s) is None);
            return None;
        }
    }
    assert(d.subrange(0, k - i) =~= d);
    Some(acc as u16)
}

} // verus!

verus! {

/// `find_char` is the index of the first `c`.
pub proof fn lemma_find_char(s: Seq<char>, c: char, k: int)
    requires
        0 <= k <= s.len(),
        forall|j: int| 0 <= j < k ==> s[j] != c,
        k == s.len() || s[k] == c,
    ensures
        find_char(s, c) == k,
    decreases k,
{
    if k > 0 {
        lemma_find_char(s.drop_first(), c, k - 1);
    }
}

/// `ws_start` is the index of the first character that is not whitespace.
pub proof fn lemma_ws_start(s: Seq<char>, k: int)
    requires
        0 <= k <= s.len(),
        forall|j: int| 0 <= j < k ==> is_unicode_whitespace(s[j]),
        k == s.len() || !is_unicode_whitespace(s[k]),
    ensures
        ws_start(s) == k,
    decreases k,
{
    if k > 0 {
        lemma_ws_start(s.drop_first(), k - 1);
    }
}

/// `ws_end` is the end of the last character that is not whitespace.
pub proof fn lemma_ws_end(s: Seq<char>, k: int)
    requires
        0 <= k <= s.len(),
        forall|j: int| k <= j < s.len() ==> is_unicode_whitespace(s[j]),
        k == 0 || !is_unicode_whitespace(s[k - 1]),
    ensures
        ws_end(s) == k,
    decreases s.len(),
{
    if s.len() > k {
        lemma_ws_end(s.drop_last(), k);
    }
}

/// `strip_trailing` removes exactly the trailing run of `c`.
pub proof fn lemma_strip_trailing(s: Seq<char>, c: char, k: int)
    requires
        0 <= k <= s.len(),
        forall|j: int| k <= j < s.len() ==> s[j] == c,
        k == 0 || s[k - 1] != c,
    ensures
        strip_trailing(s, c) == s.subrange(0, k),
    decreases s.len(),
{
    if s.len() > k {
        lemma_strip_trailing(s.drop_last(), c, k);
        assert(s.drop_last().subrange(0, k) =~= s.subrange(0, k));
    } else {
        assert(s.subrange(0, k) =~= s);
    }
}

/// The characters of a version identifier once trailing NULs and
/// surrounding whitespace are removed.
pub open spec fn version_text(chars: Seq<char>) -> Seq<char> {
    trim_ws(strip_trailing(chars, '\0'))
}

/// The text of the major version: up to the first dot.
pub open spec fn major_text(t: Seq<char>) -> Seq<char> {
    t.subrange(0, find_char(t, '.'))
}

/// The text of the minor version: between the first and the second dot,
/// or "0" when there is no dot.
pub open spec fn minor_text(t: Seq<char>) -> Seq<char> {
    let i = find_char(t, '.');
    if i < t.len() {
        let r = t.subrange(i + 1, t.len() as int);
        r.subrange(0, find_char(r, '.'))
    } else {
        seq!['0']
    }
}

/// Splits the version text held in `chars`: returns the bounds of the
/// major part and, when there is a dot, of the minor part.
pub fn split_version(chars: &Vec<char>) -> (r: (usize, usize, Option<(usize, usize)>))
    ensures
        ({
            let t = version_text(chars@);
            let (a, b, m) = r;
            &&& a <= b <= chars@.len()
            &&& chars@.subrange(a as int, b as int) == major_text(t)
            &&& m matches Some((c, d)) ==> c <= d <= chars@.len() && chars@.subrange(
                c as int,
                d as int,
            ) == minor_text(t)
            &&& m is None ==> minor_text(t) == seq!['0']
        }),
{
    let n = chars.len();
    // Trailing NULs.
    let mut e = n;
    while e > 0 && chars[e - 1] == '\0'
        invariant
            e <= n,
            n == chars@.len(),
            forall|j: int| e <= j < n ==> chars@[j] == '\0',
        decreases e,
    {
        e = e - 1;
    }
    proof {
        lemma_strip_trailing(chars@, '\0', e as int);
    }
    let ghost u = chars@.subrange(0, e as int);
    // Leading whitespace.
    let mut a: usize = 0;
    while a < e && char_is_whitespace(chars[a])
        invariant
            a <= e <= n,
            n == chars@.len(),
            u == chars@.subrange(0, e as int),
            forall|j: int| 0 <= j < a ==> is_unicode_whitespace(u[j]),
        decreases e - a,
    {
        a = a + 1;
    }
    proof {
        lemma_ws_start(u, a as int);
    }
    let ghost w = u.subrange(a as int, e as int);
    // Trailing whitespace.
    let mut b = e;
    while b > a && char_is_whitespace(chars[b - 1])
        invariant
            a <= b <= e <= n,
            n == chars@.len(),
            w == chars@.subrange(a as int, e as int),
            forall|j: int| b - a <= j < w.len() ==> is_unicode_whitespace(w[j]),
        decreases b,
    {
        b = b - 1;
    }
    proof {
        lemma_ws_end(w, b - a);
        assert(w.subrange(0, b - a) =~= chars@.subrange(a as int, b as int));
    }
    let ghost t = chars@.subrange(a as int, b as int);
    assert(t == version_text(chars@));
    // First dot.
    let mut i = a;
    while i < b && chars[i] != '.'
        invariant
            a <= i <= b <= n,
            n == chars@.len(),
            t == chars@.subrange(a as int, b as int),
            forall|j: int| 0 <= j < i - a ==> t[j] != '.',
        decreases b - i,
    {
        i = i + 1;
    }
    proof {
        lemma_find_char(t, '.', i - a);
        assert(t.subrange(0, i - a) =~= chars@.subrange(a as int, i as int));
    }
    if i == b {
        return (a, i, None);
    }
    let ghost rest = t.subrange(i - a + 1, t.len() as int);
    let mut k = i + 1;
    while k < b && chars[k] != '.'
        invariant
            i + 1 <= k <= b <= n,
            n == chars@.len(),
            rest == chars@.subrange(i + 1, b as int),
            forall|j: int| 0 <= j < k - (i + 1) ==> rest[j] != '.',
        decreases b - k,
    {
        k = k + 1;
    }
    proof {
        assert(rest =~= chars@.subrange(i + 1, b as int));
        lemma_find_char(rest, '.', k - (i + 1));
        assert(rest.subrange(0, k - (i + 1)) =~= chars@.subrange(i + 1, k as int));
    }
    (a, i, Some((i + 1, k)))
}

} // verus!

verus! {

/// The text "0" parses to zero.
pub proof fn reveal_decimal_digit_zero()
    ensures
        parse_u16_spec(seq!['0']) == Some(0u16),
{
    let d = digits_part(seq!['0']);
    assert(d =~= seq!['0']);
    assert(all_digits(d));
    assert(d.drop_last() =~= Seq::<char>::empty());
    assert(d.last() == '0');
    assert(('0' as int) == 48);
    assert(decimal_value(d.drop_last()) == 0);
    assert(decimal_value(d) == 0);
}

/// UTF-8 takes at most four bytes per character.
pub proof fn lemma_encode_utf8_len(chars: Seq<char>)
    ensures
        vstd::utf8::encode_utf8(chars).len() <= 4 * chars.len(),
    decreases chars.len(),
{
    if chars.len() > 0 {
        lemma_encode_utf8_len(chars.drop_first());
    }
}

/// Powers of sixteen.
pub open spec fn pow16(k: nat) -> nat
    decreases k,
{
    if k == 0 {
        1
    } else {
        16 * pow16((k - 1) as nat)
    }
}

/// A number below 16^k renders in at most `width + k` hexadecimal digits.
pub proof fn lemma_hex_chars_len(v: nat, width: nat, k: nat)
    requires
        k >= 1,
        v < pow16(k),
    ensures
        hex_chars(v, width).len() <= width + k,
    decreases v + width,
{
    if v < 16 && width <= 1 {
    } else {
        let w = if width == 0 { 0 } else { (width - 1) as nat };
        if v >= 16 {
            assert(k >= 2) by {
                if k == 1 {
                    assert(pow16(0) == 1);
                }
            }
            assert(v / 16 < pow16((k - 1) as nat));
            lemma_hex_chars_len(v / 16, w, (k - 1) as nat);
        } else {
            assert(pow16((k - 1) as nat) >= 1) by {
                lemma_pow16_pos((k - 1) as nat);
            }
            lemma_hex_chars_len(v / 16, w, k);
        }
    }
}

/// Powers of sixteen are positive.
pub proof fn lemma_pow16_pos(k: nat)
    ensures
        pow16(k) >= 1,
    decreases k,
{
    if k > 0 {
        lemma_pow16_pos((k - 1) as nat);
    }
}

/// A number below 100 renders in at most two decimal digits.
pub proof fn lemma_decimal_chars_short(v: nat)
    requires
        v < 100,
    ensures
        decimal_chars(v).len() <= 2,
{
    if v >= 10 {
        assert(decimal_chars(v / 10).len() == 1);
    }
}

} // verus!
