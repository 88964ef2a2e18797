//! Character-level text helpers shared by the parsers and formatters.
//!
//! Text is handled as `Seq<char>` in specifications and as `Vec<char>` in
//! executable code; a few functions convert from and to `String`.

use vstd::prelude::*;

verus! {

broadcast use vstd::string::group_string_axioms;

// ------------------------------------------------------------------ specs

/// Unicode `White_Space`, the set that `char::is_whitespace` and `str::trim` use.
pub open spec fn is_space(c: char) -> bool {
    let u = c as u32;
    ||| 9 <= u <= 13
    ||| u == 0x20
    ||| u == 0x85
    ||| u == 0xA0
    ||| u == 0x1680
    ||| 0x2000 <= u <= 0x200A
    ||| u == 0x2028
    ||| u == 0x2029
    ||| u == 0x202F
    ||| u == 0x205F
    ||| u == 0x3000
}

/// Which characters a strip removes: whitespace, or one given character.
pub open spec fn strips(target: Option<char>, c: char) -> bool {
    match target {
        None => is_space(c),
        Some(t) => c == t,
    }
}

/// `s` without its leading characters selected by `target`.
pub open spec fn strip_start(s: Seq<char>, target: Option<char>) -> Seq<char>
    decreases s.len(),
{
    if s.len() > 0 && strips(target, s[0]) {
        strip_start(s.drop_first(), target)
    } else {
        s
    }
}

/// `s` without its trailing characters selected by `target`.
pub open spec fn strip_end(s: Seq<char>, target: Option<char>) -> Seq<char>
    decreases s.len(),
{
    if s.len() > 0 && strips(target, s.last()) {
        strip_end(s.drop_last(), target)
    } else {
        s
    }
}

/// `s` without leading and trailing characters selected by `target`
/// (`str::trim` for `None`, `str::trim_matches(t)` for `Some(t)`).
pub open spec fn strip(s: Seq<char>, target: Option<char>) -> Seq<char> {
    strip_end(strip_start(s, target), target)
}

/// `str::trim`.
pub open spec fn trim(s: Seq<char>) -> Seq<char> {
    strip(s, None)
}

/// True when `s` holds nothing but whitespace (`s.trim().is_empty()`).
pub open spec fn is_blank(s: Seq<char>) -> bool {
    trim(s).len() == 0
}

/// `str::starts_with`.
pub open spec fn starts_with(s: Seq<char>, p: Seq<char>) -> bool {
    p.len() <= s.len() && s.subrange(0, p.len() as int) == p
}

/// The value of the ASCII digit `c`.
pub open spec fn digit_value(c: char) -> nat {
    ((c as u32) - 48) as nat
}

pub open spec fn is_digit(c: char) -> bool {
    '0' <= c && c <= '9'
}

pub open spec fn all_digits(s: Seq<char>) -> bool {
    forall|i: int| 0 <= i < s.len() ==> is_digit(#[trigger] s[i])
}

/// The number that the decimal digits `s` spell.
pub open spec fn digits_value(s: Seq<char>) -> nat
    decreases s.len(),
{
    if s.len() == 0 {
        0
    } else {
        digits_value(s.drop_last()) * 10 + digit_value(s.last())
    }
}

/// `s` without one leading `+`, if it has one.
pub open spec fn unsigned_digits(s: Seq<char>) -> Seq<char> {
    if s.len() > 0 && s[0] == '+' {
        s.drop_first()
    } else {
        s
    }
}

/// `u64::from_str`: an optional `+`, then one or more ASCII digits whose value fits.
pub open spec fn parse_u64(s: Seq<char>) -> Option<u64> {
    let body = unsigned_digits(s);
    if body.len() > 0 && all_digits(body) && digits_value(body) <= u64::MAX {
        Some(digits_value(body) as u64)
    } else {
        None
    }
}

/// The ASCII digit for `d < 10`.
pub open spec fn decimal_digit(d: nat) -> char {
    ((d + 48) as u32) as char
}

/// The decimal notation of `n`, without leading zeros.
pub open spec fn decimal(n: nat) -> Seq<char>
    decreases n,
{
    if n < 10 {
        seq![decimal_digit(n)]
    } else {
        decimal(n / 10).push(decimal_digit(n % 10))
    }
}

/// The lowercase hexadecimal digit for `d < 16`.
pub open spec fn hex_digit(d: nat) -> char {
    if d < 10 {
        ((d + 48) as u32) as char
    } else {
        ((d + 87) as u32) as char
    }
}

/// The last `width` lowercase hexadecimal digits of `n`, zero-padded (`{:0width$x}`
/// for `n < 16^width`).
pub open spec fn hex_padded(n: nat, width: nat) -> Seq<char>
    decreases width,
{
    if width == 0 {
        Seq::empty()
    } else {
        hex_padded(n / 16, (width - 1) as nat).push(hex_digit(n % 16))
    }
}

/// Index of the first `c` in `s`, if any.
pub open spec fn first_index(s: Seq<char>, c: char) -> Option<int> {
    if exists|i: int| 0 <= i < s.len() && s[i] == c {
        Some(choose|i: int| 0 <= i < s.len() && s[i] == c && forall|j: int| 0 <= j < i ==> s[j] != c)
    } else {
        None
    }
}

/// `str::split_once(c)`: the text before and after the first `c`.
pub open spec fn split_once(s: Seq<char>, c: char) -> Option<(Seq<char>, Seq<char>)> {
    match first_index(s, c) {
        Some(i) => Some((s.subrange(0, i), s.subrange(i + 1, s.len() as int))),
        None => None,
    }
}

/// The number of `c` in `s`.
pub open spec fn count_char(s: Seq<char>, c: char) -> nat
    decreases s.len(),
{
    if s.len() == 0 {
        0
    } else {
        count_char(s.drop_last(), c) + if s.last() == c {
            1nat
        } else {
            0nat
        }
    }
}

/// `str::rsplit_once(c)`: the text before and after the last `c`.
pub open spec fn rsplit_once(s: Seq<char>, c: char) -> Option<(Seq<char>, Seq<char>)> {
    if exists|i: int| 0 <= i < s.len() && s[i] == c {
        let i = choose|i: int|
            0 <= i < s.len() && s[i] == c && forall|j: int| i < j < s.len() ==> s[j] != c;
        Some((s.subrange(0, i), s.subrange(i + 1, s.len() as int)))
    } else {
        None
    }
}

// ------------------------------------------------------------------ lemmas

/// The count of `c` in a concatenation is the sum of the counts.
pub proof fn lemma_count_char_concat(a: Seq<char>, b: Seq<char>, c: char)
    ensures
        count_char(a + b, c) == count_char(a, c) + count_char(b, c),
    decreases b.len(),
{
    if b.len() == 0 {
        assert(a + b =~= a);
    } else {
        lemma_count_char_concat(a, b.drop_last(), c);
        assert((a + b).drop_last() =~= a + b.drop_last());
    }
}

/// A sequence without `c` counts none of it.
pub proof fn lemma_count_char_none(s: Seq<char>, c: char)
    requires
        forall|i: int| 0 <= i < s.len() ==> s[i] != c,
    ensures
        count_char(s, c) == 0,
    decreases s.len(),
{
    if s.len() > 0 {
        lemma_count_char_none(s.drop_last(), c);
    }
}

/// Splitting `a + [c] + b` at its last `c` gives `a` and `b` when `b` holds no `c`.
pub proof fn lemma_rsplit_once_at(a: Seq<char>, b: Seq<char>, c: char)
    requires
        forall|i: int| 0 <= i < b.len() ==> b[i] != c,
    ensures
        rsplit_once(a + seq![c] + b, c) == Some((a, b)),
{
    let s = a + seq![c] + b;
    let k = a.len() as int;
    assert(s[k] == c);
    assert forall|j: int| k < j < s.len() implies s[j] != c by {
        assert(s[j] == b[j - k - 1]);
    }
    let i = choose|i: int| 0 <= i < s.len() && s[i] == c && forall|j: int| i < j < s.len() ==> s[j] != c;
    if i < k {
        assert(s[k] != c);
    } else if i > k {
        assert(s[i] == b[i - k - 1]);
    }
    assert(s.subrange(0, k) =~= a);
    assert(s.subrange(k + 1, s.len() as int) =~= b);
}

/// Powers of ten.
pub open spec fn pow10(k: nat) -> nat
    decreases k,
{
    if k == 0 {
        1
    } else {
        10 * pow10((k - 1) as nat)
    }
}

/// A number below `10^k` has at most `k` decimal digits (`k >= 1`).
pub proof fn lemma_decimal_len(n: nat, k: nat)
    requires
        k >= 1,
        n < pow10(k),
    ensures
        decimal(n).len() <= k,
    decreases n,
{
    if n >= 10 {
        assert(k >= 2) by {
            if k == 1 {
                assert(pow10(1) == 10 * pow10(0));
            }
        }
        assert(pow10(k) == 10 * pow10((k - 1) as nat));
        lemma_decimal_len(n / 10, (k - 1) as nat);
    }
}

/// A `u64` has at most twenty decimal digits.
pub proof fn lemma_decimal_len_u64(n: nat)
    requires
        n <= u64::MAX,
    ensures
        decimal(n).len() <= 20,
{
    reveal_with_fuel(pow10, 21);
    assert(pow10(20) == 100000000000000000000nat);
    lemma_decimal_len(n, 20);
}

/// Stripping never lengthens.
pub proof fn lemma_strip_len(s: Seq<char>, target: Option<char>)
    ensures
        strip(s, target).len() <= s.len(),
{
    lemma_strip_start_len(s, target);
    lemma_strip_end_len(strip_start(s, target), target);
}

proof fn lemma_strip_start_len(s: Seq<char>, target: Option<char>)
    ensures
        strip_start(s, target).len() <= s.len(),
    decreases s.len(),
{
    if s.len() > 0 && strips(target, s[0]) {
        lemma_strip_start_len(s.drop_first(), target);
    }
}

proof fn lemma_strip_end_len(s: Seq<char>, target: Option<char>)
    ensures
        strip_end(s, target).len() <= s.len(),
    decreases s.len(),
{
    if s.len() > 0 && strips(target, s.last()) {
        lemma_strip_end_len(s.drop_last(), target);
    }
}

/// Where a leading strip stops: everything before it is stripped, and the
/// character there (if any) is not.
proof fn lemma_strip_start_at(s: Seq<char>, target: Option<char>) -> (k: int)
    ensures
        0 <= k <= s.len(),
        strip_start(s, target) == s.subrange(k, s.len() as int),
        forall|m: int| 0 <= m < k ==> strips(target, #[trigger] s[m]),
        k < s.len() ==> !strips(target, s[k]),
    decreases s.len(),
{
    if s.len() > 0 && strips(target, s[0]) {
        let k1 = lemma_strip_start_at(s.drop_first(), target);
        assert(s.drop_first().subrange(k1, s.len() - 1) =~= s.subrange(k1 + 1, s.len() as int));
        assert forall|m: int| 0 <= m < k1 + 1 implies strips(target, #[trigger] s[m]) by {
            if m > 0 {
                assert(s[m] == s.drop_first()[m - 1]);
            }
        }
        if k1 + 1 < s.len() {
            assert(s[k1 + 1] == s.drop_first()[k1]);
        }
        k1 + 1
    } else {
        assert(s.subrange(0, s.len() as int) =~= s);
        0
    }
}

/// Where a trailing strip stops: everything from there on is stripped, and
/// the character before it (if any) is not.
proof fn lemma_strip_end_at(s: Seq<char>, target: Option<char>) -> (k: int)
    ensures
        0 <= k <= s.len(),
        strip_end(s, target) == s.subrange(0, k),
        forall|m: int| k <= m < s.len() ==> strips(target, #[trigger] s[m]),
        k > 0 ==> !strips(target, s[k - 1]),
    decreases s.len(),
{
    if s.len() > 0 && strips(target, s.last()) {
        let k1 = lemma_strip_end_at(s.drop_last(), target);
        assert(s.drop_last().subrange(0, k1) =~= s.subrange(0, k1));
        assert forall|m: int| k1 <= m < s.len() implies strips(target, #[trigger] s[m]) by {
            if m < s.len() - 1 {
                assert(s[m] == s.drop_last()[m]);
            }
        }
        if k1 > 0 {
            assert(s[k1 - 1] == s.drop_last()[k1 - 1]);
        }
        k1
    } else {
        assert(s.subrange(0, s.len() as int) =~= s);
        s.len() as int
    }
}

/// `trim` removes whitespace at both ends and nothing else: it is a contiguous
/// part of the text, everything cut off before and after it is whitespace,
/// and it neither starts nor ends with whitespace.
pub proof fn lemma_trim_cuts_only_surrounding_whitespace(s: Seq<char>)
    ensures
        exists|lo: int, hi: int|
            {
                &&& 0 <= lo <= hi <= s.len()
                &&& #[trigger] s.subrange(lo, hi) == trim(s)
                &&& forall|m: int| 0 <= m < lo ==> is_space(#[trigger] s[m])
                &&& forall|m: int| hi <= m < s.len() ==> is_space(#[trigger] s[m])
                &&& lo < hi ==> !is_space(s[lo]) && !is_space(s[hi - 1])
            },
{
    let lo = lemma_strip_start_at(s, None);
    let t = strip_start(s, None);
    let k = lemma_strip_end_at(t, None);
    let hi = lo + k;
    assert(trim(s) == t.subrange(0, k));
    assert(t.subrange(0, k) =~= s.subrange(lo, hi));
    assert forall|m: int| hi <= m < s.len() implies is_space(#[trigger] s[m]) by {
        assert(s[m] == t[m - lo]);
        assert(strips(None, t[m - lo]));
    }
    assert forall|m: int| 0 <= m < lo implies is_space(#[trigger] s[m]) by {
        assert(strips(None, s[m]));
    }
    if lo < hi {
        assert(s[hi - 1] == t[k - 1]);
        assert(!strips(None, t[k - 1]));
        assert(!strips(None, s[lo]));
    }
    assert(s.subrange(lo, hi) == trim(s));
}

/// Cutting trailing copies of `t` (`str::trim_end_matches(t)`) removes a run
/// of `t` at the end and nothing else: what is left is a prefix of the text
/// that does not end with `t`.
pub proof fn lemma_strip_end_cuts_only_trailing(s: Seq<char>, t: char)
    ensures
        exists|k: int|
            {
                &&& 0 <= k <= s.len()
                &&& #[trigger] s.subrange(0, k) == strip_end(s, Some(t))
                &&& forall|m: int| k <= m < s.len() ==> #[trigger] s[m] == t
                &&& k > 0 ==> s[k - 1] != t
            },
{
    let k = lemma_strip_end_at(s, Some(t));
    assert forall|m: int| k <= m < s.len() implies #[trigger] s[m] == t by {
        assert(strips(Some(t), s[m]));
    }
    assert(s.subrange(0, k) == strip_end(s, Some(t)));
}

/// UTF-8 takes at most four bytes per character.
pub proof fn lemma_utf8_len(s: Seq<char>)
    ensures
        vstd::utf8::encode_utf8(s).len() <= 4 * s.len(),
    decreases s.len(),
{
    if s.len() > 0 {
        lemma_utf8_len(s.drop_first());
        assert(vstd::utf8::encode_scalar(s[0] as u32).len() <= 4);
    }
}

proof fn lemma_first_index_is(s: Seq<char>, c: char, k: int)
    requires
        0 <= k < s.len(),
        s[k] == c,
        forall|j: int| 0 <= j < k ==> s[j] != c,
    ensures
        first_index(s, c) == Some(k),
{
    let i = choose|i: int| 0 <= i < s.len() && s[i] == c && forall|j: int| 0 <= j < i ==> s[j] != c;
    assert(0 <= i < s.len() && s[i] == c && forall|j: int| 0 <= j < i ==> s[j] != c);
    if i < k {
        assert(s[i] != c);
    } else if i > k {
        assert(s[k] != c);
    }
}

proof fn lemma_digits_value_push(s: Seq<char>, c: char)
    ensures
        digits_value(s.push(c)) == digits_value(s) * 10 + digit_value(c),
{
    assert(s.push(c).drop_last() =~= s);
}

proof fn lemma_digits_value_prefix(s: Seq<char>, k: int)
    requires
        0 <= k <= s.len(),
        all_digits(s),
    ensures
        digits_value(s.subrange(0, k)) <= digits_value(s),
    decreases s.len() - k,
{
    if k < s.len() {
        lemma_digits_value_prefix(s, k + 1);
        let p = s.subrange(0, k + 1);
        assert(p.drop_last() =~= s.subrange(0, k));
        assert(is_digit(s[k]));
        assert(digits_value(p) == digits_value(s.subrange(0, k)) * 10 + digit_value(s[k]));
    } else {
        assert(s.subrange(0, k) =~= s);
    }
}

// ------------------------------------------------------------------ exec

/// The characters of `s`, in order.
pub fn chars_of(s: &str) -> (v: Vec<char>)
    ensures
        v@ == s@,
{
    let mut v: Vec<char> = Vec::new();
    for c in it: s.chars()
        invariant
            v@ == it.seq().take(it.index() as int),
            it.seq() == s@,
    {
        v.push(c);
    }
    v
}

/// Collects characters into an owned string (`FromIterator<&char> for String`).
#[verifier::external_body]
pub fn string_from_chars(v: &[char]) -> (s: String)
    ensures
        s@ == v@,
{
    v.iter().collect()
}

/// Copies `v[lo..hi]`.
pub fn copy_range(v: &[char], lo: usize, hi: usize) -> (r: Vec<char>)
    requires
        lo <= hi <= v@.len(),
    ensures
        r@ == v@.subrange(lo as int, hi as int),
{
    let mut r: Vec<char> = Vec::new();
    let mut i = lo;
    while i < hi
        invariant
            lo <= i <= hi <= v@.len(),
            r@ == v@.subrange(lo as int, i as int),
        decreases hi - i,
    {
        r.push(v[i]);
        i = i + 1;
    }
    r
}

/// Appends `b` to `a`.
pub fn append_chars(a: &mut Vec<char>, b: &[char])
    ensures
        final(a)@ == old(a)@ + b@,
{
    let mut i: usize = 0;
    while i < b.len()
        invariant
            i <= b@.len(),
            a@ == old(a)@ + b@.subrange(0, i as int),
        decreases b.len() - i,
    {
        a.push(b[i]);
        i = i + 1;
    }
}

/// `a + b + c` as a new string.
pub fn concat3(a: &str, b: &str, c: &str) -> (r: String)
    ensures
        r@ == a@ + b@ + c@,
{
    let mut v = chars_of(a);
    append_chars(&mut v, &chars_of(b));
    append_chars(&mut v, &chars_of(c));
    string_from_chars(&v)
}

/// `a + b` as a new string.
pub fn concat2(a: &str, b: &str) -> (r: String)
    ensures
        r@ == a@ + b@,
{
    let mut v = chars_of(a);
    append_chars(&mut v, &chars_of(b));
    string_from_chars(&v)
}

/// An owned copy of `s`.
pub fn owned(s: &str) -> (r: String)
    ensures
        r@ == s@,
{
    let v = chars_of(s);
    string_from_chars(&v)
}

/// Appends the characters of `s` to `out`.
pub fn append_str(out: &mut Vec<char>, s: &str)
    ensures
        final(out)@ == old(out)@ + s@,
{
    let v = chars_of(s);
    append_chars(out, &v);
}

/// Whether `c` is Unicode whitespace (`char::is_whitespace`).
pub fn is_space_char(c: char) -> (b: bool)
    ensures
        b == is_space(c),
{
    let u = c as u32;
    (9 <= u && u <= 13) || u == 0x20 || u == 0x85 || u == 0xA0 || u == 0x1680 || (0x2000 <= u
        && u <= 0x200A) || u == 0x2028 || u == 0x2029 || u == 0x202F || u == 0x205F || u == 0x3000
}

fn strips_char(target: Option<char>, c: char) -> (b: bool)
    ensures
        b == strips(target, c),
{
    match target {
        None => is_space_char(c),
        Some(t) => c == t,
    }
}

/// The bounds of `strip(v[lo..hi], target)` within `v`.
pub fn strip_bounds(v: &[char], lo: usize, hi: usize, target: Option<char>) -> (r: (usize, usize))
    requires
        lo <= hi <= v@.len(),
    ensures
        lo <= r.0 <= r.1 <= hi,
        v@.subrange(r.0 as int, r.1 as int) == strip(v@.subrange(lo as int, hi as int), target),
{
    let ghost s = v@.subrange(lo as int, hi as int);
    let mut i = lo;
    while i < hi && strips_char(target, v[i])
        invariant
            lo <= i <= hi <= v@.len(),
            strip_start(s, target) == strip_start(v@.subrange(i as int, hi as int), target),
        decreases hi - i,
    {
        assert(v@.subrange(i as int, hi as int).drop_first() =~= v@.subrange(i + 1, hi as int));
        i = i + 1;
    }
    assert(strip_start(s, target) == v@.subrange(i as int, hi as int)) by {
        if i == hi {
            assert(v@.subrange(i as int, hi as int).len() == 0);
        }
    }
    let mut j = hi;
    while j > i && strips_char(target, v[j - 1])
        invariant
            lo <= i <= j <= hi <= v@.len(),
            strip_end(v@.subrange(i as int, hi as int), target) == strip_end(
                v@.subrange(i as int, j as int),
                target,
            ),
        decreases j - i,
    {
        assert(v@.subrange(i as int, j as int).drop_last() =~= v@.subrange(i as int, j - 1));
        j = j - 1;
    }
    (i, j)
}

/// The end of `strip_end(v[lo..hi], target)` within `v`.
pub fn strip_end_bound(v: &[char], lo: usize, hi: usize, target: Option<char>) -> (r: usize)
    requires
        lo <= hi <= v@.len(),
    ensures
        lo <= r <= hi,
        v@.subrange(lo as int, r as int) == strip_end(v@.subrange(lo as int, hi as int), target),
{
    let mut j = hi;
    while j > lo && strips_char(target, v[j - 1])
        invariant
            lo <= j <= hi <= v@.len(),
            strip_end(v@.subrange(lo as int, hi as int), target) == strip_end(
                v@.subrange(lo as int, j as int),
                target,
            ),
        decreases j - lo,
    {
        assert(v@.subrange(lo as int, j as int).drop_last() =~= v@.subrange(lo as int, j - 1));
        j = j - 1;
    }
    j
}

/// `strip(v, target)` as a new vector.
pub fn strip_chars(v: &[char], target: Option<char>) -> (r: Vec<char>)
    ensures
        r@ == strip(v@, target),
{
    let (a, b) = strip_bounds(v, 0, v.len(), target);
    assert(v@.subrange(0, v@.len() as int) =~= v@);
    copy_range(v, a, b)
}

/// `str::trim` on characters.
pub fn trim_chars(v: &[char]) -> (r: Vec<char>)
    ensures
        r@ == trim(v@),
{
    strip_chars(v, None)
}

/// `s.trim().is_empty()`.
pub fn is_blank_str(s: &str) -> (b: bool)
    ensures
        b == is_blank(s@),
{
    let v = chars_of(s);
    let (a, c) = strip_bounds(&v, 0, v.len(), None);
    assert(v@.subrange(0, v@.len() as int) =~= v@);
    a == c
}

/// Whether `v[lo..hi] == p`.
pub fn range_equals(v: &[char], lo: usize, hi: usize, p: &[char]) -> (b: bool)
    requires
        lo <= hi <= v@.len(),
    ensures
        b == (v@.subrange(lo as int, hi as int) == p@),
{
    if hi - lo != p.len() {
        return false;
    }
    let mut k: usize = 0;
    while k < p.len()
        invariant
            hi - lo == p@.len(),
            lo <= hi <= v@.len(),
            k <= p@.len(),
            forall|m: int| 0 <= m < k ==> v@[lo + m] == p@[m],
        decreases p.len() - k,
    {
        if v[lo + k] != p[k] {
            assert(v@.subrange(lo as int, hi as int)[k as int] != p@[k as int]);
            return false;
        }
        k = k + 1;
    }
    assert(v@.subrange(lo as int, hi as int) =~= p@);
    true
}

/// Whether two character sequences are equal.
pub fn chars_equal(a: &[char], b: &[char]) -> (r: bool)
    ensures
        r == (a@ == b@),
{
    let r = range_equals(a, 0, a.len(), b);
    assert(a@.subrange(0, a@.len() as int) =~= a@);
    r
}

/// Whether `v` starts with `p`.
pub fn has_prefix(v: &[char], p: &[char]) -> (b: bool)
    ensures
        b == starts_with(v@, p@),
{
    if p.len() > v.len() {
        false
    } else {
        range_equals(v, 0, p.len(), p)
    }
}

/// The index of the first `c` in `v`, if any.
pub fn find_char(v: &[char], c: char) -> (r: Option<usize>)
    ensures
        r matches Some(k) ==> k < v@.len() && v@[k as int] == c && first_index(v@, c) == Some(
            k as int,
        ),
        r is None ==> first_index(v@, c) is None,
{
    let mut i: usize = 0;
    while i < v.len()
        invariant
            i <= v@.len(),
            forall|j: int| 0 <= j < i ==> v@[j] != c,
        decreases v.len() - i,
    {
        if v[i] == c {
            proof {
                lemma_first_index_is(v@, c, i as int);
            }
            return Some(i);
        }
        i = i + 1;
    }
    None
}

/// `str::split_once(c)` on characters.
pub fn split_once_chars(v: &[char], c: char) -> (r: Option<(Vec<char>, Vec<char>)>)
    ensures
        match r {
            Some((a, b)) => split_once(v@, c) == Some((a@, b@)),
            None => split_once(v@, c) is None,
        },
{
    let n = v.len();
    match find_char(v, c) {
        Some(k) => {
            let a = copy_range(v, 0, k);
            let b = copy_range(v, k + 1, n);
            Some((a, b))
        },
        None => None,
    }
}

/// `u64::from_str` on characters.
pub fn parse_u64_chars(s: &[char]) -> (r: Option<u64>)
    ensures
        r == parse_u64(s@),
{
    let start: usize = if s.len() > 0 && s[0] == '+' {
        1
    } else {
        0
    };
    let ghost body = unsigned_digits(s@);
    assert(body =~= s@.subrange(start as int, s@.len() as int));
    if start >= s.len() {
        return None;
    }
    let mut value: u64 = 0;
    let mut i = start;
    while i < s.len()
        invariant
            start <= i <= s@.len(),
            body == unsigned_digits(s@),
            body == s@.subrange(start as int, s@.len() as int),
            all_digits(s@.subrange(start as int, i as int)),
            value == digits_value(s@.subrange(start as int, i as int)),
        decreases s.len() - i,
    {
        let c = s[i];
        let ghost prefix = s@.subrange(start as int, i as int);
        assert(s@.subrange(start as int, i + 1) =~= prefix.push(c));
        proof {
            lemma_digits_value_push(prefix, c);
        }
        if !('0' <= c && c <= '9') {
            assert(body[i - start] == c);
            assert(!is_digit(body[i - start]));
            assert(!all_digits(body));
            return None;
        }
        let d = (c as u32 - 48) as u64;
        if value > (u64::MAX - d) / 10 {
            proof {
                assert(digits_value(prefix.push(c)) > u64::MAX) by (nonlinear_arith)
                    requires
                        digits_value(prefix.push(c)) == value * 10 + d,
                        value > (u64::MAX - d) / 10,
                        d < 10,
                ;
                if all_digits(body) {
                    lemma_digits_value_prefix(body, i + 1 - start);
                    assert(body.subrange(0, i + 1 - start) =~= prefix.push(c));
                    assert(digits_value(body) > u64::MAX);
                }
                assert(parse_u64(s@) is None);
            }
            return None;
        }
        assert(value * 10 + d <= u64::MAX) by (nonlinear_arith)
            requires
                value <= (u64::MAX - d) / 10,
                d < 10,
        ;
        value = value * 10 + d;
        i = i + 1;
    }
    assert(s@.subrange(start as int, i as int) =~= body);
    Some(value)
}

/// Appends the decimal notation of `n` to `out`.
pub fn push_decimal(out: &mut Vec<char>, n: u64)
    ensures
        final(out)@ == old(out)@ + decimal(n as nat),
    decreases n,
{
    if n >= 10 {
        push_decimal(out, n / 10);
    }
    let d = (n % 10) as u8;
    let c = (d + 48) as char;
    out.push(c);
}

/// Appends the last `width` lowercase hexadecimal digits of `n` to `out`.
pub fn push_hex_padded(out: &mut Vec<char>, n: u64, width: u8)
    ensures
        final(out)@ == old(out)@ + hex_padded(n as nat, width as nat),
    decreases width,
{
    if width > 0 {
        push_hex_padded(out, n / 16, width - 1);
        let d = (n % 16) as u8;
        let c = if d < 10 {
            (d + 48) as char
        } else {
            (d + 87) as char
        };
        out.push(c);
    }
}

} // verus!
