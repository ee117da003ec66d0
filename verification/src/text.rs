//! Character-level text helpers shared by the parsers and renderers.
//!
//! Text is processed as sequences of `char`; the two conversions between a
//! string and its characters are the only trusted std items here.

use vstd::prelude::*;

verus! {

/// The characters of a string slice, in order.
#[verifier::external_body]
pub(crate) fn chars_of(s: &str) -> (r: Vec<char>)
    ensures
        r@ == s@,
{
    s.chars().collect()
}

/// A string holding exactly the given characters.
#[verifier::external_body]
pub(crate) fn string_of(v: &[char]) -> (r: String)
    ensures
        r@ == v@,
{
    v.iter().collect()
}

/// Unicode `White_Space` (what `char::is_whitespace` tests).
pub open spec fn is_ws(c: char) -> bool {
    ||| c == '\t' || c == '\n' || c == '\u{0B}' || c == '\u{0C}' || c == '\r' || c == ' '
    ||| c == '\u{85}' || c == '\u{A0}' || c == '\u{1680}'
    ||| ('\u{2000}' <= c && c <= '\u{200A}')
    ||| c == '\u{2028}' || c == '\u{2029}' || c == '\u{202F}' || c == '\u{205F}' || c == '\u{3000}'
}

/// Executable form of [`is_ws`].
pub fn is_whitespace(c: char) -> (r: bool)
    ensures
        r == is_ws(c),
{
    c == '\t' || c == '\n' || c == '\u{0B}' || c == '\u{0C}' || c == '\r' || c == ' '
        || c == '\u{85}' || c == '\u{A0}' || c == '\u{1680}'
        || ('\u{2000}' <= c && c <= '\u{200A}')
        || c == '\u{2028}' || c == '\u{2029}' || c == '\u{202F}' || c == '\u{205F}'
        || c == '\u{3000}'
}

} // verus!

verus! {

pub open spec fn is_digit(c: char) -> bool {
    '0' <= c && c <= '9'
}

pub open spec fn digit_val(c: char) -> int {
    (c as int) - ('0' as int)
}

pub open spec fn all_digits(s: Seq<char>) -> bool {
    forall|i: int| 0 <= i < s.len() ==> #[trigger] is_digit(s[i])
}

/// Decimal value of a digit string.
pub open spec fn digits_value(s: Seq<char>) -> int
    decreases s.len(),
{
    if s.len() == 0 {
        0
    } else {
        digits_value(s.drop_last()) * 10 + digit_val(s.last())
    }
}

/// What `str::parse` gives for an unsigned integer type: an optional leading
/// `+`, then one or more ASCII digits, and a value no larger than `max`.
pub open spec fn parse_unsigned(s: Seq<char>, max: int) -> Option<int> {
    let t = if s.len() > 0 && s[0] == '+' { s.drop_first() } else { s };
    if t.len() > 0 && all_digits(t) && digits_value(t) <= max {
        Some(digits_value(t))
    } else {
        None
    }
}

pub proof fn lemma_digits_value_nonneg(s: Seq<char>)
    requires
        all_digits(s),
    ensures
        digits_value(s) >= 0,
    decreases s.len(),
{
    if s.len() > 0 {
        assert(all_digits(s.drop_last()));
        assert(is_digit(s[s.len() - 1]));
        lemma_digits_value_nonneg(s.drop_last());
    }
}

/// A longer digit string is worth at least as much as its prefix.
pub proof fn lemma_digits_value_prefix(s: Seq<char>, k: int)
    requires
        all_digits(s),
        0 <= k <= s.len(),
    ensures
        digits_value(s.take(k)) <= digits_value(s),
    decreases s.len() - k,
{
    if k < s.len() {
        lemma_digits_value_prefix(s, k + 1);
        assert(s.take(k + 1).drop_last() =~= s.take(k));
        assert(all_digits(s.take(k)));
        assert(is_digit(s[k]));
        assert(s.take(k + 1).last() == s[k]);
        lemma_digits_value_nonneg(s.take(k));
    } else {
        assert(s.take(k) =~= s);
    }
}

/// Parse an unsigned decimal with `str::parse::<u64>` semantics.
pub fn parse_u64(s: &[char]) -> (r: Option<u64>)
    ensures
        r matches Some(v) ==> parse_unsigned(s@, u64::MAX as int) == Some(v as int),
        r is None ==> parse_unsigned(s@, u64::MAX as int) is None,
{
    let n = s.len();
    let start: usize = if n > 0 && s[0] == '+' { 1 } else { 0 };
    let ghost t = if s@.len() > 0 && s@[0] == '+' { s@.drop_first() } else { s@ };
    assert(t =~= s@.subrange(start as int, n as int));
    if start >= n {
        return None;
    }
    let mut acc: u64 = 0;
    let mut i = start;
    while i < n
        invariant
            start <= i <= n,
            n == s@.len(),
            t =~= s@.subrange(start as int, n as int),
            t == (if s@.len() > 0 && s@[0] == '+' { s@.drop_first() } else { s@ }),
            all_digits(t.take(i - start)),
            acc as int == digits_value(t.take(i - start)),
        decreases n - i,
    {
        let c = s[i];
        if !('0' <= c && c <= '9') {
            assert(!is_digit(t[i - start]));
            assert(!all_digits(t));
            return None;
        }
        let d = (c as u32 - '0' as u32) as u64;
        assert(t.take(i - start + 1).drop_last() =~= t.take(i - start));
        assert(all_digits(t.take(i - start + 1)));
        if acc > (u64::MAX - d) / 10 {
            proof {
                assert(t.take(i - start + 1).last() == c);
                assert(acc * 10 + d > u64::MAX) by (nonlinear_arith)
                    requires acc > (u64::MAX - d) / 10, d <= 9;
                assert(digits_value(t.take(i - start + 1)) > u64::MAX);
                if all_digits(t) {
                    lemma_digits_value_prefix(t, i - start + 1);
                }
            }
            return None;
        }
        acc = acc * 10 + d;
        i += 1;
    }
    assert(t.take(n - start) =~= t);
    Some(acc)
}

/// Parse an unsigned decimal with `str::parse::<u32>` semantics.
pub fn parse_u32(s: &[char]) -> (r: Option<u32>)
    ensures
        r matches Some(v) ==> parse_unsigned(s@, u32::MAX as int) == Some(v as int),
        r is None ==> parse_unsigned(s@, u32::MAX as int) is None,
{
    match parse_u64(s) {
        Some(v) => {
            if v <= u32::MAX as u64 {
                Some(v as u32)
            } else {
                None
            }
        },
        None => {
            proof {
                let t = if s@.len() > 0 && s@[0] == '+' { s@.drop_first() } else { s@ };
                if t.len() > 0 && all_digits(t) {
                    lemma_digits_value_nonneg(t);
                }
            }
            None
        },
    }
}

} // verus!

verus! {

pub open spec fn digit_char(d: int) -> char {
    (('0' as int) + d) as char
}

/// Decimal digits of `n`, no leading zeros.
pub open spec fn dec(n: nat) -> Seq<char>
    decreases n,
{
    if n < 10 {
        seq![digit_char(n as int)]
    } else {
        dec(n / 10).push(digit_char((n % 10) as int))
    }
}

/// `s` left-padded with `'0'` to width `w`.
pub open spec fn pad_zero(s: Seq<char>, w: int) -> Seq<char> {
    if s.len() < w {
        Seq::new((w - s.len()) as nat, |i: int| '0') + s
    } else {
        s
    }
}

/// What `format!("{:0w$}", v)` gives for an integer `v`.
pub open spec fn fmt_int(v: int, w: int) -> Seq<char> {
    if v < 0 {
        seq!['-'] + pad_zero(dec((-v) as nat), w - 1)
    } else {
        pad_zero(dec(v as nat), w)
    }
}

/// Decimal digits of `n`.
pub fn dec_chars(n: u64) -> (r: Vec<char>)
    ensures
        r@ == dec(n as nat),
    decreases n,
{
    let d = ((n % 10) as u8 + 48u8) as char;
    if n < 10 {
        let mut v = Vec::new();
        v.push(d);
        v
    } else {
        let mut v = dec_chars(n / 10);
        v.push(d);
        v
    }
}

/// Left-pad `s` with zeros to width `w`.
pub fn pad_zero_chars(s: Vec<char>, w: usize) -> (r: Vec<char>)
    ensures
        r@ == pad_zero(s@, w as int),
{
    if s.len() < w {
        let mut out: Vec<char> = Vec::new();
        let k = w - s.len();
        let mut i: usize = 0;
        while i < k
            invariant
                i <= k,
                out@ =~= Seq::new(i as nat, |j: int| '0'),
            decreases k - i,
        {
            out.push('0');
            i += 1;
        }
        let mut j: usize = 0;
        while j < s.len()
            invariant
                j <= s.len(),
                out@ =~= Seq::new(k as nat, |x: int| '0') + s@.take(j as int),
            decreases s.len() - j,
        {
            out.push(s[j]);
            j += 1;
            assert(s@.take(j as int) =~= s@.take(j - 1).push(s@[j - 1]));
        }
        assert(s@.take(s.len() as int) =~= s@);
        out
    } else {
        s
    }
}

/// `format!("{:0w$}", v)` for a signed integer.
pub fn fmt_i64(v: i64, w: usize) -> (r: Vec<char>)
    requires
        v > i64::MIN,
        w >= 1,
    ensures
        r@ == fmt_int(v as int, w as int),
{
    if v < 0 {
        let body = pad_zero_chars(dec_chars((-v) as u64), w - 1);
        let mut out: Vec<char> = Vec::new();
        out.push('-');
        let mut j: usize = 0;
        while j < body.len()
            invariant
                j <= body.len(),
                out@ =~= seq!['-'] + body@.take(j as int),
            decreases body.len() - j,
        {
            out.push(body[j]);
            j += 1;
            assert(body@.take(j as int) =~= body@.take(j - 1).push(body@[j - 1]));
        }
        assert(body@.take(body.len() as int) =~= body@);
        out
    } else {
        pad_zero_chars(dec_chars(v as u64), w)
    }
}

/// Append all of `b` to `a`.
pub fn extend_chars(a: &mut Vec<char>, b: &[char])
    ensures
        final(a)@ == old(a)@ + b@,
{
    let mut j: usize = 0;
    let ghost a0 = a@;
    while j < b.len()
        invariant
            j <= b.len(),
            a@ =~= a0 + b@.take(j as int),
        decreases b.len() - j,
    {
        a.push(b[j]);
        j += 1;
        assert(b@.take(j as int) =~= b@.take(j - 1).push(b@[j - 1]));
    }
    assert(b@.take(b.len() as int) =~= b@);
}

} // verus!

verus! {

/// `s` without leading whitespace.
pub open spec fn ltrim(s: Seq<char>) -> Seq<char>
    decreases s.len(),
{
    if s.len() > 0 && is_ws(s[0]) {
        ltrim(s.drop_first())
    } else {
        s
    }
}

/// `s` without trailing whitespace.
pub open spec fn rtrim(s: Seq<char>) -> Seq<char>
    decreases s.len(),
{
    if s.len() > 0 && is_ws(s.last()) {
        rtrim(s.drop_last())
    } else {
        s
    }
}

/// `str::trim`: `s` without leading or trailing whitespace.
pub open spec fn trim(s: Seq<char>) -> Seq<char> {
    rtrim(ltrim(s))
}

pub proof fn lemma_ltrim_skip(s: Seq<char>, lo: int)
    requires
        0 <= lo <= s.len(),
        forall|j: int| 0 <= j < lo ==> is_ws(#[trigger] s[j]),
        lo == s.len() || !is_ws(s[lo]),
    ensures
        ltrim(s) == s.skip(lo),
    decreases lo,
{
    if lo == 0 {
        assert(s.skip(0) =~= s);
    } else {
        let t = s.drop_first();
        assert forall|j: int| 0 <= j < lo - 1 implies is_ws(#[trigger] t[j]) by {
            assert(t[j] == s[j + 1]);
        }
        lemma_ltrim_skip(t, lo - 1);
        assert(t.skip(lo - 1) =~= s.skip(lo));
    }
}

pub proof fn lemma_rtrim_take(s: Seq<char>, hi: int)
    requires
        0 <= hi <= s.len(),
        forall|j: int| hi <= j < s.len() ==> is_ws(#[trigger] s[j]),
        hi == 0 || !is_ws(s[hi - 1]),
    ensures
        rtrim(s) == s.take(hi),
    decreases s.len() - hi,
{
    if hi == s.len() {
        assert(s.take(hi) =~= s);
    } else {
        let t = s.drop_last();
        assert forall|j: int| hi <= j < t.len() implies is_ws(#[trigger] t[j]) by {
            assert(t[j] == s[j]);
        }
        lemma_rtrim_take(t, hi);
        assert(t.take(hi) =~= s.take(hi));
    }
}

/// `str::trim` on characters.
pub fn trim_chars(s: &[char]) -> (r: Vec<char>)
    ensures
        r@ == trim(s@),
{
    let n = s.len();
    let mut lo: usize = 0;
    while lo < n && is_whitespace(s[lo])
        invariant
            lo <= n,
            n == s.len(),
            forall|j: int| 0 <= j < lo ==> is_ws(#[trigger] s@[j]),
        decreases n - lo,
    {
        lo += 1;
    }
    proof {
        lemma_ltrim_skip(s@, lo as int);
    }
    let ghost l = s@.skip(lo as int);
    let mut hi: usize = n;
    while hi > lo && is_whitespace(s[hi - 1])
        invariant
            lo <= hi <= n,
            n == s.len(),
            l == s@.skip(lo as int),
            forall|j: int| hi - lo <= j < l.len() ==> is_ws(#[trigger] l[j]),
        decreases hi,
    {
        assert(l[hi - 1 - lo] == s@[hi - 1]);
        hi -= 1;
    }
    proof {
        if hi > lo {
            assert(l[hi - lo - 1] == s@[hi - 1]);
        }
        lemma_rtrim_take(l, hi - lo);
        assert(l.take(hi - lo) =~= s@.subrange(lo as int, hi as int));
    }
    let mut out: Vec<char> = Vec::new();
    let mut i = lo;
    while i < hi
        invariant
            lo <= i <= hi,
            hi <= n,
            n == s.len(),
            out@ =~= s@.subrange(lo as int, i as int),
        decreases hi - i,
    {
        out.push(s[i]);
        i += 1;
    }
    out
}

/// Whether all of `s` is whitespace (so it trims to nothing).
pub proof fn lemma_trim_empty(s: Seq<char>)
    ensures
        (trim(s).len() == 0) <==> (forall|j: int| 0 <= j < s.len() ==> is_ws(#[trigger] s[j])),
    decreases s.len(),
{
    if s.len() > 0 && is_ws(s[0]) {
        lemma_trim_empty(s.drop_first());
        assert forall|j: int| 0 <= j < s.len() && (forall|k: int| 0 <= k < s.drop_first().len() ==> is_ws(#[trigger] s.drop_first()[k])) implies is_ws(#[trigger] s[j]) by {
            if j > 0 {
                assert(s[j] == s.drop_first()[j - 1]);
            }
        }
        assert(forall|k: int| 0 <= k < s.drop_first().len() ==> s.drop_first()[k] == s[k + 1]);
    } else if s.len() > 0 {
        assert(ltrim(s) == s);
        lemma_rtrim_keeps_first(s);
        assert(!is_ws(s[0]));
    }
}

pub proof fn lemma_rtrim_keeps_first(s: Seq<char>)
    requires
        s.len() > 0,
        !is_ws(s[0]),
    ensures
        rtrim(s).len() > 0,
    decreases s.len(),
{
    if is_ws(s.last()) {
        assert(s.len() > 1);
        assert(s.drop_last()[0] == s[0]);
        lemma_rtrim_keeps_first(s.drop_last());
    }
}

/// Whether `s` trims to nothing.
pub fn is_blank(s: &str) -> (r: bool)
    ensures
        r == (trim(s@).len() == 0),
{
    let c = chars_of(s);
    let t = trim_chars(&c);
    t.len() == 0
}

/// Character-wise equality.
pub fn chars_eq(a: &[char], b: &[char]) -> (r: bool)
    ensures
        r == (a@ == b@),
{
    if a.len() != b.len() {
        return false;
    }
    let mut i: usize = 0;
    while i < a.len()
        invariant
            i <= a.len(),
            a.len() == b.len(),
            forall|j: int| 0 <= j < i ==> a@[j] == b@[j],
        decreases a.len() - i,
    {
        if a[i] != b[i] {
            return false;
        }
        i += 1;
    }
    assert(a@ =~= b@);
    true
}

/// String equality by content.
pub fn str_eq(a: &str, b: &str) -> (r: bool)
    ensures
        r == (a@ == b@),
{
    let x = chars_of(a);
    let y = chars_of(b);
    chars_eq(&x, &y)
}

} // verus!

verus! {

/// The text views of an optional string.
pub open spec fn opt_text(o: Option<String>) -> Option<Seq<char>> {
    match o {
        Some(s) => Some(s@),
        None => None,
    }
}

/// The text views of a list of strings.
pub open spec fn texts(v: Seq<String>) -> Seq<Seq<char>> {
    v.map_values(|s: String| s@)
}

/// `s` without leading copies of `c`.
pub open spec fn ltrim_char(s: Seq<char>, c: char) -> Seq<char>
    decreases s.len(),
{
    if s.len() > 0 && s[0] == c {
        ltrim_char(s.drop_first(), c)
    } else {
        s
    }
}

/// `s` without trailing copies of `c`.
pub open spec fn rtrim_char(s: Seq<char>, c: char) -> Seq<char>
    decreases s.len(),
{
    if s.len() > 0 && s.last() == c {
        rtrim_char(s.drop_last(), c)
    } else {
        s
    }
}

/// `str::trim_matches(c)`: `s` without leading or trailing copies of `c`.
pub open spec fn trim_char(s: Seq<char>, c: char) -> Seq<char> {
    rtrim_char(ltrim_char(s, c), c)
}

proof fn lemma_ltrim_char_skip(s: Seq<char>, c: char, lo: int)
    requires
        0 <= lo <= s.len(),
        forall|j: int| 0 <= j < lo ==> #[trigger] s[j] == c,
        lo == s.len() || s[lo] != c,
    ensures
        ltrim_char(s, c) == s.skip(lo),
    decreases lo,
{
    if lo == 0 {
        assert(s.skip(0) =~= s);
    } else {
        let t = s.drop_first();
        assert forall|j: int| 0 <= j < lo - 1 implies #[trigger] t[j] == c by {
            assert(t[j] == s[j + 1]);
        }
        lemma_ltrim_char_skip(t, c, lo - 1);
        assert(t.skip(lo - 1) =~= s.skip(lo));
    }
}

proof fn lemma_rtrim_char_take(s: Seq<char>, c: char, hi: int)
    requires
        0 <= hi <= s.len(),
        forall|j: int| hi <= j < s.len() ==> #[trigger] s[j] == c,
        hi == 0 || s[hi - 1] != c,
    ensures
        rtrim_char(s, c) == s.take(hi),
    decreases s.len() - hi,
{
    if hi == s.len() {
        assert(s.take(hi) =~= s);
    } else {
        let t = s.drop_last();
        assert forall|j: int| hi <= j < t.len() implies #[trigger] t[j] == c by {
            assert(t[j] == s[j]);
        }
        lemma_rtrim_char_take(t, c, hi);
        assert(t.take(hi) =~= s.take(hi));
    }
}

/// `str::trim_matches(c)` on characters.
pub fn trim_char_chars(s: &[char], c: char) -> (r: Vec<char>)
    ensures
        r@ == trim_char(s@, c),
{
    let n = s.len();
    let mut lo: usize = 0;
    while lo < n && s[lo] == c
        invariant
            lo <= n,
            n == s.len(),
            forall|j: int| 0 <= j < lo ==> #[trigger] s@[j] == c,
        decreases n - lo,
    {
        lo += 1;
    }
    proof {
        lemma_ltrim_char_skip(s@, c, lo as int);
    }
    let ghost l = s@.skip(lo as int);
    let mut hi: usize = n;
    while hi > lo && s[hi - 1] == c
        invariant
            lo <= hi <= n,
            n == s.len(),
            l == s@.skip(lo as int),
            forall|j: int| hi - lo <= j < l.len() ==> #[trigger] l[j] == c,
        decreases hi,
    {
        assert(l[hi - 1 - lo] == s@[hi - 1]);
        hi -= 1;
    }
    proof {
        if hi > lo {
            assert(l[hi - lo - 1] == s@[hi - 1]);
        }
        lemma_rtrim_char_take(l, c, hi - lo);
        assert(l.take(hi - lo) =~= s@.subrange(lo as int, hi as int));
    }
    let mut out: Vec<char> = Vec::new();
    let mut i = lo;
    while i < hi
        invariant
            lo <= i <= hi,
            hi <= n,
            n == s.len(),
            out@ =~= s@.subrange(lo as int, i as int),
        decreases hi - i,
    {
        out.push(s[i]);
        i += 1;
    }
    out
}

/// Whether a list of strings holds one equal to `s`.
pub fn contains_str(v: &Vec<String>, s: &str) -> (r: bool)
    ensures
        r == texts(v@).contains(s@),
{
    let mut i: usize = 0;
    while i < v.len()
        invariant
            i <= v.len(),
            forall|j: int| 0 <= j < i ==> v@[j]@ != s@,
        decreases v.len() - i,
    {
        if str_eq(v[i].as_str(), s) {
            assert(texts(v@)[i as int] == s@);
            return true;
        }
        i += 1;
    }
    assert forall|j: int| 0 <= j < texts(v@).len() implies texts(v@)[j] != s@ by {
        assert(texts(v@)[j] == v@[j]@);
    }
    false
}

} // verus!

verus! {

/// Decimal text is all digits and never empty.
pub proof fn lemma_dec_digits(n: nat)
    ensures
        all_digits(dec(n)),
        dec(n).len() >= 1,
    decreases n,
{
    if n >= 10 {
        lemma_dec_digits(n / 10);
        let d = dec(n / 10);
        assert forall|i: int| 0 <= i < dec(n).len() implies is_digit(#[trigger] dec(n)[i]) by {
            if i < d.len() {
                assert(dec(n)[i] == d[i]);
            }
        }
    }
}

/// Decimal text reads back as its number.
pub proof fn lemma_dec_value(n: nat)
    ensures
        digits_value(dec(n)) == n,
    decreases n,
{
    let d = (n % 10) as int;
    assert(digit_val(digit_char(d)) == d);
    if n >= 10 {
        lemma_dec_value(n / 10);
        assert(dec(n).drop_last() == dec(n / 10));
        assert(dec(n).last() == digit_char(d));
        assert(digits_value(dec(n)) == digits_value(dec(n).drop_last()) * 10 + digit_val(dec(n).last()));
        assert((n / 10) * 10 + n % 10 == n) by (nonlinear_arith);
    } else {
        assert(dec(n).drop_last() =~= Seq::<char>::empty());
        assert(dec(n).last() == digit_char(d));
        assert(digits_value(dec(n)) == digits_value(dec(n).drop_last()) * 10 + digit_val(dec(n).last()));
    }
}

/// `str::parse` reads decimal text back as its number.
pub proof fn lemma_parse_dec(n: nat, max: int)
    requires
        n <= max,
    ensures
        parse_unsigned(dec(n), max) == Some(n as int),
{
    lemma_dec_digits(n);
    lemma_dec_value(n);
    assert(dec(n)[0] != '+') by {
        assert(is_digit(dec(n)[0]));
    }
}

/// How many digits a small number has.
pub proof fn lemma_dec_len(n: nat)
    ensures
        n < 10 ==> dec(n).len() == 1,
        10 <= n < 100 ==> dec(n).len() == 2,
        100 <= n < 1000 ==> dec(n).len() == 3,
        1000 <= n < 10000 ==> dec(n).len() == 4,
    decreases n,
{
    if n >= 10 {
        lemma_dec_len(n / 10);
    }
}

/// A nonnegative number formatted to a width it fits in is exactly that many digits.
pub proof fn lemma_fmt_digits(v: int, w: int)
    requires
        0 <= v,
        dec(v as nat).len() <= w,
    ensures
        fmt_int(v, w).len() == w,
        all_digits(fmt_int(v, w)),
{
    lemma_dec_digits(v as nat);
    let d = dec(v as nat);
    let f = fmt_int(v, w);
    if d.len() < w {
        let z = Seq::new((w - d.len()) as nat, |i: int| '0');
        assert(f == z + d);
        assert forall|i: int| 0 <= i < f.len() implies is_digit(#[trigger] f[i]) by {
            if i < z.len() {
                assert(f[i] == '0');
            } else {
                assert(f[i] == d[i - z.len()]);
            }
        }
    }
}

} // verus!

verus! {

/// Lexicographic order on characters: `str`'s `Ord` (byte order of UTF-8,
/// which is code-point order).
pub open spec fn text_lt(a: Seq<char>, b: Seq<char>) -> bool
    decreases a.len(),
{
    if a.len() == 0 {
        b.len() > 0
    } else if b.len() == 0 {
        false
    } else if a[0] != b[0] {
        a[0] < b[0]
    } else {
        text_lt(a.drop_first(), b.drop_first())
    }
}

pub proof fn lemma_text_lt_irrefl(a: Seq<char>)
    ensures
        !text_lt(a, a),
    decreases a.len(),
{
    if a.len() > 0 {
        lemma_text_lt_irrefl(a.drop_first());
    }
}

pub proof fn lemma_text_lt_asym(a: Seq<char>, b: Seq<char>)
    requires
        text_lt(a, b),
    ensures
        !text_lt(b, a),
    decreases a.len(),
{
    if a.len() > 0 && b.len() > 0 && a[0] == b[0] {
        lemma_text_lt_asym(a.drop_first(), b.drop_first());
    }
}

pub proof fn lemma_text_lt_trans(a: Seq<char>, b: Seq<char>, c: Seq<char>)
    requires
        text_lt(a, b),
        text_lt(b, c),
    ensures
        text_lt(a, c),
    decreases a.len(),
{
    if a.len() > 0 && b.len() > 0 && c.len() > 0 && a[0] == b[0] && b[0] == c[0] {
        lemma_text_lt_trans(a.drop_first(), b.drop_first(), c.drop_first());
    }
}

pub proof fn lemma_text_lt_total(a: Seq<char>, b: Seq<char>)
    ensures
        a == b || text_lt(a, b) || text_lt(b, a),
    decreases a.len(),
{
    if a.len() == 0 {
        if b.len() == 0 {
            assert(a =~= b);
        }
    } else if b.len() > 0 && a[0] == b[0] {
        lemma_text_lt_total(a.drop_first(), b.drop_first());
        if a.drop_first() =~= b.drop_first() {
            assert(a.len() == b.len());
            assert(a =~= b) by {
                assert forall|k: int| 0 <= k < a.len() implies a[k] == b[k] by {
                    if k > 0 {
                        assert(a[k] == a.drop_first()[k - 1]);
                        assert(b[k] == b.drop_first()[k - 1]);
                    }
                }
            }
        }
    }
}

/// Whether `a` sorts before `b` (`str`'s `<`).
pub fn text_less(a: &str, b: &str) -> (r: bool)
    ensures
        r == text_lt(a@, b@),
{
    let x = chars_of(a);
    let y = chars_of(b);
    let mut i: usize = 0;
    assert(x@.skip(0) =~= x@);
    assert(y@.skip(0) =~= y@);
    while i < x.len() && i < y.len()
        invariant
            i <= x.len(),
            i <= y.len(),
            x@ == a@,
            y@ == b@,
            text_lt(x@, y@) == text_lt(x@.skip(i as int), y@.skip(i as int)),
        decreases x.len() - i,
    {
        if x[i] != y[i] {
            let ghost xs = x@.skip(i as int);
            let ghost ys = y@.skip(i as int);
            assert(xs.len() > 0 && ys.len() > 0);
            assert(xs[0] == x@[i as int]);
            assert(ys[0] == y@[i as int]);
            assert(text_lt(xs, ys) == (xs[0] < ys[0]));
            return x[i] < y[i];
        }
        assert(x@.skip(i as int).drop_first() =~= x@.skip(i + 1));
        assert(y@.skip(i as int).drop_first() =~= y@.skip(i + 1));
        i += 1;
    }
    i < y.len()
}

} // verus!

verus! {

/// Items joined by `sep` (`[String]::join`).
pub open spec fn join_sep(items: Seq<Seq<char>>, sep: Seq<char>) -> Seq<char>
    decreases items.len(),
{
    if items.len() == 0 {
        Seq::empty()
    } else if items.len() == 1 {
        items[0]
    } else {
        join_sep(items.drop_last(), sep) + sep + items.last()
    }
}

/// `items.join(sep)`.
pub fn join_strings(items: &Vec<String>, sep: &str) -> (r: String)
    ensures
        r@ == join_sep(texts(items@), sep@),
{
    let mut out = String::new();
    let mut i: usize = 0;
    while i < items.len()
        invariant
            i <= items.len(),
            out@ == join_sep(texts(items@.take(i as int)), sep@),
        decreases items.len() - i,
    {
        let ghost prev = texts(items@.take(i as int));
        assert(texts(items@.take(i + 1)).drop_last() =~= prev);
        assert(texts(items@.take(i + 1)).last() == items@[i as int]@);
        if i > 0 {
            out.append(sep);
        }
        out.append(items[i].as_str());
        proof {
            if i == 0 {
                assert(out@ =~= join_sep(texts(items@.take(i + 1)), sep@));
            }
        }
        i += 1;
    }
    assert(items@.take(items.len() as int) =~= items@);
    out
}

/// Texts in strictly increasing order.
pub open spec fn strictly_sorted(v: Seq<Seq<char>>) -> bool {
    forall|a: int, b: int| 0 <= a < b < v.len() ==> text_lt(#[trigger] v[a], #[trigger] v[b])
}

/// Insert `x` (not yet present) where it keeps `v` strictly sorted.
pub fn insert_sorted(v: &mut Vec<String>, x: String)
    requires
        strictly_sorted(texts(old(v)@)),
        !texts(old(v)@).contains(x@),
    ensures
        strictly_sorted(texts(final(v)@)),
        texts(final(v)@).to_set() == texts(old(v)@).to_set().insert(x@),
        final(v).len() == old(v).len() + 1,
{
    let ghost v0 = texts(v@);
    let mut q: usize = 0;
    while q < v.len() && !text_less(x.as_str(), v[q].as_str())
        invariant
            q <= v.len(),
            texts(v@) == v0,
            forall|k: int| 0 <= k < q ==> !text_lt(x@, #[trigger] v0[k]),
        decreases v.len() - q,
    {
        assert(v0[q as int] == v@[q as int]@);
        q += 1;
    }
    let ghost xv = x@;
    v.insert(q, x);
    proof {
        let v1 = texts(v@);
        assert(v1 =~= v0.insert(q as int, xv));
        assert forall|a: int, b: int| 0 <= a < b < v1.len() implies text_lt(#[trigger] v1[a], #[trigger] v1[b]) by {
            if a == q as int {
                assert(v1[b] == v0[b - 1]);
                if b - 1 == q as int {
                    assert(text_lt(xv, v0[q as int]));
                } else {
                    assert(text_lt(v0[q as int], v0[b - 1]));
                    assert(text_lt(xv, v0[q as int]));
                    lemma_text_lt_trans(xv, v0[q as int], v0[b - 1]);
                }
            } else if b == q as int {
                assert(v1[a] == v0[a]);
                lemma_text_lt_total(xv, v0[a]);
                assert(v0.contains(v0[a]));
            } else {
                let ia = if a < q { a } else { a - 1 };
                let ib = if b < q { b } else { b - 1 };
                assert(v1[a] == v0[ia]);
                assert(v1[b] == v0[ib]);
            }
        }
        assert forall|y: Seq<char>| v1.to_set().contains(y) <==> v0.to_set().insert(xv).contains(y) by {
            if v1.contains(y) {
                let j = choose|j: int| 0 <= j < v1.len() && v1[j] == y;
                if j < q {
                    assert(v0[j] == y);
                } else if j > q {
                    assert(v0[j - 1] == y);
                }
            }
            if v0.contains(y) {
                let j = choose|j: int| 0 <= j < v0.len() && v0[j] == y;
                if j < q {
                    assert(v1[j] == y);
                } else {
                    assert(v1[j + 1] == y);
                }
            }
            if y == xv {
                assert(v1[q as int] == y);
            }
        }
        assert(v1.to_set() =~= v0.to_set().insert(xv));
    }
}

} // verus!

verus! {

/// `str::trim_end`: `s` without trailing whitespace.
pub fn trim_end_string(s: &str) -> (r: String)
    ensures
        r@ == rtrim(s@),
{
    let c = chars_of(s);
    let mut hi: usize = c.len();
    while hi > 0 && is_whitespace(c[hi - 1])
        invariant
            hi <= c.len(),
            c@ == s@,
            forall|j: int| hi <= j < c.len() ==> is_ws(#[trigger] c@[j]),
        decreases hi,
    {
        hi -= 1;
    }
    proof {
        lemma_rtrim_take(c@, hi as int);
    }
    let mut out: Vec<char> = Vec::new();
    let mut i: usize = 0;
    while i < hi
        invariant
            i <= hi,
            hi <= c.len(),
            out@ =~= c@.take(i as int),
        decreases hi - i,
    {
        out.push(c[i]);
        i += 1;
    }
    string_of(out.as_slice())
}

/// An integer as `{}` formats it.
pub open spec fn signed_dec(v: int) -> Seq<char> {
    if v < 0 {
        seq!['-'] + dec((-v) as nat)
    } else {
        dec(v as nat)
    }
}

/// `format!("{}", v)` for an `i64`.
pub fn i64_text(v: i64) -> (r: String)
    ensures
        r@ == signed_dec(v as int),
{
    if v < 0 {
        let mag: u64 = (0i128 - (v as i128)) as u64;
        let d = dec_chars(mag);
        let mut s = "-".to_owned();
        s.append(string_of(d.as_slice()).as_str());
        proof {
            reveal_strlit("-");
            assert(s@ =~= seq!['-'] + dec((-(v as int)) as nat));
        }
        s
    } else {
        let d = dec_chars(v as u64);
        string_of(d.as_slice())
    }
}

/// `r` before every character of `s` and once more at the end: what
/// `str::replace` does with an empty pattern.
pub open spec fn interleave(s: Seq<char>, r: Seq<char>) -> Seq<char>
    decreases s.len(),
{
    if s.len() == 0 {
        r
    } else {
        r + seq![s[0]] + interleave(s.drop_first(), r)
    }
}

/// What `str::replace(p, r)` gives: every non-overlapping occurrence of `p`,
/// leftmost first, replaced by `r`.
pub open spec fn replace_spec(s: Seq<char>, p: Seq<char>, r: Seq<char>) -> Seq<char>
    decreases s.len(),
{
    if p.len() == 0 {
        interleave(s, r)
    } else if s.len() < p.len() {
        s
    } else if s.take(p.len() as int) == p {
        r + replace_spec(s.skip(p.len() as int), p, r)
    } else {
        seq![s[0]] + replace_spec(s.drop_first(), p, r)
    }
}

/// Whether `p` occurs in `s` at position `i`.
fn occurs_at(s: &Vec<char>, p: &Vec<char>, i: usize) -> (r: bool)
    requires
        i + p.len() <= s.len(),
    ensures
        r == (s@.subrange(i as int, i + p.len()) == p@),
{
    let mut k: usize = 0;
    while k < p.len()
        invariant
            k <= p.len(),
            i + p.len() <= s.len(),
            forall|j: int| 0 <= j < k ==> s@[i + j] == p@[j],
        decreases p.len() - k,
    {
        if s[i + k] != p[k] {
            assert(s@.subrange(i as int, i + p.len())[k as int] != p@[k as int]);
            return false;
        }
        k += 1;
    }
    assert(s@.subrange(i as int, i + p.len()) =~= p@);
    true
}

/// `str::replace`: every non-overlapping occurrence of `p`, leftmost first,
/// replaced by `r`.
pub fn replace_str(s: &str, p: &str, r: &str) -> (out: String)
    ensures
        out@ == replace_spec(s@, p@, r@),
{
    let sc = chars_of(s);
    let pc = chars_of(p);
    let rc = chars_of(r);
    let mut out: Vec<char> = Vec::new();
    let mut i: usize = 0;
    proof {
        assert(sc@.skip(0) =~= sc@);
        assert(out@ + interleave(sc@, rc@) =~= interleave(sc@, rc@));
        assert(out@ + replace_spec(sc@, pc@, rc@) =~= replace_spec(sc@, pc@, rc@));
    }
    if pc.len() == 0 {
        while i < sc.len()
            invariant
                i <= sc.len(),
                out@ + interleave(sc@.skip(i as int), rc@) == interleave(sc@, rc@),
            decreases sc.len() - i,
        {
            proof {
                assert(sc@.skip(i as int).drop_first() =~= sc@.skip(i + 1));
            }
            extend_chars(&mut out, &rc);
            out.push(sc[i]);
            proof {
                assert(out@ + interleave(sc@.skip(i + 1), rc@) =~= out@.take(out@.len() - rc@.len() - 1) + (rc@
                    + seq![sc@[i as int]] + interleave(sc@.skip(i + 1), rc@)));
            }
            i += 1;
        }
        extend_chars(&mut out, &rc);
        proof {
            assert(sc@.skip(i as int) =~= Seq::<char>::empty());
        }
        return string_of(out.as_slice());
    }
    while i < sc.len()
        invariant
            i <= sc.len(),
            pc.len() > 0,
            out@ + replace_spec(sc@.skip(i as int), pc@, rc@) == replace_spec(sc@, pc@, rc@),
        decreases sc.len() - i,
    {
        let ghost rest = sc@.skip(i as int);
        if pc.len() <= sc.len() - i && occurs_at(&sc, &pc, i) {
            proof {
                assert(rest.take(pc.len() as int) =~= sc@.subrange(i as int, i + pc.len()));
                assert(rest.skip(pc.len() as int) =~= sc@.skip(i + pc.len()));
            }
            let ghost before = out@;
            extend_chars(&mut out, &rc);
            proof {
                assert(out@ + replace_spec(sc@.skip(i + pc.len()), pc@, rc@) =~= before + (rc@ + replace_spec(
                    sc@.skip(i + pc.len()),
                    pc@,
                    rc@,
                )));
            }
            i += pc.len();
        } else {
            proof {
                if rest.len() >= pc.len() {
                    assert(rest.take(pc.len() as int) =~= sc@.subrange(i as int, i + pc.len()));
                }
                assert(rest.drop_first() =~= sc@.skip(i + 1));
                if rest.len() < pc.len() {
                    // the whole rest is kept as it is
                    assert(replace_spec(rest, pc@, rc@) == rest);
                }
            }
            let ghost before = out@;
            out.push(sc[i]);
            proof {
                if rest.len() >= pc.len() {
                    assert(out@ + replace_spec(sc@.skip(i + 1), pc@, rc@) =~= before + (seq![sc@[i as int]]
                        + replace_spec(sc@.skip(i + 1), pc@, rc@)));
                } else {
                    lemma_replace_short(sc@.skip(i + 1), pc@, rc@);
                    assert(out@ + replace_spec(sc@.skip(i + 1), pc@, rc@) =~= before + rest);
                }
            }
            i += 1;
        }
    }
    proof {
        assert(sc@.skip(i as int) =~= Seq::<char>::empty());
    }
    string_of(out.as_slice())
}

/// A text shorter than a non-empty pattern is kept as it is.
proof fn lemma_replace_short(s: Seq<char>, p: Seq<char>, r: Seq<char>)
    requires
        p.len() > 0,
        s.len() < p.len(),
    ensures
        replace_spec(s, p, r) == s,
{
}

} // verus!
