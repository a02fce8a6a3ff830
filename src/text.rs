//! Character-sequence helpers shared by the decoders and emitters.
use vstd::prelude::*;
use vstd::string::StringExecFns;

verus! {

/// The character of a decimal digit `d` (0 to 9).
pub open spec fn digit_char(d: nat) -> char {
    (48 + d) as char
}

/// Decimal notation of a natural number, without leading zeros.
pub open spec fn nat_decimal(n: nat) -> Seq<char>
    decreases n,
{
    if n < 10 {
        seq![digit_char(n)]
    } else {
        nat_decimal(n / 10).push(digit_char(n % 10))
    }
}

/// Decimal notation of an integer, with a leading `-` when negative.
pub open spec fn int_decimal(n: int) -> Seq<char> {
    if n < 0 {
        seq!['-'] + nat_decimal((-n) as nat)
    } else {
        nat_decimal(n as nat)
    }
}

/// `pat` occurs in `s` as a contiguous run of characters.
pub open spec fn seq_contains(s: Seq<char>, pat: Seq<char>) -> bool {
    exists|i: int| 0 <= i && i + pat.len() <= s.len() && #[trigger] s.subrange(i, i + pat.len()) == pat
}

/// `s` begins with `pat`.
pub open spec fn seq_starts_with(s: Seq<char>, pat: Seq<char>) -> bool {
    pat.len() <= s.len() && s.subrange(0, pat.len() as int) == pat
}

/// Relies on `str == str`: equal exactly when the characters are equal.
#[verifier::external_body]
pub fn str_eq(a: &str, b: &str) -> (r: bool)
    ensures
        r == (a@ == b@),
{
    a == b
}

/// Relies on `str::contains` with a string pattern: true exactly when `pat`
/// occurs in `s`.
#[verifier::external_body]
pub fn str_contains(s: &str, pat: &str) -> (r: bool)
    ensures
        r == seq_contains(s@, pat@),
{
    s.contains(pat)
}

/// Relies on `str::starts_with` with a string pattern: true exactly when `s`
/// begins with `pat`.
#[verifier::external_body]
pub fn str_starts_with(s: &str, pat: &str) -> (r: bool)
    ensures
        r == seq_starts_with(s@, pat@),
{
    s.starts_with(pat)
}

/// Relies on the `Display` of `u64`: its decimal notation.
#[verifier::external_body]
pub fn u64_decimal(n: u64) -> (r: String)
    ensures
        r@ == nat_decimal(n as nat),
{
    n.to_string()
}

/// Relies on the `Display` of `i64`: its decimal notation, `-` first when
/// negative.
#[verifier::external_body]
pub fn i64_decimal(n: i64) -> (r: String)
    ensures
        r@ == int_decimal(n as int),
{
    n.to_string()
}

/// The concatenation of two strings.
pub fn concat2(a: &str, b: &str) -> (r: String)
    ensures
        r@ == a@ + b@,
{
    let mut s = String::from_str(a);
    s.append(b);
    s
}

/// The concatenation of three strings.
pub fn concat3(a: &str, b: &str, c: &str) -> (r: String)
    ensures
        r@ == a@ + b@ + c@,
{
    let mut s = String::from_str(a);
    s.append(b);
    s.append(c);
    s
}

/// Lines of `s` from character `i` on, where `cur` is the part of the current
/// line already read and `acc` the lines already finished. A line ends at
/// `\n`, with a `\r` right before it dropped; a last line without `\n` is
/// kept when it is not empty.
pub open spec fn lines_from(s: Seq<char>, i: int, cur: Seq<char>, acc: Seq<Seq<char>>) -> Seq<Seq<char>>
    decreases s.len() - i,
{
    if i < 0 || i >= s.len() {
        if cur.len() > 0 {
            acc.push(cur)
        } else {
            acc
        }
    } else if s[i] == '\n' {
        let line = if cur.len() > 0 && cur.last() == '\r' {
            cur.drop_last()
        } else {
            cur
        };
        lines_from(s, i + 1, Seq::empty(), acc.push(line))
    } else {
        lines_from(s, i + 1, cur.push(s[i]), acc)
    }
}

/// The lines of `s`.
pub open spec fn text_lines(s: Seq<char>) -> Seq<Seq<char>> {
    lines_from(s, 0, Seq::empty(), Seq::empty())
}

/// Relies on `str::lines`: the pieces between line endings, `\n` or `\r\n`,
/// where a final line ending is optional.
#[verifier::external_body]
pub fn split_lines(s: &str) -> (r: Vec<String>)
    ensures
        r@.len() == text_lines(s@).len(),
        forall|i: int| 0 <= i < r@.len() ==> (#[trigger] r@[i])@ == text_lines(s@)[i],
{
    s.lines().map(String::from).collect()
}

/// What `str::trim` leaves of `s`: it drops leading and trailing Unicode
/// white space.
pub uninterp spec fn trim_of(s: Seq<char>) -> Seq<char>;

/// Relies on `str::trim`: the result depends on the characters alone.
#[verifier::external_body]
pub fn trim(s: &str) -> (r: &str)
    ensures
        r@ == trim_of(s@),
{
    s.trim()
}

/// What `str::to_lowercase` makes of `s`.
pub uninterp spec fn lower_of(s: Seq<char>) -> Seq<char>;

/// Relies on `str::to_lowercase`: the result depends on the characters alone.
#[verifier::external_body]
pub fn lowercase(s: &str) -> (r: String)
    ensures
        r@ == lower_of(s@),
{
    s.to_lowercase()
}

/// Index of the first `c` in `s` at or after `i`, or -1.
pub open spec fn index_from(s: Seq<char>, c: char, i: int) -> int
    decreases s.len() - i,
{
    if i < 0 || i >= s.len() {
        -1
    } else if s[i] == c {
        i
    } else {
        index_from(s, c, i + 1)
    }
}

/// Index of the last `c` in `s` before `i`, or -1.
pub open spec fn index_below(s: Seq<char>, c: char, i: int) -> int
    decreases i,
{
    if i <= 0 || i > s.len() {
        -1
    } else if s[i - 1] == c {
        i - 1
    } else {
        index_below(s, c, i - 1)
    }
}

/// Index of the first `c` in `s`, or -1.
pub open spec fn first_index_of(s: Seq<char>, c: char) -> int {
    index_from(s, c, 0)
}

/// Index of the last `c` in `s`, or -1.
pub open spec fn last_index_of(s: Seq<char>, c: char) -> int {
    index_below(s, c, s.len() as int)
}

/// Index of the first `c` in `s`.
pub fn find_char(s: &str, c: char) -> (r: Option<usize>)
    ensures
        match r {
            Some(i) => i == first_index_of(s@, c),
            None => first_index_of(s@, c) == -1,
        },
{
    let n = s.unicode_len();
    let mut i: usize = 0;
    while i < n
        invariant
            n == s@.len(),
            i <= n,
            first_index_of(s@, c) == index_from(s@, c, i as int),
        decreases n - i,
    {
        if s.get_char(i) == c {
            return Some(i);
        }
        i += 1;
    }
    None
}

/// Index of the last `c` in `s`.
pub fn rfind_char(s: &str, c: char) -> (r: Option<usize>)
    ensures
        match r {
            Some(i) => i == last_index_of(s@, c),
            None => last_index_of(s@, c) == -1,
        },
{
    let n = s.unicode_len();
    let mut i: usize = n;
    while i > 0
        invariant
            n == s@.len(),
            i <= n,
            last_index_of(s@, c) == index_below(s@, c, i as int),
        decreases i,
    {
        if s.get_char(i - 1) == c {
            return Some(i - 1);
        }
        i -= 1;
    }
    None
}

/// An ASCII decimal digit.
pub open spec fn is_digit(c: char) -> bool {
    '0' <= c && c <= '9'
}

/// Value of a run of decimal digits.
pub open spec fn digits_value(s: Seq<char>) -> int
    decreases s.len(),
{
    if s.len() == 0 {
        0
    } else {
        digits_value(s.drop_last()) * 10 + ((s.last() as int) - 48)
    }
}

/// `s` without a leading `+`.
pub open spec fn unsigned_digits(s: Seq<char>) -> Seq<char> {
    if s.len() > 0 && s[0] == '+' {
        s.subrange(1, s.len() as int)
    } else {
        s
    }
}

/// What `u64::from_str` reads from `s`: an optional `+`, then one or more
/// decimal digits whose value fits in `u64`.
pub open spec fn decimal_u64(s: Seq<char>) -> Option<u64> {
    let d = unsigned_digits(s);
    if d.len() > 0 && (forall|i: int| 0 <= i < d.len() ==> is_digit(#[trigger] d[i])) && digits_value(d) <= u64::MAX {
        Some(digits_value(d) as u64)
    } else {
        None
    }
}

proof fn lemma_digits_nonneg(s: Seq<char>)
    requires
        forall|i: int| 0 <= i < s.len() ==> is_digit(#[trigger] s[i]),
    ensures
        digits_value(s) >= 0,
    decreases s.len(),
{
    if s.len() > 0 {
        assert forall|i: int| 0 <= i < s.drop_last().len() implies is_digit(#[trigger] s.drop_last()[i]) by {
            assert(s.drop_last()[i] == s[i]);
        }
        lemma_digits_nonneg(s.drop_last());
    }
}

/// Reads an unsigned decimal number as `u64::from_str` does.
#[verifier::rlimit(40)]
pub fn parse_u64(s: &str) -> (r: Option<u64>)
    ensures
        r == decimal_u64(s@),
{
    let n = s.unicode_len();
    let mut start: usize = 0;
    if n > 0 && s.get_char(0) == '+' {
        start = 1;
    }
    let ghost d = unsigned_digits(s@);
    assert(d == s@.subrange(start as int, n as int));
    if start >= n {
        assert(d.len() == 0);
        return None;
    }
    let mut i: usize = start;
    let mut acc: u64 = 0;
    let mut over = false;
    while i < n
        invariant
            n == s@.len(),
            start <= i <= n,
            d == s@.subrange(start as int, n as int),
            d == unsigned_digits(s@),
            forall|j: int| 0 <= j < i - start ==> is_digit(#[trigger] d[j]),
            !over ==> acc == digits_value(d.subrange(0, i - start)),
            over ==> digits_value(d.subrange(0, i - start)) > u64::MAX,
        decreases n - i,
    {
        let c = s.get_char(i);
        if !('0' <= c && c <= '9') {
            assert(!is_digit(d[i - start]));
            assert(!(forall|j: int| 0 <= j < d.len() ==> is_digit(#[trigger] d[j])));
            assert(d == unsigned_digits(s@));
            return None;
        }
        let dv = (c as u32 - 48) as u64;
        let ghost k = i - start;
        proof {
            assert(d.subrange(0, k + 1).drop_last() == d.subrange(0, k));
            assert(d.subrange(0, k + 1).last() == c);
            assert forall|j: int| 0 <= j < k implies is_digit(#[trigger] d.subrange(0, k)[j]) by {
                assert(d.subrange(0, k)[j] == d[j]);
            }
            lemma_digits_nonneg(d.subrange(0, k));
        }
        if !over {
            if acc > (u64::MAX - dv) / 10 {
                assert(acc * 10 + dv > u64::MAX) by (nonlinear_arith)
                    requires
                        acc > (u64::MAX - dv) / 10,
                        dv <= 9,
                ;
                over = true;
            } else {
                assert(acc * 10 + dv <= u64::MAX) by (nonlinear_arith)
                    requires
                        acc <= (u64::MAX - dv) / 10,
                        dv <= 9,
                ;
                acc = acc * 10 + dv;
            }
        }
        i += 1;
    }
    assert(d.subrange(0, n - start) == d);
    if over {
        None
    } else {
        Some(acc)
    }
}

pub proof fn lemma_index_from_range(s: Seq<char>, c: char, i: int)
    requires
        0 <= i,
    ensures
        index_from(s, c, i) == -1 || (i <= index_from(s, c, i) < s.len() && s[index_from(s, c, i)] == c),
    decreases s.len() - i,
{
    if i < s.len() && s[i] != c {
        lemma_index_from_range(s, c, i + 1);
    }
}

pub proof fn lemma_index_below_range(s: Seq<char>, c: char, i: int)
    requires
        i <= s.len(),
    ensures
        index_below(s, c, i) == -1 || (0 <= index_below(s, c, i) < i && s[index_below(s, c, i)] == c),
    decreases i,
{
    if i > 0 && s[i - 1] != c {
        lemma_index_below_range(s, c, i - 1);
    }
}

/// The character of a hexadecimal digit `d` (0 to 15), in lower case.
pub open spec fn hex_digit(d: nat) -> char {
    if d < 10 {
        (48 + d) as char
    } else {
        (87 + d) as char
    }
}

/// The last `k` hexadecimal digits of `v`, with leading zeros.
pub open spec fn hex_fixed(v: nat, k: nat) -> Seq<char>
    decreases k,
{
    if k == 0 {
        Seq::empty()
    } else {
        hex_fixed(v / 16, (k - 1) as nat).push(hex_digit(v % 16))
    }
}

/// `0x` and the sixteen hexadecimal digits of `h`.
pub open spec fn hex_u64_text(h: u64) -> Seq<char> {
    "0x"@ + hex_fixed(h as nat, 16)
}

/// Relies on the `LowerHex` format of `u64` with zero padding to width 16:
/// sixteen lower-case hexadecimal digits.
#[verifier::external_body]
fn hex_digits16(h: u64) -> (r: String)
    ensures
        r@ == hex_fixed(h as nat, 16),
{
    format!("{:016x}", h)
}

/// `0x` and the sixteen hexadecimal digits of `h`.
pub fn hex_u64(h: u64) -> (r: String)
    ensures
        r@ == hex_u64_text(h),
{
    let digits = hex_digits16(h);
    concat2("0x", digits.as_str())
}

/// What `serde_json::to_string` makes of a string: the JSON string literal,
/// quotes and escapes included.
pub uninterp spec fn json_quoted(s: Seq<char>) -> Seq<char>;

/// Relies on `serde_json::to_string` on a `str`: the JSON string literal of
/// `s`, which depends on the characters alone. It writes into a `Vec`, whose
/// writes do not fail, and a `str` serializes without error.
#[verifier::external_body]
pub fn json_quote(s: &str) -> (r: Result<String, serde_json::Error>)
    ensures
        r is Ok,
        r matches Ok(q) ==> q@ == json_quoted(s@),
{
    serde_json::to_string(s)
}

/// Appends the JSON string literal of `s` to `out`.
pub fn push_quoted(out: &mut String, s: &str) -> (r: Result<(), serde_json::Error>)
    ensures
        r is Ok && final(out)@ == old(out)@ + json_quoted(s@),
{
    match json_quote(s) {
        Ok(q) => {
            out.append(q.as_str());
            Ok(())
        },
        Err(e) => Err(e),
    }
}

/// JSON text of a boolean.
pub open spec fn bool_json(b: bool) -> Seq<char> {
    if b {
        "true"@
    } else {
        "false"@
    }
}

/// Appends the JSON text of `n` to `out`.
pub fn push_u64(out: &mut String, n: u64)
    ensures
        final(out)@ == old(out)@ + nat_decimal(n as nat),
{
    let d = u64_decimal(n);
    out.append(d.as_str());
}

/// Appends the JSON text of `b` to `out`.
pub fn push_bool(out: &mut String, b: bool)
    ensures
        final(out)@ == old(out)@ + bool_json(b),
{
    if b {
        out.append("true");
    } else {
        out.append("false");
    }
}

} // verus!
