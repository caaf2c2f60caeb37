//! Character-level helpers shared by the wire codec and the snapshot reader:
//! ASCII case-insensitive matching, decimal parsing and rendering, ASCII
//! trimming, and the one trusted conversion from raw bytes to text.

use vstd::prelude::*;

verus! {

/// Holds when `k` is `c` after ASCII upper-casing: either the same character,
/// or `c` is a lower-case ASCII letter and `k` its upper-case form.
pub open spec fn upcases_to(c: char, k: char) -> bool {
    k == c || ('a' <= c && c <= 'z' && k as int == c as int - 32)
}

/// Holds when `line` equals the (upper-case ASCII) keyword `kw` up to ASCII case.
pub open spec fn matches_keyword(line: Seq<char>, kw: Seq<char>) -> bool {
    line.len() == kw.len() && forall|i: int| 0 <= i < line.len() ==> upcases_to(line[i], #[trigger] kw[i])
}

/// Compares `line` against the keyword `kw` ignoring ASCII case on `line`.
pub fn eq_keyword(line: &str, kw: &str) -> (r: bool)
    ensures
        r == matches_keyword(line@, kw@),
{
    let n = line.unicode_len();
    if n != kw.unicode_len() {
        return false;
    }
    let mut i: usize = 0;
    while i < n
        invariant
            n == line@.len() == kw@.len(),
            0 <= i <= n,
            forall|j: int| 0 <= j < i ==> upcases_to(line@[j], #[trigger] kw@[j]),
        decreases n - i,
    {
        let c = line.get_char(i) as u32;
        let k = kw.get_char(i) as u32;
        if !(c == k || (97 <= c && c <= 122 && c - 32 == k)) {
            return false;
        }
        i += 1;
    }
    true
}

/// Holds when `k` is `c` after ASCII lower-casing: either the same character,
/// or `c` is an upper-case ASCII letter and `k` its lower-case form.
pub open spec fn downcases_to(c: char, k: char) -> bool {
    k == c || ('A' <= c && c <= 'Z' && k as int == c as int + 32)
}

/// Holds when `line` equals the (lower-case ASCII) keyword `kw` up to ASCII case.
pub open spec fn matches_lower(line: Seq<char>, kw: Seq<char>) -> bool {
    line.len() == kw.len() && forall|i: int| 0 <= i < line.len() ==> downcases_to(line[i], #[trigger] kw[i])
}

/// Compares `line` against the keyword `kw` ignoring ASCII case on `line`.
pub fn eq_keyword_lower(line: &str, kw: &str) -> (r: bool)
    ensures
        r == matches_lower(line@, kw@),
{
    let n = line.unicode_len();
    if n != kw.unicode_len() {
        return false;
    }
    let mut i: usize = 0;
    while i < n
        invariant
            n == line@.len() == kw@.len(),
            0 <= i <= n,
            forall|j: int| 0 <= j < i ==> downcases_to(line@[j], #[trigger] kw@[j]),
        decreases n - i,
    {
        let c = line.get_char(i) as u32;
        let k = kw.get_char(i) as u32;
        if !(c == k || (65 <= c && c <= 90 && c + 32 == k)) {
            return false;
        }
        i += 1;
    }
    true
}

/// The view of the text that `String::from_utf8_lossy` yields for the bytes.
pub uninterp spec fn lossy_utf8(bytes: Seq<u8>) -> Seq<char>;

/// Relies on `String::from_utf8_lossy`: the result is a function of the bytes
/// alone; valid UTF-8 decodes unchanged and invalid sequences become
/// replacement characters, so bytes that are all ASCII are read as their own
/// characters.
#[verifier::external_body]
pub fn lossy_string(bytes: &[u8]) -> (r: String)
    ensures
        r@ == lossy_utf8(bytes@),
        (forall|i: int| 0 <= i < bytes@.len() ==> bytes@[i] < 128) ==> r@ == bytes@.map_values(
            |b: u8| b as char,
        ),
{
    String::from_utf8_lossy(bytes).into_owned()
}

/// A decimal digit.
pub open spec fn is_digit(c: char) -> bool {
    '0' <= c && c <= '9'
}

/// The numeric value of a decimal digit.
pub open spec fn digit_val(c: char) -> int {
    c as int - 48
}

/// A non-empty string of decimal digits and nothing else.
pub open spec fn is_decimal(s: Seq<char>) -> bool {
    s.len() > 0 && forall|i: int| 0 <= i < s.len() ==> is_digit(#[trigger] s[i])
}

/// The number that the digit string denotes.
pub open spec fn decimal_value(s: Seq<char>) -> int
    decreases s.len(),
{
    if s.len() == 0 {
        0
    } else {
        decimal_value(s.drop_last()) * 10 + digit_val(s.last())
    }
}

proof fn lemma_decimal_value_nonneg(s: Seq<char>)
    requires
        forall|i: int| 0 <= i < s.len() ==> is_digit(#[trigger] s[i]),
    ensures
        decimal_value(s) >= 0,
    decreases s.len(),
{
    if s.len() > 0 {
        lemma_decimal_value_nonneg(s.drop_last());
    }
}

proof fn lemma_decimal_value_take_grows(s: Seq<char>, i: int)
    requires
        forall|j: int| 0 <= j < s.len() ==> is_digit(#[trigger] s[j]),
        0 <= i <= s.len(),
    ensures
        decimal_value(s.take(i)) <= decimal_value(s),
    decreases s.len() - i,
{
    if i < s.len() {
        lemma_decimal_value_take_grows(s, i + 1);
        assert(s.take(i + 1).drop_last() =~= s.take(i));
        lemma_decimal_value_nonneg(s.take(i));
    } else {
        assert(s.take(i) =~= s);
    }
}

/// Parses a non-empty all-digit string as a number; `None` when the string
/// holds anything but digits, is empty, or denotes a number above `u128::MAX`.
pub fn parse_u128(s: &str) -> (r: Option<u128>)
    ensures
        match r {
            Some(v) => is_decimal(s@) && decimal_value(s@) == v as int,
            None => !is_decimal(s@) || decimal_value(s@) > u128::MAX,
        },
{
    let n = s.unicode_len();
    if n == 0 {
        return None;
    }
    let mut acc: u128 = 0;
    let mut i: usize = 0;
    while i < n
        invariant
            n == s@.len(),
            0 <= i <= n,
            forall|j: int| 0 <= j < i ==> is_digit(#[trigger] s@[j]),
            acc as int == decimal_value(s@.take(i as int)),
        decreases n - i,
    {
        let c = s.get_char(i) as u32;
        if !(48 <= c && c <= 57) {
            return None;
        }
        let d = (c - 48) as u128;
        let step = match acc.checked_mul(10) {
            Some(m) => m.checked_add(d),
            None => None,
        };
        match step {
            Some(v) => {
                proof {
                    assert(s@.take(i + 1).drop_last() =~= s@.take(i as int));
                }
                acc = v;
            },
            None => {
                proof {
                    assert(s@.take(i + 1).drop_last() =~= s@.take(i as int));
                    assert(decimal_value(s@.take(i + 1)) > u128::MAX);
                    if forall|j: int| 0 <= j < s@.len() ==> is_digit(#[trigger] s@[j]) {
                        lemma_decimal_value_take_grows(s@, i + 1);
                    }
                }
                return None;
            },
        }
        i += 1;
    }
    proof {
        assert(s@.take(n as int) =~= s@);
    }
    Some(acc)
}

/// The decimal digit with value `d`.
pub open spec fn digit_char(d: int) -> char {
    if d == 0 {
        '0'
    } else if d == 1 {
        '1'
    } else if d == 2 {
        '2'
    } else if d == 3 {
        '3'
    } else if d == 4 {
        '4'
    } else if d == 5 {
        '5'
    } else if d == 6 {
        '6'
    } else if d == 7 {
        '7'
    } else if d == 8 {
        '8'
    } else {
        '9'
    }
}

/// The decimal rendering of `n`, without leading zeros (`0` renders as "0").
pub open spec fn decimal_of(n: int) -> Seq<char>
    decreases n,
{
    if n < 10 {
        seq![digit_char(n)]
    } else {
        decimal_of(n / 10).push(digit_char(n % 10))
    }
}

fn digit_str(d: u8) -> (r: &'static str)
    requires
        d < 10,
    ensures
        r@ == seq![digit_char(d as int)],
{
    proof {
        reveal_strlit("0");
        reveal_strlit("1");
        reveal_strlit("2");
        reveal_strlit("3");
        reveal_strlit("4");
        reveal_strlit("5");
        reveal_strlit("6");
        reveal_strlit("7");
        reveal_strlit("8");
        reveal_strlit("9");
    }
    match d {
        0 => "0",
        1 => "1",
        2 => "2",
        3 => "3",
        4 => "4",
        5 => "5",
        6 => "6",
        7 => "7",
        8 => "8",
        _ => "9",
    }
}

/// The digits of `v` read from the last element to the first.
spec fn rev_chars(v: Seq<u8>) -> Seq<char> {
    Seq::new(v.len(), |i: int| digit_char(v[v.len() - 1 - i] as int))
}

/// Renders `n` in decimal.
pub fn render_u64(n: u64) -> (r: String)
    ensures
        r@ == decimal_of(n as int),
{
    if n < 10 {
        return digit_str(n as u8).to_owned();
    }
    let mut m: u64 = n;
    let mut v: Vec<u8> = Vec::new();
    while m >= 10
        invariant
            1 <= m,
            decimal_of(n as int) == decimal_of(m as int) + rev_chars(v@),
            forall|j: int| 0 <= j < v@.len() ==> v@[j] < 10,
        decreases m,
    {
        let ghost m0 = m as int;
        let ghost v0 = v@;
        let d = (m % 10) as u8;
        v.push(d);
        m = m / 10;
        proof {
            assert(rev_chars(v0.push(d)) =~= seq![digit_char(d as int)] + rev_chars(v0));
            assert(decimal_of(m0) + rev_chars(v0) =~= decimal_of(m0 / 10) + (seq![
                digit_char(m0 % 10),
            ] + rev_chars(v0)));
        }
    }
    let mut s: String = digit_str(m as u8).to_owned();
    let mut i: usize = v.len();
    while i > 0
        invariant
            i <= v@.len(),
            forall|j: int| 0 <= j < v@.len() ==> v@[j] < 10,
            s@ == seq![digit_char(m as int)] + rev_chars(v@).take(v@.len() - i),
            m < 10,
            decimal_of(n as int) == decimal_of(m as int) + rev_chars(v@),
        decreases i,
    {
        i -= 1;
        let ghost s0 = s@;
        s.append(digit_str(v[i]));
        proof {
            assert(s@ =~= seq![digit_char(m as int)] + rev_chars(v@).take(
                v@.len() - i as int,
            )) by {
                assert(rev_chars(v@).take(v@.len() - i as int) =~= rev_chars(v@).take(
                    v@.len() - i - 1,
                ).push(digit_char(v@[i as int] as int)));
            }
        }
    }
    proof {
        assert(rev_chars(v@).take(v@.len() as int) =~= rev_chars(v@));
        assert(s@ =~= decimal_of(n as int));
    }
    s
}

/// ASCII whitespace, as the trimming of startup words removes it.
pub open spec fn is_ascii_space(c: char) -> bool {
    c == ' ' || c == '\t' || c == '\n' || c == '\r'
}

/// `s` with leading and trailing ASCII whitespace removed: the subrange
/// between the first and last non-whitespace characters.
pub open spec fn trim_front(s: Seq<char>) -> Seq<char>
    decreases s.len(),
{
    if s.len() > 0 && is_ascii_space(s[0]) {
        trim_front(s.drop_first())
    } else {
        s
    }
}

/// `s` with trailing ASCII whitespace removed.
pub open spec fn trim_back(s: Seq<char>) -> Seq<char>
    decreases s.len(),
{
    if s.len() > 0 && is_ascii_space(s.last()) {
        trim_back(s.drop_last())
    } else {
        s
    }
}

/// `s` trimmed of ASCII whitespace on both sides.
pub open spec fn trim_spec(s: Seq<char>) -> Seq<char> {
    trim_back(trim_front(s))
}

proof fn lemma_trim_front_skip(s: Seq<char>, i: int)
    requires
        0 <= i <= s.len(),
        forall|j: int| 0 <= j < i ==> is_ascii_space(#[trigger] s[j]),
        i < s.len() ==> !is_ascii_space(s[i]),
    ensures
        trim_front(s) == s.skip(i),
    decreases i,
{
    if i == 0 {
        assert(s.skip(0) =~= s);
    } else {
        lemma_trim_front_skip(s.drop_first(), i - 1);
        assert(s.drop_first().skip(i - 1) =~= s.skip(i));
    }
}

proof fn lemma_trim_back_take(s: Seq<char>, i: int)
    requires
        0 <= i <= s.len(),
        forall|j: int| i <= j < s.len() ==> is_ascii_space(#[trigger] s[j]),
        i > 0 ==> !is_ascii_space(s[i - 1]),
    ensures
        trim_back(s) == s.take(i),
    decreases s.len() - i,
{
    if i == s.len() {
        assert(s.take(i) =~= s);
    } else {
        lemma_trim_back_take(s.drop_last(), i);
        assert(s.drop_last().take(i) =~= s.take(i));
    }
}

/// Removes leading and trailing ASCII whitespace.
pub fn trim_ascii(s: &str) -> (r: &str)
    ensures
        r@ == trim_spec(s@),
{
    let n = s.unicode_len();
    let mut a: usize = 0;
    while a < n && is_space_char(s.get_char(a))
        invariant
            n == s@.len(),
            0 <= a <= n,
            forall|j: int| 0 <= j < a ==> is_ascii_space(#[trigger] s@[j]),
        decreases n - a,
    {
        a += 1;
    }
    let mut b: usize = n;
    while b > a && is_space_char(s.get_char(b - 1))
        invariant
            n == s@.len(),
            a <= b <= n,
            forall|j: int| 0 <= j < a ==> is_ascii_space(#[trigger] s@[j]),
            a < n ==> !is_ascii_space(s@[a as int]),
            forall|j: int| b <= j < n ==> is_ascii_space(#[trigger] s@[j]),
        decreases b,
    {
        b -= 1;
    }
    proof {
        lemma_trim_front_skip(s@, a as int);
        lemma_trim_back_take(s@.skip(a as int), b - a);
        assert(s@.skip(a as int).take(b - a) =~= s@.subrange(a as int, b as int));
    }
    s.substring_char(a, b)
}

fn is_space_char(c: char) -> (r: bool)
    ensures
        r == is_ascii_space(c),
{
    c == ' ' || c == '\t' || c == '\n' || c == '\r'
}

/// `p` occurs in `s` as a contiguous run of characters. The empty string
/// occurs in every string.
pub open spec fn has_substring(s: Seq<char>, p: Seq<char>) -> bool {
    exists|i: int| 0 <= i <= s.len() - p.len() && #[trigger] s.subrange(i, i + p.len()) == p
}

/// Decides substring containment.
pub fn contains_substr(s: &str, p: &str) -> (r: bool)
    ensures
        r == has_substring(s@, p@),
{
    let n = s.unicode_len();
    let m = p.unicode_len();
    if m > n {
        return false;
    }
    let mut i: usize = 0;
    loop
        invariant
            n == s@.len(),
            m == p@.len(),
            m <= n,
            0 <= i <= n - m + 1,
            forall|j: int| 0 <= j < i ==> #[trigger] s@.subrange(j, j + m) != p@,
        decreases n - m + 1 - i,
    {
        if i > n - m {
            return false;
        }
        let mut k: usize = 0;
        while k < m && s.get_char(i + k) == p.get_char(k)
            invariant
                n == s@.len(),
                m == p@.len(),
                0 <= i <= n - m,
                0 <= k <= m,
                forall|t: int| 0 <= t < k ==> s@[i + t] == p@[t],
            decreases m - k,
        {
            k += 1;
        }
        if k == m {
            proof {
                assert(s@.subrange(i as int, i + m) =~= p@);
            }
            return true;
        }
        proof {
            assert(s@.subrange(i as int, i + m)[k as int] != p@[k as int]);
        }
        i += 1;
    }
}

} // verus!
