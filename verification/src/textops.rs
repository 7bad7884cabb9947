//! Plain-text helpers shared by the parser: newline normalization, line
//! splitting, whitespace trimming, decimal parsing and conversions between
//! `String` and character vectors.

use vstd::prelude::*;

verus! {

/// The first index at or after `from` where `c` occurs, if any.
pub open spec fn find_from(s: Seq<char>, c: char, from: int) -> Option<int>
    decreases s.len() - from,
{
    if from < 0 || from >= s.len() {
        None
    } else if s[from] == c {
        Some(from)
    } else {
        find_from(s, c, from + 1)
    }
}

/// A hit of `find_from` lies between `from` and the end, on `c`.
pub proof fn lemma_find_from_bounds(s: Seq<char>, c: char, from: int)
    requires
        find_from(s, c, from) is Some,
    ensures
        from <= find_from(s, c, from)->Some_0 < s.len(),
        s[find_from(s, c, from)->Some_0] == c,
    decreases s.len() - from,
{
    if 0 <= from < s.len() && s[from] != c {
        lemma_find_from_bounds(s, c, from + 1);
    }
}

/// `find_from` returns exactly the first occurrence.
pub proof fn lemma_find_from_some(s: Seq<char>, c: char, from: int, j: int)
    requires
        0 <= from <= j < s.len(),
        s[j] == c,
        forall|k: int| from <= k < j ==> s[k] != c,
    ensures
        find_from(s, c, from) == Some(j),
    decreases j - from,
{
    if from < j {
        lemma_find_from_some(s, c, from + 1, j);
    }
}

/// `find_from` returns `None` exactly when `c` does not occur from `from` on.
pub proof fn lemma_find_from_none(s: Seq<char>, c: char, from: int)
    requires
        0 <= from <= s.len(),
        forall|k: int| from <= k < s.len() ==> s[k] != c,
    ensures
        find_from(s, c, from) is None,
    decreases s.len() - from,
{
    if from < s.len() {
        lemma_find_from_none(s, c, from + 1);
    }
}

/// The source text with every line-ending variant (`\n`, `\r`, `\r\n`,
/// `\n\r`) replaced by a single `\n`, leftmost first.
pub open spec fn normalize_newlines_spec(s: Seq<char>) -> Seq<char>
    decreases s.len(),
{
    if s.len() == 0 {
        Seq::empty()
    } else if s[0] == '\n' {
        if s.len() >= 2 && s[1] == '\r' {
            seq!['\n'] + normalize_newlines_spec(s.skip(2))
        } else {
            seq!['\n'] + normalize_newlines_spec(s.skip(1))
        }
    } else if s[0] == '\r' {
        if s.len() >= 2 && s[1] == '\n' {
            seq!['\n'] + normalize_newlines_spec(s.skip(2))
        } else {
            seq!['\n'] + normalize_newlines_spec(s.skip(1))
        }
    } else {
        seq![s[0]] + normalize_newlines_spec(s.skip(1))
    }
}

/// Canonicalize line endings to a single `\n`.
pub fn normalize_newlines(s: &Vec<char>) -> (r: Vec<char>)
    ensures
        r@ == normalize_newlines_spec(s@),
{
    let mut r: Vec<char> = Vec::new();
    let mut i: usize = 0;
    proof {
        assert(s@.skip(0) =~= s@);
        assert(r@ + normalize_newlines_spec(s@) =~= normalize_newlines_spec(s@));
    }
    while i < s.len()
        invariant
            i <= s.len(),
            normalize_newlines_spec(s@) == r@ + normalize_newlines_spec(s@.skip(i as int)),
        decreases s.len() - i,
    {
        let c = s[i];
        let ghost rest = s@.skip(i as int);
        if c == '\n' || c == '\r' {
            let other: char = if c == '\n' {
                '\r'
            } else {
                '\n'
            };
            if i + 1 < s.len() && s[i + 1] == other {
                proof {
                    assert(rest.skip(2) =~= s@.skip(i + 2));
                }
                r.push('\n');
                i = i + 2;
            } else {
                proof {
                    assert(rest.skip(1) =~= s@.skip(i + 1));
                }
                r.push('\n');
                i = i + 1;
            }
        } else {
            proof {
                assert(rest.skip(1) =~= s@.skip(i + 1));
            }
            r.push(c);
            i = i + 1;
        }
        proof {
            assert(normalize_newlines_spec(s@) == r@ + normalize_newlines_spec(s@.skip(i as int)));
        }
    }
    proof {
        assert(s@.skip(s@.len() as int) =~= Seq::<char>::empty());
        assert(r@ + Seq::<char>::empty() =~= r@);
    }
    r
}

/// Normalization never lengthens a text.
pub proof fn lemma_normalize_len(s: Seq<char>)
    ensures
        normalize_newlines_spec(s).len() <= s.len(),
    decreases s.len(),
{
    if s.len() > 0 {
        if (s[0] == '\n' && s.len() >= 2 && s[1] == '\r') || (s[0] == '\r' && s.len() >= 2 && s[1]
            == '\n') {
            lemma_normalize_len(s.skip(2));
        } else {
            lemma_normalize_len(s.skip(1));
        }
    }
}

/// The lines of a text, split on `\n`; a trailing newline yields no extra
/// empty line, as with `str::lines` on normalized text.
pub open spec fn split_lines_spec(s: Seq<char>) -> Seq<Seq<char>>
    decreases s.len(),
    via split_lines_spec_decreases
{
    if s.len() == 0 {
        Seq::empty()
    } else {
        match find_from(s, '\n', 0) {
            Some(j) => seq![s.subrange(0, j)] + split_lines_spec(s.skip(j + 1)),
            None => seq![s],
        }
    }
}

#[via_fn]
proof fn split_lines_spec_decreases(s: Seq<char>) {
    if s.len() > 0 && find_from(s, '\n', 0) is Some {
        lemma_find_from_bounds(s, '\n', 0);
    }
}

/// Split a normalized text into its lines.
pub fn split_lines(s: &Vec<char>) -> (r: Vec<Vec<char>>)
    ensures
        r@.map(|k: int, l: Vec<char>| l@) == split_lines_spec(s@),
{
    let mut r: Vec<Vec<char>> = Vec::new();
    let mut cur: Vec<char> = Vec::new();
    let mut start: usize = 0;
    let mut i: usize = 0;
    proof {
        assert(s@.skip(0) =~= s@);
        assert(cur@ =~= s@.subrange(0, 0));
        assert(r@.map(|k: int, l: Vec<char>| l@) + split_lines_spec(s@) =~= split_lines_spec(s@));
    }
    while i < s.len()
        invariant
            start <= i <= s.len(),
            cur@ == s@.subrange(start as int, i as int),
            forall|k: int| start <= k < i ==> s@[k] != '\n',
            split_lines_spec(s@) == r@.map(|k: int, l: Vec<char>| l@) + split_lines_spec(
                s@.skip(start as int),
            ),
        decreases s.len() - i,
    {
        let ghost rest = s@.skip(start as int);
        if s[i] == '\n' {
            proof {
                assert(rest[i - start] == '\n');
                assert(forall|k: int| 0 <= k < i - start ==> rest[k] != '\n');
                lemma_find_from_some(rest, '\n', 0, i - start);
                assert(rest.subrange(0, i - start) =~= s@.subrange(start as int, i as int));
                assert(rest.skip(i - start + 1) =~= s@.skip(i + 1));
                let ghost old_r = r@.map(|k: int, l: Vec<char>| l@);
                assert(old_r + (seq![cur@] + split_lines_spec(s@.skip(i + 1))) =~= old_r.push(cur@)
                    + split_lines_spec(s@.skip(i + 1)));
            }
            let ghost prev = r@;
            r.push(cur);
            proof {
                assert(r@.map(|k: int, l: Vec<char>| l@) =~= prev.map(|k: int, l: Vec<char>| l@)
                    .push(r@[prev.len() as int]@));
            }
            cur = Vec::new();
            start = i + 1;
            i = i + 1;
            proof {
                assert(cur@ =~= s@.subrange(start as int, i as int));
            }
        } else {
            cur.push(s[i]);
            i = i + 1;
            proof {
                assert(cur@ =~= s@.subrange(start as int, i as int));
            }
        }
    }
    if start < s.len() {
        proof {
            let ghost rest = s@.skip(start as int);
            lemma_find_from_none(rest, '\n', 0);
            assert(rest =~= s@.subrange(start as int, s@.len() as int));
            let ghost old_r = r@.map(|k: int, l: Vec<char>| l@);
            assert(old_r + seq![cur@] =~= old_r.push(cur@));
        }
        let ghost prev = r@;
        r.push(cur);
        proof {
            assert(r@.map(|k: int, l: Vec<char>| l@) =~= prev.map(|k: int, l: Vec<char>| l@).push(
                r@[prev.len() as int]@,
            ));
        }
    } else {
        proof {
            assert(s@.skip(start as int) =~= Seq::<char>::empty());
            assert(r@.map(|k: int, l: Vec<char>| l@) + Seq::<Seq<char>>::empty() =~= r@.map(
                |k: int, l: Vec<char>| l@,
            ));
        }
    }
    r
}

/// No line of a split is longer than the text it came from.
pub proof fn lemma_split_lines_len(s: Seq<char>)
    ensures
        forall|k: int|
            0 <= k < split_lines_spec(s).len() ==> (#[trigger] split_lines_spec(s)[k]).len()
                <= s.len(),
    decreases s.len(),
{
    if s.len() > 0 {
        match find_from(s, '\n', 0) {
            Some(j) => {
                lemma_find_from_bounds(s, '\n', 0);
                lemma_split_lines_len(s.skip(j + 1));
                assert forall|k: int| 0 <= k < split_lines_spec(s).len() implies (
                #[trigger] split_lines_spec(s)[k]).len() <= s.len() by {
                    if k > 0 {
                        assert(split_lines_spec(s)[k] == split_lines_spec(s.skip(j + 1))[k - 1]);
                    }
                }
            },
            None => {},
        }
    }
}

/// ASCII whitespace, the set stripped from directive arguments.
pub open spec fn is_space(c: char) -> bool {
    c == ' ' || c == '\t' || c == '\n' || c == '\r' || c == '\u{000C}'
}

/// `s` with leading whitespace removed.
pub open spec fn trim_front_spec(s: Seq<char>) -> Seq<char>
    decreases s.len(),
{
    if s.len() > 0 && is_space(s[0]) {
        trim_front_spec(s.drop_first())
    } else {
        s
    }
}

/// `s` with trailing whitespace removed.
pub open spec fn trim_back_spec(s: Seq<char>) -> Seq<char>
    decreases s.len(),
{
    if s.len() > 0 && is_space(s[s.len() - 1]) {
        trim_back_spec(s.drop_last())
    } else {
        s
    }
}

/// `s` with surrounding whitespace removed.
pub open spec fn trim_spec(s: Seq<char>) -> Seq<char> {
    trim_back_spec(trim_front_spec(s))
}

proof fn lemma_trim_front_skip(s: Seq<char>, a: int)
    requires
        0 <= a <= s.len(),
        forall|k: int| 0 <= k < a ==> is_space(s[k]),
        a < s.len() ==> !is_space(s[a]),
    ensures
        trim_front_spec(s) == s.skip(a),
    decreases a,
{
    if a == 0 {
        assert(s.skip(0) =~= s);
    } else {
        assert(s.drop_first() =~= s.skip(1));
        lemma_trim_front_skip(s.skip(1), a - 1);
        assert(s.skip(1).skip(a - 1) =~= s.skip(a));
    }
}

proof fn lemma_trim_back_take(s: Seq<char>, b: int)
    requires
        0 <= b <= s.len(),
        forall|k: int| b <= k < s.len() ==> is_space(s[k]),
        b > 0 ==> !is_space(s[b - 1]),
    ensures
        trim_back_spec(s) == s.subrange(0, b),
    decreases s.len() - b,
{
    if b == s.len() {
        assert(s.subrange(0, b) =~= s);
    } else {
        assert(s.drop_last() =~= s.subrange(0, s.len() - 1));
        lemma_trim_back_take(s.drop_last(), b);
        assert(s.drop_last().subrange(0, b) =~= s.subrange(0, b));
    }
}

/// Trimming never lengthens a text.
pub proof fn lemma_trim_len(s: Seq<char>)
    ensures
        trim_spec(s).len() <= s.len(),
{
    lemma_trim_front_len(s);
    lemma_trim_back_len(trim_front_spec(s));
}

proof fn lemma_trim_front_len(s: Seq<char>)
    ensures
        trim_front_spec(s).len() <= s.len(),
    decreases s.len(),
{
    if s.len() > 0 && is_space(s[0]) {
        lemma_trim_front_len(s.drop_first());
    }
}

proof fn lemma_trim_back_len(s: Seq<char>)
    ensures
        trim_back_spec(s).len() <= s.len(),
    decreases s.len(),
{
    if s.len() > 0 && is_space(s[s.len() - 1]) {
        lemma_trim_back_len(s.drop_last());
    }
}

/// Strip surrounding whitespace from a character vector.
pub fn trim(s: &Vec<char>) -> (r: Vec<char>)
    ensures
        r@ == trim_spec(s@),
{
    let mut a: usize = 0;
    while a < s.len() && (s[a] == ' ' || s[a] == '\t' || s[a] == '\n' || s[a] == '\r' || s[a]
        == '\u{000C}')
        invariant
            a <= s.len(),
            forall|k: int| 0 <= k < a ==> is_space(s@[k]),
        decreases s.len() - a,
    {
        a = a + 1;
    }
    let mut b: usize = s.len();
    while b > a && (s[b - 1] == ' ' || s[b - 1] == '\t' || s[b - 1] == '\n' || s[b - 1] == '\r'
        || s[b - 1] == '\u{000C}')
        invariant
            a <= b <= s.len(),
            forall|k: int| b <= k < s.len() ==> is_space(s@[k]),
        decreases b,
    {
        b = b - 1;
    }
    proof {
        lemma_trim_front_skip(s@, a as int);
        lemma_trim_back_take(s@.skip(a as int), b - a);
        assert(s@.skip(a as int).subrange(0, b - a) =~= s@.subrange(a as int, b as int));
    }
    let mut r: Vec<char> = Vec::new();
    let mut i: usize = a;
    while i < b
        invariant
            a <= i <= b <= s.len(),
            r@ == s@.subrange(a as int, i as int),
        decreases b - i,
    {
        r.push(s[i]);
        proof {
            assert(s@.subrange(a as int, i + 1) =~= s@.subrange(a as int, i as int).push(
                s@[i as int],
            ));
        }
        i = i + 1;
    }
    r
}

/// A decimal digit.
pub open spec fn is_digit(c: char) -> bool {
    '0' <= c && c <= '9'
}

/// Numeric value of one digit.
pub open spec fn digit_val(c: char) -> int {
    c as int - '0' as int
}

/// Value of a digit string read in base ten.
pub open spec fn digits_val(s: Seq<char>) -> int
    decreases s.len(),
{
    if s.len() == 0 {
        0
    } else {
        digits_val(s.drop_last()) * 10 + digit_val(s.last())
    }
}

/// Whether every character is a decimal digit.
pub open spec fn all_digits(s: Seq<char>) -> bool {
    forall|k: int| 0 <= k < s.len() ==> is_digit(#[trigger] s[k])
}

/// What `str::parse::<i32>` accepts: an optional sign, then one or more
/// digits, valued within `i32` range.
pub open spec fn parse_i32_spec(s: Seq<char>) -> Option<int> {
    let digits = if s.len() > 0 && (s[0] == '+' || s[0] == '-') {
        s.skip(1)
    } else {
        s
    };
    let neg = s.len() > 0 && s[0] == '-';
    if digits.len() == 0 {
        None
    } else if !all_digits(digits) {
        None
    } else {
        let v = if neg {
            -digits_val(digits)
        } else {
            digits_val(digits)
        };
        if v < i32::MIN || v > i32::MAX {
            None
        } else {
            Some(v)
        }
    }
}

proof fn lemma_digits_val_nonneg(s: Seq<char>)
    requires
        all_digits(s),
    ensures
        digits_val(s) >= 0,
    decreases s.len(),
{
    if s.len() > 0 {
        assert(all_digits(s.drop_last())) by {
            assert forall|k: int| 0 <= k < s.len() - 1 implies is_digit(
                #[trigger] s.drop_last()[k],
            ) by {
                assert(s.drop_last()[k] == s[k]);
            }
        }
        lemma_digits_val_nonneg(s.drop_last());
    }
}

/// Parse a signed decimal integer, exactly as `parse_i32_spec` describes.
pub fn parse_i32(s: &Vec<char>) -> (r: Option<i32>)
    ensures
        match r {
            Some(v) => parse_i32_spec(s@) == Some(v as int),
            None => parse_i32_spec(s@) is None,
        },
{
    let mut pos: usize = 0;
    let mut neg: bool = false;
    if s.len() > 0 && (s[0] == '+' || s[0] == '-') {
        neg = s[0] == '-';
        pos = 1;
    }
    let ghost digits = s@.skip(pos as int);
    if pos >= s.len() {
        proof {
            assert(digits.len() == 0);
        }
        return None;
    }
    // Cap on the accumulator: anything at or above it is out of `i32` range.
    let cap: u64 = 0x1_0000_0000;
    let mut acc: u64 = 0;
    let mut i: usize = pos;
    while i < s.len()
        invariant
            pos <= i <= s.len(),
            digits == s@.skip(pos as int),
            pos == if s@.len() > 0 && (s@[0] == '+' || s@[0] == '-') {
                1int
            } else {
                0int
            },
            cap == 0x1_0000_0000u64,
            forall|k: int| pos <= k < i ==> is_digit(s@[k]),
            acc <= cap,
            digits_val(s@.subrange(pos as int, i as int)) >= 0,
            acc == if digits_val(s@.subrange(pos as int, i as int)) <= cap as int {
                digits_val(s@.subrange(pos as int, i as int))
            } else {
                cap as int
            },
        decreases s.len() - i,
    {
        let c = s[i];
        if !('0' <= c && c <= '9') {
            proof {
                assert(s@.skip(0) =~= s@);
                assert(digits[i - pos] == c);
                let gd = if s@.len() > 0 && (s@[0] == '+' || s@[0] == '-') {
                    s@.skip(1)
                } else {
                    s@
                };
                assert(gd =~= digits);
                assert(!all_digits(gd)) by {
                    assert(0 <= i - pos < gd.len() && !is_digit(gd[i - pos]));
                }
                assert(parse_i32_spec(s@) is None);
            }
            return None;
        }
        let d: u64 = (c as u32 - '0' as u32) as u64;
        let ghost prefix = s@.subrange(pos as int, i as int);
        let ghost next_prefix = s@.subrange(pos as int, i + 1);
        proof {
            assert(next_prefix.drop_last() =~= prefix);
            assert(next_prefix.last() == s@[i as int]);
            assert(all_digits(next_prefix)) by {
                assert forall|k: int| 0 <= k < next_prefix.len() implies is_digit(
                    #[trigger] next_prefix[k],
                ) by {
                    assert(next_prefix[k] == s@[k + pos]);
                }
            }
            lemma_digits_val_nonneg(next_prefix);
        }
        let wide: u64 = acc * 10 + d;
        acc = if wide > cap {
            cap
        } else {
            wide
        };
        i = i + 1;
    }
    proof {
        assert(s@.skip(0) =~= s@);
        assert(s@.subrange(pos as int, s@.len() as int) =~= digits);
        assert(all_digits(digits)) by {
            assert forall|k: int| 0 <= k < digits.len() implies is_digit(#[trigger] digits[k]) by {
                assert(digits[k] == s@[k + pos]);
            }
        }
        lemma_digits_val_nonneg(digits);
    }
    if neg {
        if acc <= 0x8000_0000u64 {
            let v: i64 = -(acc as i64);
            proof {
                assert(acc as int == digits_val(digits));
                assert(parse_i32_spec(s@) == Some(v as int));
            }
            Some(v as i32)
        } else {
            proof {
                assert(digits_val(digits) > 0x8000_0000);
                assert(parse_i32_spec(s@) is None);
            }
            None
        }
    } else {
        if acc <= 0x7FFF_FFFFu64 {
            proof {
                assert(acc as int == digits_val(digits));
                assert(parse_i32_spec(s@) == Some(acc as int));
            }
            Some(acc as i32)
        } else {
            proof {
                assert(digits_val(digits) > 0x7FFF_FFFF);
                assert(parse_i32_spec(s@) is None);
            }
            None
        }
    }
}

/// The characters of a string slice, in order.
pub fn str_to_chars(s: &str) -> (r: Vec<char>)
    ensures
        r@ == s@,
{
    let n = s.unicode_len();
    let mut r: Vec<char> = Vec::new();
    let mut i: usize = 0;
    while i < n
        invariant
            i <= n,
            n == s@.len(),
            r@ == s@.subrange(0, i as int),
        decreases n - i,
    {
        r.push(s.get_char(i));
        proof {
            assert(s@.subrange(0, i + 1) =~= s@.subrange(0, i as int).push(s@[i as int]));
        }
        i = i + 1;
    }
    proof {
        assert(s@.subrange(0, s@.len() as int) =~= s@);
    }
    r
}

/// Relies on `String::from_iter` over `char`: collecting characters builds
/// the string of exactly those characters.
#[verifier::external_body]
pub fn chars_to_string(v: &Vec<char>) -> (r: String)
    ensures
        r@ == v@,
{
    v.iter().collect()
}

/// Whether a character vector spells the same text as a string slice.
pub fn chars_eq_str(v: &Vec<char>, s: &str) -> (r: bool)
    ensures
        r == (v@ == s@),
{
    let n = s.unicode_len();
    if v.len() != n {
        proof {
            assert(v@ != s@);
        }
        return false;
    }
    let mut i: usize = 0;
    while i < n
        invariant
            i <= n,
            n == s@.len(),
            v@.len() == n,
            forall|k: int| 0 <= k < i ==> v@[k] == s@[k],
        decreases n - i,
    {
        if v[i] != s.get_char(i) {
            proof {
                assert(v@[i as int] != s@[i as int]);
            }
            return false;
        }
        i = i + 1;
    }
    proof {
        assert(v@ =~= s@);
    }
    true
}

/// Append the characters of `src` to `dst`.
pub fn append_chars(dst: &mut Vec<char>, src: &Vec<char>)
    ensures
        final(dst)@ == old(dst)@ + src@,
{
    let mut i: usize = 0;
    proof {
        assert(dst@ =~= old(dst)@ + src@.subrange(0, 0));
    }
    while i < src.len()
        invariant
            i <= src@.len(),
            dst@ == old(dst)@ + src@.subrange(0, i as int),
        decreases src@.len() - i,
    {
        dst.push(src[i]);
        proof {
            assert(old(dst)@ + src@.subrange(0, i + 1) =~= (old(dst)@ + src@.subrange(
                0,
                i as int,
            )).push(src@[i as int]));
        }
        i = i + 1;
    }
    proof {
        assert(src@.subrange(0, src@.len() as int) =~= src@);
    }
}

/// Copy a sub-range of a character vector.
pub fn subrange_chars(v: &Vec<char>, a: usize, b: usize) -> (r: Vec<char>)
    requires
        a <= b <= v@.len(),
    ensures
        r@ == v@.subrange(a as int, b as int),
{
    let mut r: Vec<char> = Vec::new();
    let mut i: usize = a;
    while i < b
        invariant
            a <= i <= b <= v@.len(),
            r@ == v@.subrange(a as int, i as int),
        decreases b - i,
    {
        r.push(v[i]);
        proof {
            assert(v@.subrange(a as int, i + 1) =~= v@.subrange(a as int, i as int).push(
                v@[i as int],
            ));
        }
        i = i + 1;
    }
    r
}

} // verus!
