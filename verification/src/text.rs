//! Number text: how an integer is written in decimal, and which texts read as
//! numbers.

use vstd::prelude::*;

verus! {

/// The character that writes the digit `d`, for `0 <= d <= 9`.
pub open spec fn digit_char(d: int) -> char {
    if d == 0 {
        '0'
    } else if d == 1 {
        '1'
    } else if d == 2 {
        '2'
    } else if d == 3 {
        '3'
    } else if d == 4 {
        '4'
    } else if d == 5 {
        '5'
    } else if d == 6 {
        '6'
    } else if d == 7 {
        '7'
    } else if d == 8 {
        '8'
    } else {
        '9'
    }
}

/// The decimal digits of `n`, most significant first, without leading zeros.
pub open spec fn digits_of(n: nat) -> Seq<char>
    decreases n,
{
    if n < 10 {
        seq![digit_char(n as int)]
    } else {
        digits_of(n / 10).push(digit_char((n % 10) as int))
    }
}

/// The decimal text of `v`: a minus sign where `v` is negative, then its digits.
pub open spec fn decimal_text(v: int) -> Seq<char> {
    if v < 0 {
        seq!['-'] + digits_of((-v) as nat)
    } else {
        digits_of(v as nat)
    }
}

/// The decimal text of a 64-bit number.
pub open spec fn decimal_text_of(v: i64) -> Seq<char> {
    decimal_text(v as int)
}

/// The digits `low`, written last first.
spec fn digits_reversed(low: Seq<u8>) -> Seq<char> {
    Seq::new(low.len(), |i: int| digit_char(low[low.len() - 1 - i] as int))
}

/// The text of one digit.
fn digit_text(d: u8) -> (r: &'static str)
    requires
        d < 10,
    ensures
        r@ == seq![digit_char(d as int)],
{
    proof {
        reveal_strlit("0");
        reveal_strlit("1");
        reveal_strlit("2");
        reveal_strlit("3");
        reveal_strlit("4");
        reveal_strlit("5");
        reveal_strlit("6");
        reveal_strlit("7");
        reveal_strlit("8");
        reveal_strlit("9");
    }
    let r = if d == 0 {
        "0"
    } else if d == 1 {
        "1"
    } else if d == 2 {
        "2"
    } else if d == 3 {
        "3"
    } else if d == 4 {
        "4"
    } else if d == 5 {
        "5"
    } else if d == 6 {
        "6"
    } else if d == 7 {
        "7"
    } else if d == 8 {
        "8"
    } else {
        "9"
    };
    assert(r@ =~= seq![digit_char(d as int)]);
    r
}

/// Writes `v` in decimal.
pub fn decimal_string(v: i64) -> (r: String)
    ensures
        r@ == decimal_text(v as int),
{
    let negative = v < 0;
    let magnitude: u64 = if negative {
        ((-(v + 1)) as u64) + 1
    } else {
        v as u64
    };
    let mut low: Vec<u8> = Vec::new();
    let mut rest: u64 = magnitude;
    loop
        invariant_except_break
            digits_of(magnitude as nat) == digits_of(rest as nat) + digits_reversed(low@),
            forall|i: int| 0 <= i < low.len() ==> low[i] < 10,
        ensures
            digits_of(magnitude as nat) == digits_reversed(low@),
            forall|i: int| 0 <= i < low.len() ==> low[i] < 10,
        decreases rest,
    {
        let d: u8 = (rest % 10) as u8;
        let ghost before = low@;
        let ghost whole = rest;
        low.push(d);
        rest = rest / 10;
        proof {
            assert(digits_reversed(low@) =~= seq![digit_char(d as int)] + digits_reversed(before));
            if whole >= 10 {
                assert(digits_of(whole as nat) == digits_of(rest as nat).push(digit_char(d as int)));
                assert(digits_of(rest as nat).push(digit_char(d as int)) + digits_reversed(before)
                    =~= digits_of(rest as nat) + digits_reversed(low@));
            } else {
                assert(digits_of(whole as nat) + digits_reversed(before) =~= digits_reversed(low@));
            }
        }
        if rest == 0 {
            break;
        }
    }
    let mut out = String::new();
    if negative {
        proof {
            reveal_strlit("-");
        }
        out.append("-");
        assert(out@ =~= seq!['-']);
    }
    let ghost sign = out@;
    let mut i: usize = low.len();
    while i > 0
        invariant
            i <= low.len(),
            forall|k: int| 0 <= k < low.len() ==> low[k] < 10,
            out@ == sign + digits_reversed(low@).take(low.len() - i),
        decreases i,
    {
        i = i - 1;
        out.append(digit_text(low[i]));
        assert(out@ =~= sign + digits_reversed(low@).take(low.len() - i));
    }
    assert(digits_reversed(low@).take(low.len() as int) =~= digits_reversed(low@));
    assert(sign + digits_reversed(low@) =~= decimal_text(v as int));
    out
}

/// Whether two texts hold the same characters.
pub fn same_text(a: &str, b: &str) -> (r: bool)
    ensures
        r == (a@ == b@),
{
    let x = a.as_bytes();
    let y = b.as_bytes();
    proof {
        vstd::utf8::encode_utf8_decode_utf8(a@);
        vstd::utf8::encode_utf8_decode_utf8(b@);
    }
    if x.len() != y.len() {
        return false;
    }
    let mut i: usize = 0;
    while i < x.len()
        invariant
            i <= x.len(),
            x.len() == y.len(),
            x@ == vstd::utf8::encode_utf8(a@),
            y@ == vstd::utf8::encode_utf8(b@),
            forall|k: int| 0 <= k < i ==> x[k] == y[k],
        decreases x.len() - i,
    {
        if x[i] != y[i] {
            return false;
        }
        i = i + 1;
    }
    assert(x@ =~= y@);
    true
}

/// The characters that the bytes of a text in ASCII stand for.
spec fn ascii_chars_of(bytes: Seq<u8>) -> Seq<char> {
    Seq::new(bytes.len(), |i: int| bytes[i] as char)
}

/// The bytes of a text, where each of them is one ASCII character.
fn ascii_bytes(text: &str) -> (r: Option<&[u8]>)
    ensures
        match r {
            Some(bytes) => text@ == ascii_chars_of(bytes@) && forall|i: int|
                0 <= i < bytes@.len() ==> bytes@[i] < 128,
            None => !vstd::utf8::is_ascii_chars(text@),
        },
{
    if text.is_ascii() {
        let bytes = text.as_bytes();
        proof {
            vstd::utf8::is_ascii_chars_encode_utf8(text@);
            assert forall|i: int| 0 <= i < bytes@.len() implies bytes@[i] < 128 && bytes@[i] as char
                == text@[i] by {
                assert('\0' <= text@[i] <= '\u{7f}');
                assert(text@[i] as u8 == bytes@[i]);
            }
            assert(text@ =~= ascii_chars_of(bytes@));
        }
        Some(bytes)
    } else {
        None
    }
}

/// Whether `c` is one of the ten digits.
pub open spec fn is_digit(c: char) -> bool {
    '0' <= c && c <= '9'
}

/// The number that the digit `c` writes.
pub open spec fn digit_value(c: char) -> nat {
    (c as u32 - '0' as u32) as nat
}

/// Whether `s` holds digits only.
pub open spec fn all_digits(s: Seq<char>) -> bool {
    forall|i: int| 0 <= i < s.len() ==> is_digit(#[trigger] s[i])
}

/// The number that the digits `s` write in decimal.
pub open spec fn digits_value(s: Seq<char>) -> nat
    decreases s.len(),
{
    if s.len() == 0 {
        0
    } else {
        digits_value(s.drop_last()) * 10 + digit_value(s.last())
    }
}

/// Whether `s` starts with a plus or a minus sign.
pub open spec fn has_sign(s: Seq<char>) -> bool {
    s.len() > 0 && (s[0] == '+' || s[0] == '-')
}

/// `s` without its sign, if it has one.
pub open spec fn unsigned_part(s: Seq<char>) -> Seq<char> {
    if has_sign(s) {
        s.skip(1)
    } else {
        s
    }
}

/// The integer that `s` writes: an optional sign, then one digit or more and
/// nothing else. `None` for any other text.
pub open spec fn integer_value(s: Seq<char>) -> Option<int> {
    let body = unsigned_part(s);
    if body.len() == 0 || !all_digits(body) {
        None
    } else if has_sign(s) && s[0] == '-' {
        Some(-(digits_value(body) as int))
    } else {
        Some(digits_value(body) as int)
    }
}

/// The 64-bit integer that `s` writes. `None` where `s` writes no integer or
/// one that is out of range.
pub open spec fn i64_value(s: Seq<char>) -> Option<i64> {
    match integer_value(s) {
        Some(v) => if i64::MIN <= v <= i64::MAX {
            Some(v as i64)
        } else {
            None
        },
        None => None,
    }
}

/// A text that writes an integer is in ASCII.
proof fn lemma_integer_is_ascii(s: Seq<char>)
    requires
        integer_value(s) is Some,
    ensures
        vstd::utf8::is_ascii_chars(s),
{
    let body = unsigned_part(s);
    assert forall|i: int| 0 <= i < s.len() implies '\0' <= #[trigger] s[i] <= '\u{7f}' by {
        if has_sign(s) {
            if i > 0 {
                assert(is_digit(body[i - 1]));
            }
        } else {
            assert(is_digit(body[i]));
        }
    }
}

/// The first digits of a number write no more than all of them.
proof fn lemma_digits_value_grows(s: Seq<char>, k: int)
    requires
        0 <= k <= s.len(),
    ensures
        digits_value(s.take(k)) <= digits_value(s),
    decreases s.len() - k,
{
    if k == s.len() {
        assert(s.take(k) =~= s);
    } else {
        assert(s.drop_last().take(k) =~= s.take(k));
        lemma_digits_value_grows(s.drop_last(), k);
    }
}

/// Reads a 64-bit integer as `str::parse::<i64>` does: an optional sign, then
/// decimal digits.
pub fn parse_i64(text: &str) -> (r: Option<i64>)
    ensures
        r == i64_value(text@),
{
    let bytes = match ascii_bytes(text) {
        Some(bytes) => bytes,
        None => {
            proof {
                if integer_value(text@) is Some {
                    lemma_integer_is_ascii(text@);
                }
            }
            return None;
        },
    };
    let ghost s = text@;
    let ghost body = unsigned_part(s);
    let n = bytes.len();
    if n == 0 {
        return None;
    }
    let negative = bytes[0] == 45;
    let start: usize = if bytes[0] == 45 || bytes[0] == 43 {
        1
    } else {
        0
    };
    assert(has_sign(s) == (start == 1));
    assert(body.len() == n - start);
    if start == n {
        return None;
    }
    let limit: u64 = if negative {
        9223372036854775808
    } else {
        9223372036854775807
    };
    let mut total: u64 = 0;
    let mut i: usize = start;
    assert(body.take(0) =~= Seq::<char>::empty());
    while i < n
        invariant
            start <= i <= n,
            n == bytes.len(),
            s == ascii_chars_of(bytes@),
            forall|k: int| 0 <= k < bytes@.len() ==> bytes@[k] < 128,
            body == unsigned_part(s),
            body.len() == n - start,
            forall|k: int| 0 <= k < body.len() ==> body[k] == s[k + start],
            all_digits(body.take(i - start)),
            total == digits_value(body.take(i - start)),
            total <= limit,
            negative == (has_sign(s) && s[0] == '-'),
            limit == if negative {
                9223372036854775808u64
            } else {
                9223372036854775807u64
            },
            s == text@,
        decreases n - i,
    {
        let x = bytes[i];
        assert(body[i - start] == x as char);
        if x < 48 || x > 57 {
            assert(!is_digit(body[i - start]));
            return None;
        }
        let d: u64 = (x - 48) as u64;
        let ghost next = body.take(i - start + 1);
        proof {
            assert(next.drop_last() =~= body.take(i - start));
            assert(next.last() == body[i - start]);
            assert(digit_value(body[i - start]) == d);
            assert(digits_value(next) == total * 10 + d);
        }
        if total > (limit - d) / 10 {
            proof {
                lemma_digits_value_grows(body, i - start + 1);
            }
            return None;
        }
        total = total * 10 + d;
        i = i + 1;
        proof {
            assert forall|k: int| 0 <= k < next.len() implies is_digit(#[trigger] next[k]) by {
                if k < next.len() - 1 {
                    assert(is_digit(body.take(i - 1 - start)[k]));
                }
            }
        }
    }
    assert(body.take(n - start) =~= body);
    if negative {
        if total == 9223372036854775808 {
            Some(i64::MIN)
        } else {
            Some(-(total as i64))
        }
    } else {
        Some(total as i64)
    }
}

/// How many digits `s` starts with.
pub open spec fn leading_digits(s: Seq<char>) -> nat
    decreases s.len(),
{
    if s.len() > 0 && is_digit(s[0]) {
        1 + leading_digits(s.drop_first())
    } else {
        0
    }
}

/// Whether `s` is `word` letter by letter, each in small or in capital.
pub open spec fn spells(s: Seq<char>, word: Seq<char>, capitals: Seq<char>) -> bool {
    s.len() == word.len() && forall|i: int|
        0 <= i < s.len() ==> #[trigger] s[i] == word[i] || s[i] == capitals[i]
}

/// Whether `s` can follow a mantissa: nothing, or the letter e, an optional
/// sign and one digit or more.
pub open spec fn is_exponent(s: Seq<char>) -> bool {
    s.len() == 0 || ((s[0] == 'e' || s[0] == 'E') && unsigned_part(s.skip(1)).len() > 0
        && all_digits(unsigned_part(s.skip(1))))
}

/// Whether `s` is a decimal number: digits, with at most one point among
/// them and a digit on at least one side of it, then an optional exponent.
pub open spec fn is_number(s: Seq<char>) -> bool {
    let whole = leading_digits(s);
    let rest = s.skip(whole as int);
    if rest.len() > 0 && rest[0] == '.' {
        let fraction = leading_digits(rest.skip(1));
        whole + fraction > 0 && is_exponent(rest.skip(1 + fraction as int))
    } else {
        whole > 0 && is_exponent(rest)
    }
}

/// Whether `s` reads as a floating-point number: an optional sign, then
/// `inf`, `infinity` or `nan` in any case, or a decimal number. These are the
/// texts that `str::parse::<f64>` takes.
pub open spec fn float_text(s: Seq<char>) -> bool {
    let body = unsigned_part(s);
    ||| spells(body, "inf"@, "INF"@)
    ||| spells(body, "infinity"@, "INFINITY"@)
    ||| spells(body, "nan"@, "NAN"@)
    ||| is_number(body)
}

/// The digits that a text starts with are digits, and what follows them is
/// none.
proof fn lemma_leading_digits(s: Seq<char>)
    ensures
        leading_digits(s) <= s.len(),
        forall|i: int| 0 <= i < leading_digits(s) ==> is_digit(#[trigger] s[i]),
        leading_digits(s) < s.len() ==> !is_digit(s[leading_digits(s) as int]),
    decreases s.len(),
{
    if s.len() > 0 && is_digit(s[0]) {
        let tail = s.drop_first();
        lemma_leading_digits(tail);
        assert forall|i: int| 0 <= i < leading_digits(s) implies is_digit(#[trigger] s[i]) by {
            if i > 0 {
                assert(s[i] == tail[i - 1]);
            }
        }
        if leading_digits(s) < s.len() {
            assert(s[leading_digits(s) as int] == tail[leading_digits(tail) as int]);
        }
    }
}

/// An exponent is in ASCII.
proof fn lemma_exponent_is_ascii(s: Seq<char>)
    requires
        is_exponent(s),
    ensures
        vstd::utf8::is_ascii_chars(s),
{
    if s.len() > 0 {
        let signed = s.skip(1);
        let digits = unsigned_part(signed);
        assert forall|i: int| 0 <= i < s.len() implies '\0' <= #[trigger] s[i] <= '\u{7f}' by {
            if i > 0 {
                if has_sign(signed) {
                    if i > 1 {
                        assert(is_digit(digits[i - 2]));
                    } else {
                        assert(s[i] == signed[0]);
                    }
                } else {
                    assert(is_digit(digits[i - 1]));
                }
            }
        }
    }
}

/// A decimal number is in ASCII.
proof fn lemma_number_is_ascii(s: Seq<char>)
    requires
        is_number(s),
    ensures
        vstd::utf8::is_ascii_chars(s),
{
    lemma_leading_digits(s);
    let whole = leading_digits(s) as int;
    let rest = s.skip(whole);
    if rest.len() > 0 && rest[0] == '.' {
        let after = rest.skip(1);
        lemma_leading_digits(after);
        let fraction = leading_digits(after) as int;
        let tail = rest.skip(1 + fraction);
        lemma_exponent_is_ascii(tail);
        assert forall|i: int| 0 <= i < s.len() implies '\0' <= #[trigger] s[i] <= '\u{7f}' by {
            if i < whole {
                assert(is_digit(s[i]));
            } else if i == whole {
                assert(s[i] == rest[0]);
            } else if i < whole + 1 + fraction {
                assert(s[i] == after[i - whole - 1]);
                assert(is_digit(after[i - whole - 1]));
            } else {
                assert(s[i] == tail[i - whole - 1 - fraction]);
            }
        }
    } else {
        lemma_exponent_is_ascii(rest);
        assert forall|i: int| 0 <= i < s.len() implies '\0' <= #[trigger] s[i] <= '\u{7f}' by {
            if i < whole {
                assert(is_digit(s[i]));
            } else {
                assert(s[i] == rest[i - whole]);
            }
        }
    }
}

/// A text that spells a word in ASCII is in ASCII.
proof fn lemma_word_is_ascii(s: Seq<char>, word: Seq<char>, capitals: Seq<char>)
    requires
        spells(s, word, capitals),
        vstd::utf8::is_ascii_chars(word),
        vstd::utf8::is_ascii_chars(capitals),
        word.len() == capitals.len(),
    ensures
        vstd::utf8::is_ascii_chars(s),
{
    assert forall|i: int| 0 <= i < s.len() implies '\0' <= #[trigger] s[i] <= '\u{7f}' by {
        assert('\0' <= word[i] <= '\u{7f}');
        assert('\0' <= capitals[i] <= '\u{7f}');
    }
}

/// The letters of the three words.
proof fn lemma_words()
    ensures
        "inf"@ == seq!['i', 'n', 'f'],
        "INF"@ == seq!['I', 'N', 'F'],
        "nan"@ == seq!['n', 'a', 'n'],
        "NAN"@ == seq!['N', 'A', 'N'],
        "infinity"@ == seq!['i', 'n', 'f', 'i', 'n', 'i', 't', 'y'],
        "INFINITY"@ == seq!['I', 'N', 'F', 'I', 'N', 'I', 'T', 'Y'],
{
    reveal_strlit("inf");
    reveal_strlit("INF");
    reveal_strlit("nan");
    reveal_strlit("NAN");
    reveal_strlit("infinity");
    reveal_strlit("INFINITY");
    assert("inf"@ =~= seq!['i', 'n', 'f']);
    assert("INF"@ =~= seq!['I', 'N', 'F']);
    assert("nan"@ =~= seq!['n', 'a', 'n']);
    assert("NAN"@ =~= seq!['N', 'A', 'N']);
    assert("infinity"@ =~= seq!['i', 'n', 'f', 'i', 'n', 'i', 't', 'y']);
    assert("INFINITY"@ =~= seq!['I', 'N', 'F', 'I', 'N', 'I', 'T', 'Y']);
}

/// A text that reads as a floating-point number is in ASCII.
proof fn lemma_float_is_ascii(s: Seq<char>)
    requires
        float_text(s),
    ensures
        vstd::utf8::is_ascii_chars(s),
{
    let body = unsigned_part(s);
    lemma_words();
    if spells(body, "inf"@, "INF"@) {
        lemma_word_is_ascii(body, "inf"@, "INF"@);
    } else if spells(body, "infinity"@, "INFINITY"@) {
        lemma_word_is_ascii(body, "infinity"@, "INFINITY"@);
    } else if spells(body, "nan"@, "NAN"@) {
        lemma_word_is_ascii(body, "nan"@, "NAN"@);
    } else {
        lemma_number_is_ascii(body);
    }
    assert forall|i: int| 0 <= i < s.len() implies '\0' <= #[trigger] s[i] <= '\u{7f}' by {
        if has_sign(s) {
            if i > 0 {
                assert(s[i] == body[i - 1]);
                assert('\0' <= body[i - 1] <= '\u{7f}');
            }
        } else {
            assert('\0' <= body[i] <= '\u{7f}');
        }
    }
}

/// Counts the digits that stand at `from` and after it, up to the first byte
/// that is none.
fn count_digits(bytes: &[u8], from: usize) -> (n: usize)
    requires
        from <= bytes.len(),
        forall|k: int| 0 <= k < bytes@.len() ==> bytes@[k] < 128,
    ensures
        from + n <= bytes.len(),
        n == leading_digits(ascii_chars_of(bytes@).skip(from as int)),
{
    let ghost chars = ascii_chars_of(bytes@);
    let mut at: usize = from;
    while at < bytes.len() && 48 <= bytes[at] && bytes[at] <= 57
        invariant
            from <= at <= bytes.len(),
            chars == ascii_chars_of(bytes@),
            forall|k: int| 0 <= k < bytes@.len() ==> bytes@[k] < 128,
            leading_digits(chars.skip(from as int)) == (at - from) + leading_digits(
                chars.skip(at as int),
            ),
        decreases bytes.len() - at,
    {
        proof {
            let here = chars.skip(at as int);
            assert(here[0] == bytes@[at as int] as char);
            assert(is_digit(here[0]));
            assert(here.drop_first() =~= chars.skip(at + 1));
        }
        at = at + 1;
    }
    proof {
        let here = chars.skip(at as int);
        if at < bytes.len() {
            assert(here[0] == bytes@[at as int] as char);
            assert(!is_digit(here[0]));
        }
        assert(leading_digits(here) == 0);
    }
    at - from
}

/// Whether `x` is the letter `small`, in small or in capital.
fn is_letter(x: u8, small: u8) -> (r: bool)
    requires
        97 <= small <= 122,
        x < 128,
    ensures
        r == (x as char == small as char || x as char == (small - 32) as u8 as char),
{
    x == small || x == small - 32
}

/// A text holds digits only exactly if the digits it starts with are all of
/// it.
proof fn lemma_all_digits(s: Seq<char>)
    ensures
        all_digits(s) <==> leading_digits(s) == s.len(),
{
    lemma_leading_digits(s);
    if all_digits(s) && leading_digits(s) < s.len() {
        assert(is_digit(s[leading_digits(s) as int]));
    }
}

/// Whether the bytes from `start` on spell `inf`, `infinity` or `nan`.
fn reads_word(bytes: &[u8], start: usize) -> (r: bool)
    requires
        start <= bytes.len(),
        forall|k: int| 0 <= k < bytes@.len() ==> bytes@[k] < 128,
    ensures
        r == ({
            let body = ascii_chars_of(bytes@).skip(start as int);
            ||| spells(body, "inf"@, "INF"@)
            ||| spells(body, "infinity"@, "INFINITY"@)
            ||| spells(body, "nan"@, "NAN"@)
        }),
{
    let ghost body = ascii_chars_of(bytes@).skip(start as int);
    proof {
        lemma_words();
        assert(forall|k: int| 0 <= k < body.len() ==> body[k] == bytes@[k + start] as char);
    }
    let len = bytes.len() - start;
    if len == 3 {
        let inf = is_letter(bytes[start], 105) && is_letter(bytes[start + 1], 110) && is_letter(
            bytes[start + 2],
            102,
        );
        let nan = is_letter(bytes[start], 110) && is_letter(bytes[start + 1], 97) && is_letter(
            bytes[start + 2],
            110,
        );
        proof {
            if spells(body, "inf"@, "INF"@) {
                assert(body[0] == 'i' || body[0] == 'I');
                assert(body[1] == 'n' || body[1] == 'N');
                assert(body[2] == 'f' || body[2] == 'F');
            }
            if spells(body, "nan"@, "NAN"@) {
                assert(body[0] == 'n' || body[0] == 'N');
                assert(body[1] == 'a' || body[1] == 'A');
                assert(body[2] == 'n' || body[2] == 'N');
            }
            if inf {
                assert(spells(body, "inf"@, "INF"@));
            }
            if nan {
                assert(spells(body, "nan"@, "NAN"@));
            }
        }
        inf || nan
    } else if len == 8 {
        let infinity = is_letter(bytes[start], 105) && is_letter(bytes[start + 1], 110)
            && is_letter(bytes[start + 2], 102) && is_letter(bytes[start + 3], 105) && is_letter(
            bytes[start + 4],
            110,
        ) && is_letter(bytes[start + 5], 105) && is_letter(bytes[start + 6], 116) && is_letter(
            bytes[start + 7],
            121,
        );
        proof {
            if spells(body, "infinity"@, "INFINITY"@) {
                assert(body[0] == 'i' || body[0] == 'I');
                assert(body[1] == 'n' || body[1] == 'N');
                assert(body[2] == 'f' || body[2] == 'F');
                assert(body[3] == 'i' || body[3] == 'I');
                assert(body[4] == 'n' || body[4] == 'N');
                assert(body[5] == 'i' || body[5] == 'I');
                assert(body[6] == 't' || body[6] == 'T');
                assert(body[7] == 'y' || body[7] == 'Y');
            }
            if infinity {
                assert(spells(body, "infinity"@, "INFINITY"@));
            }
        }
        infinity
    } else {
        false
    }
}

/// Whether the bytes from `at` on can follow a mantissa.
fn reads_exponent(bytes: &[u8], at: usize) -> (r: bool)
    requires
        at <= bytes.len(),
        forall|k: int| 0 <= k < bytes@.len() ==> bytes@[k] < 128,
    ensures
        r == is_exponent(ascii_chars_of(bytes@).skip(at as int)),
{
    let ghost chars = ascii_chars_of(bytes@);
    let ghost tail = chars.skip(at as int);
    let n = bytes.len();
    if at == n {
        return true;
    }
    assert(tail[0] == bytes@[at as int] as char);
    if bytes[at] != 101 && bytes[at] != 69 {
        return false;
    }
    let mut from: usize = at + 1;
    let ghost signed = tail.skip(1);
    proof {
        assert(signed =~= chars.skip(at + 1));
        if from < n {
            assert(signed[0] == bytes@[from as int] as char);
        }
    }
    if from < n && (bytes[from] == 43 || bytes[from] == 45) {
        from = from + 1;
    }
    let ghost last = unsigned_part(signed);
    proof {
        assert(last =~= chars.skip(from as int));
        lemma_all_digits(last);
    }
    if from == n {
        return false;
    }
    let run = count_digits(bytes, from);
    from + run == n
}

/// Whether the bytes from `start` on are a decimal number.
fn reads_number(bytes: &[u8], start: usize) -> (r: bool)
    requires
        start <= bytes.len(),
        forall|k: int| 0 <= k < bytes@.len() ==> bytes@[k] < 128,
    ensures
        r == is_number(ascii_chars_of(bytes@).skip(start as int)),
{
    let ghost chars = ascii_chars_of(bytes@);
    let ghost body = chars.skip(start as int);
    let n = bytes.len();
    let whole = count_digits(bytes, start);
    let ghost rest = body.skip(whole as int);
    proof {
        assert(rest =~= chars.skip(start + whole));
    }
    let at: usize = start + whole;
    if at < n && bytes[at] == 46 {
        let fraction = count_digits(bytes, at + 1);
        proof {
            assert(rest[0] == bytes@[at as int] as char);
            assert(rest.skip(1) =~= chars.skip(at + 1));
            assert(rest.skip(1 + fraction as int) =~= chars.skip(at + 1 + fraction));
        }
        whole + fraction > 0 && reads_exponent(bytes, at + 1 + fraction)
    } else {
        proof {
            if at < n {
                assert(rest[0] == bytes@[at as int] as char);
            }
        }
        whole > 0 && reads_exponent(bytes, at)
    }
}

/// Whether `text` reads as a floating-point number.
pub fn is_float_text(text: &str) -> (r: bool)
    ensures
        r == float_text(text@),
{
    let bytes = match ascii_bytes(text) {
        Some(bytes) => bytes,
        None => {
            proof {
                if float_text(text@) {
                    lemma_float_is_ascii(text@);
                }
            }
            return false;
        },
    };
    let n = bytes.len();
    let start: usize = if n > 0 && (bytes[0] == 43 || bytes[0] == 45) {
        1
    } else {
        0
    };
    assert(unsigned_part(text@) =~= text@.skip(start as int));
    reads_word(bytes, start) || reads_number(bytes, start)
}

} // verus!
