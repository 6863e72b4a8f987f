//! Small verified helpers on text: comparison, building strings, decimal numbers and Unicode
//! white space.

use vstd::prelude::*;
use vstd::string::{StrSliceExecFns, StringExecFns, StringSliceAdditionalSpecFns};
use vstd::utf8::*;

verus! {

/// The standard library's `String::push`: appends one character.
#[verifier::external_body]
pub(crate) fn string_push(s: &mut String, c: char)
    ensures
        final(s)@ == old(s)@.push(c),
{
    s.push(c);
}

/// An empty string.
pub fn new_string() -> (r: String)
    ensures
        r@ == Seq::<char>::empty(),
{
    String::new()
}

/// A string with the characters of `s`.
pub fn to_string(s: &str) -> (r: String)
    ensures
        r@ == s@,
{
    <String as StringExecFns>::from_str(s)
}

/// Appends the characters of `t` to `s`.
pub fn push_str(s: &mut String, t: &str)
    ensures
        final(s)@ == old(s)@ + t@,
{
    s.append(t);
}

/// Whether two strings hold the same characters.
pub fn str_eq(a: &str, b: &str) -> (r: bool)
    ensures
        r == (a@ == b@),
{
    let x = a.as_bytes();
    let y = b.as_bytes();
    proof {
        encode_utf8_decode_utf8(a@);
        encode_utf8_decode_utf8(b@);
    }
    if x.len() != y.len() {
        return false;
    }
    let mut i: usize = 0;
    while i < x.len()
        invariant
            x@ == encode_utf8(a@),
            y@ == encode_utf8(b@),
            x@.len() == y@.len(),
            i <= x@.len(),
            forall|j: int| 0 <= j < i ==> x@[j] == y@[j],
        decreases x@.len() - i,
    {
        if x[i] != y[i] {
            return false;
        }
        i = i + 1;
    }
    assert(x@ =~= y@);
    true
}

/// The characters of `s` from index `from` up to `to`.
pub fn substring(s: &str, from: usize, to: usize) -> (r: String)
    requires
        from <= to <= s@.len(),
    ensures
        r@ == s@.subrange(from as int, to as int),
{
    to_string(s.substring_char(from, to))
}

// ---------------------------------------------------------------------------------------------
// Decimal numbers
// ---------------------------------------------------------------------------------------------

/// The character of a decimal digit.
pub open spec fn digit_char(d: int) -> char {
    ((48 + d) as u8) as char
}

/// The decimal digits of `n`, without leading zeros.
pub open spec fn decimal(n: nat) -> Seq<char>
    decreases n,
{
    if n < 10 {
        seq![digit_char(n as int)]
    } else {
        decimal(n / 10).push(digit_char((n % 10) as int))
    }
}

/// The decimal digits of `n`, with leading zeros up to `width` characters.
pub open spec fn padded_decimal(n: nat, width: nat) -> Seq<char> {
    let pad: nat = if width > decimal(n).len() {
        (width - decimal(n).len()) as nat
    } else {
        0
    };
    Seq::new(pad, |i: int| '0') + decimal(n)
}

proof fn lemma_decimal_len(n: nat)
    ensures
        decimal(n).len() >= 1,
        n < 10 ==> decimal(n).len() == 1,
        n >= 10 ==> decimal(n).len() == decimal(n / 10).len() + 1,
    decreases n,
{
    if n >= 10 {
        lemma_decimal_len(n / 10);
    }
}

fn digit(d: u64) -> (c: char)
    requires
        d < 10,
    ensures
        c == digit_char(d as int),
{
    ((48u8 + d as u8) as char)
}

/// Appends the decimal digits of `n`.
pub fn push_decimal(s: &mut String, n: u64)
    ensures
        final(s)@ == old(s)@ + decimal(n as nat),
    decreases n,
{
    if n >= 10 {
        push_decimal(s, n / 10);
    }
    string_push(s, digit(n % 10));
    proof {
        if n >= 10 {
            assert(final(s)@ =~= old(s)@ + decimal(n as nat));
        }
    }
}

/// The number of decimal digits of `n`.
pub fn decimal_len(n: u64) -> (r: usize)
    ensures
        r == decimal(n as nat).len(),
    decreases n,
{
    proof {
        lemma_decimal_len(n as nat);
    }
    if n < 10 {
        1
    } else {
        let k = decimal_len(n / 10);
        proof {
            lemma_decimal_len((n / 10) as nat);
            assert(k <= 20) by {
                lemma_decimal_small((n / 10) as nat);
            }
        }
        k + 1
    }
}

proof fn lemma_decimal_small(n: nat)
    requires
        n < 0x1_0000_0000_0000_0000,
    ensures
        decimal(n).len() <= 20,
{
    lemma_decimal_log(n);
    reveal_with_fuel(pow10, 21);
    assert(pow10(20) == 100_000_000_000_000_000_000nat);
    lemma_log10_bound(n, 19);
}

proof fn lemma_decimal_log(n: nat)
    ensures
        decimal(n).len() == 1 + log10_floor(n),
    decreases n,
{
    lemma_decimal_len(n);
    if n >= 10 {
        lemma_decimal_log(n / 10);
    }
}

proof fn lemma_log10_bound(n: nat, k: nat)
    requires
        n < pow10(k + 1),
    ensures
        log10_floor(n) <= k,
    decreases k,
{
    if n >= 10 {
        if k == 0 {
            assert(pow10(1) == 10) by {
                reveal_with_fuel(pow10, 2);
            }
        } else {
            assert(pow10(k + 1) == pow10(k) * 10);
            assert(n / 10 < pow10(k));
            lemma_log10_bound(n / 10, (k - 1) as nat);
        }
    }
}

/// The number of times `n` can be divided by ten before it is below ten.
pub open spec fn log10_floor(n: nat) -> nat
    decreases n,
{
    if n < 10 {
        0
    } else {
        1 + log10_floor(n / 10)
    }
}

/// Appends the decimal digits of `n`, with leading zeros up to `width` characters.
pub fn push_padded(s: &mut String, n: u64, width: usize)
    ensures
        final(s)@ == old(s)@ + padded_decimal(n as nat, width as nat),
{
    let len = decimal_len(n);
    let mut k = len;
    let ghost start = s@;
    while k < width
        invariant
            len == decimal(n as nat).len(),
            len <= k,
            k <= width || k == len,
            s@ == start + Seq::new((k - len) as nat, |i: int| '0'),
        decreases width - k,
    {
        string_push(s, '0');
        k = k + 1;
        proof {
            assert(s@ =~= start + Seq::new((k - len) as nat, |i: int| '0'));
        }
    }
    let ghost zeros = s@;
    push_decimal(s, n);
    proof {
        let pad: nat = if width > len {
            (width - len) as nat
        } else {
            0
        };
        assert(Seq::new((k - len) as nat, |i: int| '0') =~= Seq::new(pad, |i: int| '0'));
        assert(s@ =~= start + padded_decimal(n as nat, width as nat));
    }
}

// ---------------------------------------------------------------------------------------------
// Reading decimal digits
// ---------------------------------------------------------------------------------------------

/// Whether `c` is one of the ASCII digits.
pub open spec fn is_digit(c: char) -> bool {
    '0' <= c && c <= '9'
}

/// The value of a sequence of ASCII digits.
pub open spec fn digits_value(s: Seq<char>) -> nat
    decreases s.len(),
{
    if s.len() == 0 {
        0
    } else {
        digits_value(s.drop_last()) * 10 + ((s.last() as u32) - 48) as nat
    }
}

/// Whether all of `s` are ASCII digits.
pub open spec fn all_digits(s: Seq<char>) -> bool {
    forall|i: int| 0 <= i < s.len() ==> is_digit(#[trigger] s[i])
}

proof fn lemma_digits_value_bound(s: Seq<char>)
    requires
        all_digits(s),
    ensures
        digits_value(s) < pow10(s.len()),
    decreases s.len(),
{
    if s.len() > 0 {
        assert(all_digits(s.drop_last())) by {
            assert forall|i: int| 0 <= i < s.drop_last().len() implies is_digit(
                #[trigger] s.drop_last()[i],
            ) by {
                assert(s.drop_last()[i] == s[i]);
            }
        }
        lemma_digits_value_bound(s.drop_last());
        assert(is_digit(s[s.len() - 1]));
        let d = ((s.last() as u32) - 48) as nat;
        assert(d < 10);
        assert(digits_value(s.drop_last()) * 10 + d < pow10(s.len())) by (nonlinear_arith)
            requires
                digits_value(s.drop_last()) < pow10((s.len() - 1) as nat),
                d < 10,
                pow10(s.len()) == pow10((s.len() - 1) as nat) * 10,
        ;
    }
}

/// Ten to the power of `n`.
pub open spec fn pow10(n: nat) -> nat
    decreases n,
{
    if n == 0 {
        1
    } else {
        pow10((n - 1) as nat) * 10
    }
}

/// Reads the number written by the characters of `s` from `from` up to `to`, which must all be
/// ASCII digits; at most nine of them.
pub fn read_digits(s: &str, from: usize, to: usize) -> (r: Option<u32>)
    requires
        from <= to <= s@.len(),
        to - from <= 9,
    ensures
        r is Some <==> all_digits(s@.subrange(from as int, to as int)),
        r matches Some(v) ==> v == digits_value(s@.subrange(from as int, to as int)) && v < pow10(
            (to - from) as nat,
        ),
{
    let mut v: u32 = 0;
    let mut i = from;
    assert(pow10(0) == 1);
    while i < to
        invariant
            from <= i <= to <= s@.len(),
            to - from <= 9,
            all_digits(s@.subrange(from as int, i as int)),
            v == digits_value(s@.subrange(from as int, i as int)),
            v < pow10((i - from) as nat),
            pow10((i - from) as nat) <= 1_000_000_000,
        decreases to - i,
    {
        let c = s.get_char(i);
        if !('0' <= c && c <= '9') {
            proof {
                assert(s@.subrange(from as int, to as int)[i - from] == c);
            }
            return None;
        }
        proof {
            let t = s@.subrange(from as int, i as int + 1);
            assert(t.drop_last() =~= s@.subrange(from as int, i as int));
            assert(t.last() == c);
            assert(all_digits(t)) by {
                assert forall|j: int| 0 <= j < t.len() implies is_digit(#[trigger] t[j]) by {
                    if j < t.len() - 1 {
                        assert(t[j] == s@.subrange(from as int, i as int)[j]);
                    }
                }
            }
            lemma_pow10_le((i + 1 - from) as nat, 9);
            assert(pow10((i + 1 - from) as nat) == pow10((i - from) as nat) * 10);
        }
        v = v * 10 + (c as u32 - 48);
        i = i + 1;
    }
    Some(v)
}

/// The powers of ten up to the fourth.
pub proof fn lemma_pow10_small()
    ensures
        pow10(1) == 10,
        pow10(2) == 100,
        pow10(4) == 10000,
{
    reveal_with_fuel(pow10, 5);
}

proof fn lemma_pow10_le(a: nat, b: nat)
    requires
        a <= b,
        b <= 9,
    ensures
        pow10(a) <= pow10(b),
        pow10(9) == 1_000_000_000,
    decreases b - a,
{
    reveal_with_fuel(pow10, 10);
    if a < b {
        lemma_pow10_le(a + 1, b);
    }
}

// ---------------------------------------------------------------------------------------------
// Unicode white space
// ---------------------------------------------------------------------------------------------

/// The characters with Unicode's `White_Space` property, as `char::is_whitespace` describes them.
pub open spec fn is_whitespace(c: char) -> bool {
    let v = c as u32;
    ||| 0x09 <= v <= 0x0d
    ||| v == 0x20
    ||| v == 0x85
    ||| v == 0xa0
    ||| v == 0x1680
    ||| 0x2000 <= v <= 0x200a
    ||| v == 0x2028
    ||| v == 0x2029
    ||| v == 0x202f
    ||| v == 0x205f
    ||| v == 0x3000
}

/// Whether `c` is white space.
pub fn char_is_whitespace(c: char) -> (r: bool)
    ensures
        r == is_whitespace(c),
{
    let v = c as u32;
    (0x09 <= v && v <= 0x0d) || v == 0x20 || v == 0x85 || v == 0xa0 || v == 0x1680 || (0x2000
        <= v && v <= 0x200a) || v == 0x2028 || v == 0x2029 || v == 0x202f || v == 0x205f || v
        == 0x3000
}

/// The index of the first character at or after `i` that is not white space, or the length.
pub open spec fn skip_ws(s: Seq<char>, i: int) -> int
    decreases s.len() - i,
{
    if i < 0 || i >= s.len() {
        s.len() as int
    } else if is_whitespace(s[i]) {
        skip_ws(s, i + 1)
    } else {
        i
    }
}

/// One past the last character before `j` that is not white space, or 0.
pub open spec fn trim_end_at(s: Seq<char>, j: int) -> int
    decreases j,
{
    if j <= 0 || j > s.len() {
        0
    } else if is_whitespace(s[j - 1]) {
        trim_end_at(s, j - 1)
    } else {
        j
    }
}

/// `s` without white space at its start and end, as `str::trim` gives it.
pub open spec fn trimmed(s: Seq<char>) -> Seq<char> {
    let a = skip_ws(s, 0);
    let b = trim_end_at(s, s.len() as int);
    if a >= b {
        seq![]
    } else {
        s.subrange(a, b)
    }
}

/// The index of the first white space at or after `i`, or the length.
pub open spec fn word_end(s: Seq<char>, i: int) -> int
    decreases s.len() - i,
{
    if i < 0 || i >= s.len() {
        s.len() as int
    } else if is_whitespace(s[i]) {
        i
    } else {
        word_end(s, i + 1)
    }
}

pub proof fn lemma_skip_ws(s: Seq<char>, i: int)
    requires
        0 <= i <= s.len(),
    ensures
        i <= skip_ws(s, i) <= s.len(),
        skip_ws(s, i) < s.len() ==> !is_whitespace(s[skip_ws(s, i)]),
        forall|k: int| i <= k < skip_ws(s, i) ==> is_whitespace(#[trigger] s[k]),
    decreases s.len() - i,
{
    if i < s.len() && is_whitespace(s[i]) {
        lemma_skip_ws(s, i + 1);
    }
}

pub proof fn lemma_word_end(s: Seq<char>, i: int)
    requires
        0 <= i <= s.len(),
    ensures
        i <= word_end(s, i) <= s.len(),
        word_end(s, i) < s.len() ==> is_whitespace(s[word_end(s, i)]),
        forall|k: int| i <= k < word_end(s, i) ==> !is_whitespace(#[trigger] s[k]),
    decreases s.len() - i,
{
    if i < s.len() && !is_whitespace(s[i]) {
        lemma_word_end(s, i + 1);
    }
}

pub proof fn lemma_trim_end_at(s: Seq<char>, j: int)
    requires
        0 <= j <= s.len(),
    ensures
        0 <= trim_end_at(s, j) <= j,
        trim_end_at(s, j) > 0 ==> !is_whitespace(s[trim_end_at(s, j) - 1]),
        forall|k: int| trim_end_at(s, j) <= k < j ==> is_whitespace(#[trigger] s[k]),
    decreases j,
{
    if j > 0 && is_whitespace(s[j - 1]) {
        lemma_trim_end_at(s, j - 1);
    }
}

/// The words of `s` from index `i` on: the maximal runs of characters that are not white space,
/// as `str::split_whitespace` gives them.
pub open spec fn words_from(s: Seq<char>, i: int) -> Seq<Seq<char>>
    decreases s.len() - i,
{
    if i < 0 || i >= s.len() {
        seq![]
    } else {
        let a = skip_ws(s, i);
        proof {
            lemma_skip_ws(s, i);
        }
        if a >= s.len() {
            seq![]
        } else {
            let b = word_end(s, a);
            proof {
                lemma_word_end(s, a);
            }
            seq![s.subrange(a, b)] + words_from(s, b)
        }
    }
}

/// The words of `s`.
pub open spec fn words(s: Seq<char>) -> Seq<Seq<char>> {
    words_from(s, 0)
}

/// `s` without white space at its start and end.
pub fn trim(s: &str) -> (r: String)
    ensures
        r@ == trimmed(s@),
{
    let n = s.unicode_len();
    let mut a: usize = 0;
    proof {
        lemma_skip_ws(s@, 0);
    }
    while a < n && char_is_whitespace(s.get_char(a))
        invariant
            n == s@.len(),
            a <= n,
            skip_ws(s@, 0) == skip_ws(s@, a as int),
        decreases n - a,
    {
        a = a + 1;
    }
    let mut b: usize = n;
    while b > 0 && char_is_whitespace(s.get_char(b - 1))
        invariant
            n == s@.len(),
            b <= n,
            trim_end_at(s@, n as int) == trim_end_at(s@, b as int),
        decreases b,
    {
        b = b - 1;
    }
    if a >= b {
        new_string()
    } else {
        substring(s, a, b)
    }
}

/// The words of `s`, split at white space.
pub fn split_whitespace(s: &str) -> (r: Vec<String>)
    ensures
        r@.len() == words(s@).len(),
        forall|k: int| 0 <= k < r@.len() ==> (#[trigger] r@[k])@ == words(s@)[k],
{
    let n = s.unicode_len();
    let mut out: Vec<String> = Vec::new();
    let mut i: usize = 0;
    while i < n
        invariant
            n == s@.len(),
            i <= n,
            out@.len() + words_from(s@, i as int).len() == words(s@).len(),
            forall|k: int| 0 <= k < out@.len() ==> (#[trigger] out@[k])@ == words(s@)[k],
            forall|k: int|
                0 <= k < words_from(s@, i as int).len() ==> words(s@)[out@.len() + k]
                    == #[trigger] words_from(s@, i as int)[k],
        decreases n - i,
    {
        let ghost w = words_from(s@, i as int);
        let mut a = i;
        proof {
            lemma_skip_ws(s@, i as int);
        }
        while a < n && char_is_whitespace(s.get_char(a))
            invariant
                n == s@.len(),
                i <= a <= n,
                skip_ws(s@, i as int) == skip_ws(s@, a as int),
            decreases n - a,
        {
            a = a + 1;
        }
        if a >= n {
            proof {
                assert(w.len() == 0);
            }
            i = n;
        } else {
            let mut b = a;
            proof {
                lemma_word_end(s@, a as int);
            }
            while b < n && !char_is_whitespace(s.get_char(b))
                invariant
                    n == s@.len(),
                    a <= b <= n,
                    word_end(s@, a as int) == word_end(s@, b as int),
                decreases n - b,
            {
                b = b + 1;
            }
            let word = substring(s, a, b);
            proof {
                assert(w == seq![s@.subrange(a as int, b as int)] + words_from(s@, b as int));
                assert(w[0] == word@);
                assert forall|k: int| 0 <= k < words_from(s@, b as int).len() implies words(
                    s@,
                )[out@.len() + 1 + k] == #[trigger] words_from(s@, b as int)[k] by {
                    assert(w[k + 1] == words_from(s@, b as int)[k]);
                }
            }
            out.push(word);
            i = b;
        }
    }
    proof {
        assert(words_from(s@, n as int).len() == 0);
    }
    out
}

/// The strings of `parts` joined by single spaces, as `[String]::join(" ")` gives it.
pub open spec fn join_spaces(parts: Seq<Seq<char>>) -> Seq<char>
    decreases parts.len(),
{
    if parts.len() == 0 {
        seq![]
    } else if parts.len() == 1 {
        parts[0]
    } else {
        join_spaces(parts.drop_last()) + seq![' '] + parts.last()
    }
}

/// Joins the strings with single spaces.
pub fn join_with_spaces(parts: &Vec<String>) -> (r: String)
    ensures
        r@ == join_spaces(parts@.map_values(|p: String| p@)),
{
    let ghost views = parts@.map_values(|p: String| p@);
    let mut out = new_string();
    let mut i: usize = 0;
    while i < parts.len()
        invariant
            i <= parts@.len(),
            views == parts@.map_values(|p: String| p@),
            out@ == join_spaces(views.subrange(0, i as int)),
        decreases parts@.len() - i,
    {
        if i > 0 {
            string_push(&mut out, ' ');
        }
        push_str(&mut out, parts[i].as_str());
        proof {
            let t = views.subrange(0, i as int + 1);
            assert(t.drop_last() =~= views.subrange(0, i as int));
            assert(t.last() == parts@[i as int]@);
            if i == 0 {
                assert(t.len() == 1);
            }
        }
        i = i + 1;
    }
    proof {
        assert(views.subrange(0, parts@.len() as int) =~= views);
    }
    out
}

// ---------------------------------------------------------------------------------------------
// Joining words and splitting them again
// ---------------------------------------------------------------------------------------------

/// A word: not empty and without white space.
pub open spec fn is_word(w: Seq<char>) -> bool {
    w.len() > 0 && forall|j: int| 0 <= j < w.len() ==> !is_whitespace(#[trigger] w[j])
}

/// Joining starts with the first part.
pub proof fn lemma_join_front(ws: Seq<Seq<char>>)
    requires
        ws.len() >= 2,
    ensures
        join_spaces(ws) == ws[0] + seq![' '] + join_spaces(ws.drop_first()),
    decreases ws.len(),
{
    if ws.len() == 2 {
        assert(ws.drop_last().len() == 1);
        assert(ws.drop_first().len() == 1);
        assert(ws.drop_first()[0] == ws.last());
        assert(join_spaces(ws.drop_last()) == ws[0]);
    } else {
        let d = ws.drop_last();
        lemma_join_front(d);
        assert(d.drop_first() =~= ws.drop_first().drop_last());
        assert(ws.drop_first().last() == ws.last());
        assert(join_spaces(ws) =~= ws[0] + seq![' '] + join_spaces(ws.drop_first()));
    }
}

/// A word ends at the first white space after it, or at the end.
proof fn lemma_word_end_run(s: Seq<char>, i: int, k: int)
    requires
        0 <= i <= k <= s.len(),
        forall|j: int| i <= j < k ==> !is_whitespace(#[trigger] s[j]),
        k == s.len() || is_whitespace(s[k]),
    ensures
        word_end(s, i) == k,
    decreases k - i,
{
    if i < k {
        lemma_word_end_run(s, i + 1, k);
    }
}

/// Skipping white space and finding the end of a word do not depend on what comes before.
proof fn lemma_scan_shift(p: Seq<char>, s: Seq<char>, i: int)
    requires
        0 <= i <= s.len(),
    ensures
        skip_ws(p + s, p.len() + i) == p.len() + skip_ws(s, i),
        word_end(p + s, p.len() + i) == p.len() + word_end(s, i),
    decreases s.len() - i,
{
    if i < s.len() {
        assert((p + s)[p.len() + i] == s[i]);
        lemma_scan_shift(p, s, i + 1);
    }
}

/// The words of a text from a position do not depend on what comes before it.
proof fn lemma_words_shift(p: Seq<char>, s: Seq<char>, i: int)
    requires
        0 <= i <= s.len(),
    ensures
        words_from(p + s, p.len() + i) == words_from(s, i),
    decreases s.len() - i,
{
    if i < s.len() {
        lemma_scan_shift(p, s, i);
        lemma_skip_ws(s, i);
        let a = skip_ws(s, i);
        if a < s.len() {
            lemma_scan_shift(p, s, a);
            lemma_word_end(s, a);
            let b = word_end(s, a);
            lemma_words_shift(p, s, b);
            assert((p + s).subrange(p.len() + a, p.len() + b) =~= s.subrange(a, b));
        }
    }
}

/// White space before a position does not start a word.
proof fn lemma_words_skip_one(s: Seq<char>, i: int)
    requires
        0 <= i < s.len(),
        is_whitespace(s[i]),
    ensures
        words_from(s, i) == words_from(s, i + 1),
{
    lemma_skip_ws(s, i + 1);
}

/// Splitting words joined by single spaces gives them back.
pub proof fn lemma_words_of_join(ws: Seq<Seq<char>>)
    requires
        ws.len() > 0,
        forall|k: int| 0 <= k < ws.len() ==> is_word(#[trigger] ws[k]),
    ensures
        words(join_spaces(ws)) == ws,
    decreases ws.len(),
{
    let w = ws[0];
    assert(is_word(w));
    if ws.len() == 1 {
        lemma_word_end_run(w, 0, w.len() as int);
        assert(w.subrange(0, w.len() as int) =~= w);
        assert(words_from(w, w.len() as int) == Seq::<Seq<char>>::empty());
        assert(words(join_spaces(ws)) =~= ws);
    } else {
        lemma_join_front(ws);
        let rest = ws.drop_first();
        assert forall|k: int| 0 <= k < rest.len() implies is_word(#[trigger] rest[k]) by {
            assert(rest[k] == ws[k + 1]);
        }
        lemma_words_of_join(rest);
        let r = join_spaces(rest);
        let p = w + seq![' '];
        let s = p + r;
        assert(join_spaces(ws) == s);
        assert(s[w.len() as int] == ' ');
        assert forall|j: int| 0 <= j < w.len() implies !is_whitespace(#[trigger] s[j]) by {
            assert(s[j] == w[j]);
        }
        lemma_word_end_run(s, 0, w.len() as int);
        assert(s.subrange(0, w.len() as int) =~= w);
        lemma_words_skip_one(s, w.len() as int);
        lemma_words_shift(p, r, 0);
        assert(words(s) == seq![w] + words_from(s, w.len() as int));
        assert(words(s) =~= ws);
    }
}

/// Joined words neither start nor end with white space, so trimming keeps them.
pub proof fn lemma_trim_join(ws: Seq<Seq<char>>)
    requires
        ws.len() > 0,
        forall|k: int| 0 <= k < ws.len() ==> is_word(#[trigger] ws[k]),
    ensures
        trimmed(join_spaces(ws)) == join_spaces(ws),
        join_spaces(ws).len() > 0,
{
    let s = join_spaces(ws);
    assert(is_word(ws[0]));
    assert(is_word(ws.last()));
    if ws.len() >= 2 {
        lemma_join_front(ws);
        assert(s[0] == ws[0][0]);
        assert(s[s.len() - 1] == ws.last()[ws.last().len() - 1]);
    } else {
        assert(s == ws[0]);
    }
    assert(!is_whitespace(s[0]));
    assert(!is_whitespace(s[s.len() - 1]));
    assert(skip_ws(s, 0) == 0);
    assert(trim_end_at(s, s.len() as int) == s.len());
    assert(s.subrange(0, s.len() as int) =~= s);
}

} // verus!
