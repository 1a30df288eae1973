use vstd::prelude::*;

verus! {

/// Characters the command tokenizer treats as whitespace: the ASCII
/// whitespace characters that can occur in a request line.
pub open spec fn is_ws(c: char) -> bool {
    c == ' ' || c == '\t' || c == '\n' || c == '\r'
}

pub(crate) fn is_ws_exec(c: char) -> (r: bool)
    ensures
        r == is_ws(c),
{
    c == ' ' || c == '\t' || c == '\n' || c == '\r'
}

pub open spec fn is_digit(c: char) -> bool {
    48 <= c as u32 && c as u32 <= 57
}

pub(crate) fn is_digit_exec(c: char) -> (r: bool)
    ensures
        r == is_digit(c),
{
    '0' <= c && c <= '9'
}

/// Numeric value of a decimal digit character.
pub open spec fn digit_val(c: char) -> nat {
    (c as u32 - 48) as nat
}

/// The decimal digit character for a value below ten.
pub open spec fn digit_char(d: nat) -> char {
    if d == 0 {
        '0'
    } else if d == 1 {
        '1'
    } else if d == 2 {
        '2'
    } else if d == 3 {
        '3'
    } else if d == 4 {
        '4'
    } else if d == 5 {
        '5'
    } else if d == 6 {
        '6'
    } else if d == 7 {
        '7'
    } else if d == 8 {
        '8'
    } else {
        '9'
    }
}

pub proof fn lemma_digit_char(d: nat)
    requires
        d < 10,
    ensures
        is_digit(digit_char(d)),
        digit_val(digit_char(d)) == d,
{
}

pub(crate) fn digit_char_exec(d: u64) -> (c: char)
    requires
        d < 10,
    ensures
        c == digit_char(d as nat),
{
    if d == 0 {
        '0'
    } else if d == 1 {
        '1'
    } else if d == 2 {
        '2'
    } else if d == 3 {
        '3'
    } else if d == 4 {
        '4'
    } else if d == 5 {
        '5'
    } else if d == 6 {
        '6'
    } else if d == 7 {
        '7'
    } else if d == 8 {
        '8'
    } else {
        '9'
    }
}

/// Decimal text of a natural number, most significant digit first.
pub open spec fn nat_text(n: nat) -> Seq<char>
    decreases n,
{
    if n < 10 {
        seq![digit_char(n)]
    } else {
        nat_text(n / 10).push(digit_char(n % 10))
    }
}

pub proof fn lemma_nat_text_digits(n: nat)
    ensures
        nat_text(n).len() >= 1,
        forall|i: int| 0 <= i < nat_text(n).len() ==> is_digit(#[trigger] nat_text(n)[i]),
    decreases n,
{
    lemma_digit_char(n % 10);
    if n < 10 {
        lemma_digit_char(n);
    } else {
        lemma_nat_text_digits(n / 10);
    }
}

/// Decimal text of a signed integer: a minus sign, where negative, then the
/// digits of the magnitude.
pub open spec fn int_text(i: int) -> Seq<char> {
    if i < 0 {
        seq!['-'] + nat_text((-i) as nat)
    } else {
        nat_text(i as nat)
    }
}

/// Appends the decimal text of `n` to `out`.
pub(crate) fn push_nat_text(out: &mut Vec<char>, n: u64)
    ensures
        final(out)@ == old(out)@ + nat_text(n as nat),
    decreases n,
{
    if n < 10 {
        out.push(digit_char_exec(n));
        assert(out@ =~= old(out)@ + nat_text(n as nat));
    } else {
        push_nat_text(out, n / 10);
        out.push(digit_char_exec(n % 10));
        assert(out@ =~= old(out)@ + nat_text(n as nat));
    }
}

/// Appends the decimal text of `i` to `out`.
pub(crate) fn push_int_text(out: &mut Vec<char>, i: i32)
    ensures
        final(out)@ == old(out)@ + int_text(i as int),
{
    if i < 0 {
        out.push('-');
        let mag: u64 = (-(i as i64)) as u64;
        push_nat_text(out, mag);
        assert(out@ =~= old(out)@ + int_text(i as int));
    } else {
        push_nat_text(out, i as u64);
    }
}

/// Value of the run of decimal digits `t[a..b]`, most significant first.
pub open spec fn digits_value(t: Seq<char>, a: int, b: int) -> nat
    decreases b - a,
{
    if a >= b {
        0
    } else {
        digits_value(t, a, b - 1) * 10 + digit_val(t[b - 1])
    }
}

pub open spec fn all_digits(t: Seq<char>, a: int, b: int) -> bool {
    forall|i: int| a <= i < b ==> is_digit(#[trigger] t[i])
}

/// Growing a digit run never shrinks its value.
pub proof fn lemma_digits_value_mono(t: Seq<char>, a: int, b: int, c: int)
    requires
        a <= b <= c,
    ensures
        digits_value(t, a, b) <= digits_value(t, a, c),
    decreases c - b,
{
    if b < c {
        lemma_digits_value_mono(t, a, b, c - 1);
        assert(digits_value(t, a, c - 1) * 10 >= digits_value(t, a, c - 1));
    }
}

/// Reads the digit run starting at `i` in `t` as a `u64`.
/// Returns `None` when no digit stands at `i` or the run's value does not
/// fit; otherwise the value and the position just past the run.
pub open spec fn take_number(t: Seq<char>, i: int) -> Option<(u64, int)> {
    let j = digits_end(t, i);
    if j == i || digits_value(t, i, j) > u64::MAX {
        None
    } else {
        Some((digits_value(t, i, j) as u64, j))
    }
}

/// The position just past the run of digits that starts at `i`.
pub open spec fn digits_end(t: Seq<char>, i: int) -> int
    decreases t.len() - i,
{
    if 0 <= i < t.len() && is_digit(t[i]) {
        digits_end(t, i + 1)
    } else {
        i
    }
}

pub proof fn lemma_digits_end(t: Seq<char>, i: int)
    requires
        0 <= i <= t.len(),
    ensures
        i <= digits_end(t, i) <= t.len(),
        all_digits(t, i, digits_end(t, i)),
        digits_end(t, i) < t.len() ==> !is_digit(t[digits_end(t, i)]),
    decreases t.len() - i,
{
    if i < t.len() && is_digit(t[i]) {
        lemma_digits_end(t, i + 1);
    }
}

/// Within one digit run, the end seen from a later start is the same end.
pub proof fn lemma_digits_end_step(t: Seq<char>, i: int, j: int)
    requires
        0 <= i <= j <= digits_end(t, i),
    ensures
        digits_end(t, j) == digits_end(t, i),
    decreases j - i,
{
    if i < j {
        lemma_digits_end(t, i);
        lemma_digits_end_step(t, i + 1, j);
    }
}

/// Executable form of `take_number` over a vector of characters.
pub(crate) fn take_number_exec(t: &Vec<char>, i: usize) -> (r: Option<(u64, usize)>)
    requires
        i <= t@.len(),
    ensures
        match r {
            Some((n, j)) => take_number(t@, i as int) == Some((n, j as int)) && i < j <= t@.len(),
            None => take_number(t@, i as int) is None,
        },
{
    proof {
        lemma_digits_end(t@, i as int);
    }
    let ghost end = digits_end(t@, i as int);
    let mut j: usize = i;
    let mut acc: u64 = 0;
    loop
        invariant
            i <= t@.len(),
            i <= j <= end <= t@.len(),
            acc as nat == digits_value(t@, i as int, j as int),
            all_digits(t@, i as int, end),
            end < t@.len() ==> !is_digit(t@[end]),
            digits_end(t@, j as int) == end,
            end == digits_end(t@, i as int),
        decreases end - j,
    {
        if j == t.len() || !is_digit_exec(t[j]) {
            assert(j == end);
            if j == i {
                return None;
            } else {
                return Some((acc, j));
            }
        }
        assert(is_digit(t@[j as int]));
        proof {
            lemma_digits_end_step(t@, j as int, j as int + 1);
        }
        let d_char = t[j];
        let d: u64 = (d_char as u32 as u64) - 48;
        assert(d == digit_val(t@[j as int]) && d <= 9);
        let limit: u64 = (u64::MAX - d) / 10;
        assert(10 * (limit as int) <= u64::MAX - d);
        assert(10 * (limit as int + 1) > u64::MAX - d);
        if acc > limit {
            proof {
                assert(10 * (acc as int) >= 10 * (limit as int + 1));
                assert(acc as nat * 10 + d > u64::MAX);
                assert(digits_value(t@, i as int, j as int + 1) == acc as nat * 10 + digit_val(
                    t@[j as int],
                ));
                lemma_digits_value_mono(t@, i as int, j as int + 1, end);
            }
            return None;
        }
        assert(10 * (acc as int) <= 10 * (limit as int));
        acc = acc * 10 + d;
        j = j + 1;
    }
}

/// Reads a whole token as a decimal `u64`, as `str::parse::<u64>` does:
/// an optional leading plus sign, then at least one digit, nothing else,
/// and a value that fits.
pub open spec fn u64_from_text(t: Seq<char>) -> Option<u64> {
    let start: int = if t.len() > 0 && t[0] == '+' {
        1
    } else {
        0
    };
    if start >= t.len() {
        None
    } else {
        match take_number(t, start) {
            Some((n, j)) => if j == t.len() {
                Some(n)
            } else {
                None
            },
            None => None,
        }
    }
}

pub(crate) fn parse_u64(t: &Vec<char>) -> (r: Option<u64>)
    ensures
        r == u64_from_text(t@),
{
    let start: usize = if t.len() > 0 && t[0] == '+' {
        1
    } else {
        0
    };
    if start >= t.len() {
        return None;
    }
    match take_number_exec(t, start) {
        Some((n, j)) => if j == t.len() {
            Some(n)
        } else {
            None
        },
        None => None,
    }
}

/// The characters of `s`, in order.
pub(crate) fn chars_of_str(s: &str) -> (r: Vec<char>)
    ensures
        r@ == s@,
{
    let n = s.unicode_len();
    let mut r: Vec<char> = Vec::new();
    let mut i: usize = 0;
    while i < n
        invariant
            n == s@.len(),
            i <= n,
            r@ == s@.take(i as int),
        decreases n - i,
    {
        r.push(s.get_char(i));
        i = i + 1;
        assert(r@ =~= s@.take(i as int));
    }
    assert(r@ =~= s@);
    r
}

/// Appends every character of `src` to `out`.
pub(crate) fn push_all(out: &mut Vec<char>, src: &Vec<char>)
    ensures
        final(out)@ == old(out)@ + src@,
{
    let mut i: usize = 0;
    while i < src.len()
        invariant
            i <= src@.len(),
            out@ == old(out)@ + src@.take(i as int),
        decreases src@.len() - i,
    {
        out.push(src[i]);
        i = i + 1;
        assert(out@ =~= old(out)@ + src@.take(i as int));
    }
    assert(out@ =~= old(out)@ + src@);
}

/// Whether two strings hold the same characters.
pub(crate) fn str_eq(a: &str, b: &str) -> (r: bool)
    ensures
        r == (a@ == b@),
{
    let na = a.unicode_len();
    let nb = b.unicode_len();
    if na != nb {
        return false;
    }
    let mut i: usize = 0;
    while i < na
        invariant
            na == a@.len(),
            na == b@.len(),
            i <= na,
            forall|j: int| 0 <= j < i ==> a@[j] == b@[j],
        decreases na - i,
    {
        if a.get_char(i) != b.get_char(i) {
            return false;
        }
        i = i + 1;
    }
    assert(a@ =~= b@);
    true
}

/// Relies on `String`'s `FromIterator` over `char`: collecting characters
/// yields the string made of exactly those characters, in order.
#[verifier::external_body]
pub(crate) fn chars_to_string(v: &Vec<char>) -> (r: String)
    ensures
        r@ == v@,
{
    v.iter().collect()
}

/// Relies on std's `str::from_utf8`: it returns `Ok` exactly when the bytes
/// are valid UTF-8, and the borrowed string then holds the characters those
/// bytes encode.
#[verifier::external_body]
pub(crate) fn bytes_to_str(b: &[u8]) -> (r: Option<&str>)
    ensures
        r is Some <==> vstd::utf8::valid_utf8(b@),
        r matches Some(s) ==> s@ == vstd::utf8::decode_utf8(b@),
{
    match core::str::from_utf8(b) {
        Ok(s) => Some(s),
        Err(_) => None,
    }
}

} // verus!
