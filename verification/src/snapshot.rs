use vstd::prelude::*;

use crate::db::{DbValue, SpecValue, pairs_view, view_of, lemma_pairs_view_index};
use crate::text::{nat_text, int_text, push_nat_text, push_int_text, push_all, chars_of_str, take_number, digits_end, digits_value};

verus! {

// A snapshot is a textual image of the store's entry list:
//
//   snapshot  =  count ';' entry*
//   entry     =  string value
//   string    =  length ':' characters
//   value     =  'T' exp string          a text value
//             |  'I' exp integer ';'     an integer value
//             |  'J' exp string          a structured document
//             |  'M' exp count ';' entry*   a nested table
//   exp       =  'N'                     never expires
//             |  'E' instant ';'         expires at the instant
//
// where count, length and instant are decimal numbers and integer is a
// decimal number with an optional leading minus sign.

/// The encoding of an expiration instant.
pub open spec fn enc_exp(e: Option<u64>) -> Seq<char> {
    match e {
        None => seq!['N'],
        Some(v) => seq!['E'] + nat_text(v as nat) + seq![';'],
    }
}

/// The encoding of a length-prefixed string.
pub open spec fn enc_str(t: Seq<char>) -> Seq<char> {
    nat_text(t.len()) + seq![':'] + t
}

/// The encoding of one value.
pub open spec fn enc_value(v: SpecValue) -> Seq<char>
    decreases v,
{
    match v {
        SpecValue::Text(s, e) => seq!['T'] + enc_exp(e) + enc_str(s),
        SpecValue::Int(i, e) => seq!['I'] + enc_exp(e) + int_text(i as int) + seq![';'],
        SpecValue::Json(s, e) => seq!['J'] + enc_exp(e) + enc_str(s),
        SpecValue::Table(ps, e) => seq!['M'] + enc_exp(e) + nat_text(ps.len()) + seq![';']
            + enc_pairs(ps),
    }
}

/// The encoding of a list of entries, first entry first.
pub open spec fn enc_pairs(ps: Seq<(Seq<char>, SpecValue)>) -> Seq<char>
    decreases ps,
{
    if ps.len() == 0 {
        Seq::empty()
    } else {
        enc_str(ps[0].0) + enc_value(ps[0].1) + enc_pairs(ps.skip(1))
    }
}

/// The encoding of a whole store.
pub open spec fn enc_snapshot(ps: Seq<(Seq<char>, SpecValue)>) -> Seq<char> {
    nat_text(ps.len()) + seq![';'] + enc_pairs(ps)
}

/// Whether every string and table in `v` is small enough for its length
/// to ride in a decodable number.
pub open spec fn bounded(v: SpecValue) -> bool
    decreases v,
{
    match v {
        SpecValue::Text(s, _) => s.len() <= u64::MAX,
        SpecValue::Int(_, _) => true,
        SpecValue::Json(s, _) => s.len() <= u64::MAX,
        SpecValue::Table(ps, _) => ps.len() <= u64::MAX && bounded_pairs(ps),
    }
}

pub open spec fn bounded_pairs(ps: Seq<(Seq<char>, SpecValue)>) -> bool
    decreases ps,
{
    if ps.len() == 0 {
        true
    } else {
        ps[0].0.len() <= u64::MAX && bounded(ps[0].1) && bounded_pairs(ps.skip(1))
    }
}

/// Reads an expiration from position `i`: the instant and the position
/// just past it.
pub open spec fn dec_exp(s: Seq<char>, i: int) -> Option<(Option<u64>, int)> {
    if 0 <= i < s.len() && s[i] == 'N' {
        Some((None, i + 1))
    } else if 0 <= i < s.len() && s[i] == 'E' {
        match take_number(s, i + 1) {
            Some((n, j)) => if j < s.len() && s[j] == ';' {
                Some((Some(n), j + 1))
            } else {
                None
            },
            None => None,
        }
    } else {
        None
    }
}

/// Reads a length-prefixed string from position `i`.
pub open spec fn dec_str(s: Seq<char>, i: int) -> Option<(Seq<char>, int)> {
    match take_number(s, i) {
        Some((n, j)) => if j < s.len() && s[j] == ':' && j + 1 + n <= s.len() {
            Some((s.subrange(j + 1, j + 1 + n), j + 1 + n))
        } else {
            None
        },
        None => None,
    }
}

/// Reads a signed integer ended by `;` from position `i`.
pub open spec fn dec_int(s: Seq<char>, i: int) -> Option<(i32, int)> {
    let neg = 0 <= i < s.len() && s[i] == '-';
    let start = if neg {
        i + 1
    } else {
        i
    };
    match take_number(s, start) {
        Some((n, j)) => if j < s.len() && s[j] == ';' {
            if neg && 0 < n <= 0x8000_0000u64 {
                Some(((-(n as int)) as i32, j + 1))
            } else if !neg && n <= 0x7fff_ffffu64 {
                Some((n as i32, j + 1))
            } else {
                None
            }
        } else {
            None
        },
        None => None,
    }
}

/// Reads one value from position `i`.
pub open spec fn dec_value(s: Seq<char>, i: int) -> Option<(SpecValue, int)>
    decreases s.len() - i, 1int,
{
    if !(0 <= i < s.len()) {
        None
    } else if s[i] == 'T' || s[i] == 'J' {
        match dec_exp(s, i + 1) {
            Some((e, j)) => match dec_str(s, j) {
                Some((t, j2)) => Some(
                    (
                        if s[i] == 'T' {
                            SpecValue::Text(t, e)
                        } else {
                            SpecValue::Json(t, e)
                        },
                        j2,
                    ),
                ),
                None => None,
            },
            None => None,
        }
    } else if s[i] == 'I' {
        match dec_exp(s, i + 1) {
            Some((e, j)) => match dec_int(s, j) {
                Some((v, j2)) => Some((SpecValue::Int(v, e), j2)),
                None => None,
            },
            None => None,
        }
    } else if s[i] == 'M' {
        match dec_exp(s, i + 1) {
            Some((e, j)) => match take_number(s, j) {
                Some((n, j2)) => if j2 < s.len() && s[j2] == ';' && j2 + 1 > i {
                    match dec_pairs(s, j2 + 1, n) {
                        Some((ps, j3)) => Some((SpecValue::Table(ps, e), j3)),
                        None => None,
                    }
                } else {
                    None
                },
                None => None,
            },
            None => None,
        }
    } else {
        None
    }
}

/// Reads `n` entries from position `i`.
pub open spec fn dec_pairs(s: Seq<char>, i: int, n: u64) -> Option<
    (Seq<(Seq<char>, SpecValue)>, int),
>
    decreases s.len() - i, 0int,
{
    if n == 0 {
        if 0 <= i <= s.len() {
            Some((Seq::empty(), i))
        } else {
            None
        }
    } else {
        match dec_str(s, i) {
            Some((k, j)) => if i < j <= s.len() {
                match dec_value(s, j) {
                    Some((v, j2)) => if i < j2 <= s.len() {
                        match dec_pairs(s, j2, (n - 1) as u64) {
                            Some((rest, j3)) => Some((seq![(k, v)] + rest, j3)),
                            None => None,
                        }
                    } else {
                        None
                    },
                    None => None,
                }
            } else {
                None
            },
            None => None,
        }
    }
}

/// Reads a whole snapshot; the entry list must fill the text exactly.
pub open spec fn dec_snapshot(s: Seq<char>) -> Option<Seq<(Seq<char>, SpecValue)>> {
    match take_number(s, 0) {
        Some((n, j)) => if j < s.len() && s[j] == ';' {
            match dec_pairs(s, j + 1, n) {
                Some((ps, j2)) => if j2 == s.len() && ps.len() == n {
                    Some(ps)
                } else {
                    None
                },
                None => None,
            }
        } else {
            None
        },
        None => None,
    }
}

/// Whether `pat` stands in `s` at position `i`.
pub open spec fn matches_at(s: Seq<char>, i: int, pat: Seq<char>) -> bool {
    0 <= i && i + pat.len() <= s.len() && s.subrange(i, i + pat.len()) == pat
}

pub proof fn lemma_matches_index(s: Seq<char>, i: int, pat: Seq<char>)
    requires
        matches_at(s, i, pat),
    ensures
        forall|k: int| 0 <= k < pat.len() ==> s[i + k] == #[trigger] pat[k],
{
    assert forall|k: int| 0 <= k < pat.len() implies s[i + k] == #[trigger] pat[k] by {
        assert(s.subrange(i, i + pat.len())[k] == s[i + k]);
    }
}

pub proof fn lemma_matches_first(s: Seq<char>, i: int, pat: Seq<char>)
    requires
        matches_at(s, i, pat),
        pat.len() > 0,
    ensures
        s[i] == pat[0],
{
    assert(s.subrange(i, i + pat.len())[0] == s[i]);
}

pub proof fn lemma_matches_split(s: Seq<char>, i: int, a: Seq<char>, b: Seq<char>)
    requires
        matches_at(s, i, a + b),
    ensures
        matches_at(s, i, a),
        matches_at(s, i + a.len(), b),
{
    lemma_matches_index(s, i, a + b);
    assert forall|k: int| 0 <= k < a.len() implies s.subrange(i, i + a.len())[k] == a[k] by {
        assert((a + b)[k] == a[k]);
    }
    assert(s.subrange(i, i + a.len()) =~= a);
    assert forall|k: int|
        0 <= k < b.len() implies s.subrange(i + a.len(), i + a.len() + b.len())[k] == b[k] by {
        assert((a + b)[a.len() + k] == b[k]);
        assert(s[i + a.len() + k] == (a + b)[a.len() + k]);
    }
    assert(s.subrange(i + a.len(), i + a.len() + b.len()) =~= b);
}

/// A maximal digit run ends exactly where the digits stop.
proof fn lemma_digits_end_of_run(s: Seq<char>, i: int, j: int)
    requires
        0 <= i <= j <= s.len(),
        crate::text::all_digits(s, i, j),
        j == s.len() || !crate::text::is_digit(s[j]),
    ensures
        digits_end(s, i) == j,
    decreases j - i,
{
    if i < j {
        assert(crate::text::is_digit(s[i]));
        lemma_digits_end_of_run(s, i + 1, j);
    }
}

/// The digit run holding `nat_text(n)` reads back as `n`.
proof fn lemma_digits_value_of_nat_text(s: Seq<char>, i: int, n: nat)
    requires
        matches_at(s, i, nat_text(n)),
    ensures
        digits_value(s, i, i + nat_text(n).len()) == n,
    decreases n,
{
    lemma_matches_index(s, i, nat_text(n));
    crate::text::lemma_digit_char(n % 10);
    if n < 10 {
        crate::text::lemma_digit_char(n);
        assert(s[i] == nat_text(n)[0]);
        assert(digits_value(s, i, i) == 0);
        assert(digits_value(s, i, i + 1) == crate::text::digit_val(s[i]));
    } else {
        let prefix = nat_text(n / 10);
        let whole = nat_text(n);
        assert(whole == prefix.push(crate::text::digit_char(n % 10)));
        assert forall|k: int| 0 <= k < prefix.len() implies s.subrange(i, i + prefix.len())[k]
            == prefix[k] by {
            assert(whole[k] == prefix[k]);
            assert(s[i + k] == whole[k]);
        }
        assert(s.subrange(i, i + prefix.len()) =~= prefix);
        lemma_digits_value_of_nat_text(s, i, n / 10);
        assert(s[i + whole.len() - 1] == whole[whole.len() - 1]);
        assert(whole[whole.len() - 1] == crate::text::digit_char(n % 10));
        assert(digits_value(s, i, i + whole.len()) == digits_value(s, i, i + whole.len() - 1) * 10
            + crate::text::digit_val(s[i + whole.len() - 1]));
    }
}

/// A number written with `nat_text` and ended by a non-digit reads back
/// exactly.
proof fn lemma_rt_nat(s: Seq<char>, i: int, n: u64)
    requires
        matches_at(s, i, nat_text(n as nat)),
        i + nat_text(n as nat).len() == s.len() || !crate::text::is_digit(
            s[i + nat_text(n as nat).len()],
        ),
    ensures
        take_number(s, i) == Some((n, i + nat_text(n as nat).len())),
{
    let whole = nat_text(n as nat);
    crate::text::lemma_nat_text_digits(n as nat);
    lemma_matches_index(s, i, whole);
    assert forall|k: int| i <= k < i + whole.len() implies crate::text::is_digit(
        #[trigger] s[k],
    ) by {
        assert(s[k] == whole[k - i]);
    }
    lemma_digits_end_of_run(s, i, i + whole.len());
    lemma_digits_value_of_nat_text(s, i, n as nat);
}

/// An expiration encoding reads back exactly.
proof fn lemma_rt_exp(s: Seq<char>, i: int, e: Option<u64>)
    requires
        matches_at(s, i, enc_exp(e)),
    ensures
        dec_exp(s, i) == Some((e, i + enc_exp(e).len())),
{
    match e {
        None => {
            lemma_matches_first(s, i, enc_exp(e));
            assert(s[i] == 'N');
        },
        Some(v) => {
            let body = nat_text(v as nat);
            assert(enc_exp(e) == seq!['E'] + body + seq![';']);
            lemma_matches_split(s, i, seq!['E'] + body, seq![';']);
            lemma_matches_split(s, i, seq!['E'], body);
            lemma_matches_first(s, i, seq!['E']);
            assert(s[i] == 'E');
            lemma_matches_first(s, i + 1 + body.len(), seq![';']);
            assert(s[i + 1 + body.len()] == ';');
            lemma_rt_nat(s, i + 1, v);
        },
    }
}

/// A string encoding reads back exactly.
proof fn lemma_rt_str(s: Seq<char>, i: int, t: Seq<char>)
    requires
        matches_at(s, i, enc_str(t)),
        t.len() <= u64::MAX,
    ensures
        dec_str(s, i) == Some((t, i + enc_str(t).len())),
{
    let len_part = nat_text(t.len());
    assert(enc_str(t) == len_part + seq![':'] + t);
    lemma_matches_split(s, i, len_part + seq![':'], t);
    lemma_matches_split(s, i, len_part, seq![':']);
    lemma_matches_first(s, i + len_part.len() as int, seq![':']);
    assert(s[i + len_part.len()] == ':');
    lemma_rt_nat(s, i, t.len() as u64);
    let j = i + len_part.len();
    lemma_matches_index(s, j + 1, t);
    assert forall|k: int| 0 <= k < t.len() implies s.subrange(j + 1, j + 1 + t.len() as int)[k]
        == t[k] by {
        assert(s[j + 1 + k] == t[k]);
    }
    assert(s.subrange(j + 1, j + 1 + t.len() as int) =~= t);
}

/// An integer encoding reads back exactly.
proof fn lemma_rt_int(s: Seq<char>, i: int, v: i32)
    requires
        matches_at(s, i, int_text(v as int) + seq![';']),
    ensures
        dec_int(s, i) == Some((v, i + int_text(v as int).len() + 1)),
{
    let body = int_text(v as int);
    lemma_matches_split(s, i, body, seq![';']);
    lemma_matches_first(s, i + body.len() as int, seq![';']);
    assert(s[i + body.len()] == ';');
    if v < 0 {
        let mag = nat_text((-(v as int)) as nat);
        assert(body == seq!['-'] + mag);
        lemma_matches_split(s, i, seq!['-'], mag);
        lemma_matches_first(s, i, seq!['-']);
        assert(s[i] == '-');
        lemma_rt_nat(s, i + 1, (-(v as int)) as u64);
    } else {
        crate::text::lemma_nat_text_digits(v as nat);
        lemma_matches_first(s, i, body);
        assert(s[i] == body[0]);
        assert(crate::text::is_digit(s[i]));
        assert(s[i] != '-');
        lemma_rt_nat(s, i, v as u64);
    }
}

/// A value encoding reads back exactly.
pub proof fn lemma_rt_value(s: Seq<char>, i: int, v: SpecValue)
    requires
        matches_at(s, i, enc_value(v)),
        bounded(v),
    ensures
        dec_value(s, i) == Some((v, i + enc_value(v).len())),
    decreases v,
{
    match v {
        SpecValue::Text(t, e) => {
            assert(enc_value(v) == seq!['T'] + enc_exp(e) + enc_str(t));
            lemma_matches_split(s, i, seq!['T'] + enc_exp(e), enc_str(t));
            lemma_matches_split(s, i, seq!['T'], enc_exp(e));
            lemma_matches_first(s, i, seq!['T']);
            assert(s[i] == 'T');
            lemma_rt_exp(s, i + 1, e);
            lemma_rt_str(s, i + 1 + enc_exp(e).len(), t);
        },
        SpecValue::Json(t, e) => {
            assert(enc_value(v) == seq!['J'] + enc_exp(e) + enc_str(t));
            lemma_matches_split(s, i, seq!['J'] + enc_exp(e), enc_str(t));
            lemma_matches_split(s, i, seq!['J'], enc_exp(e));
            lemma_matches_first(s, i, seq!['J']);
            assert(s[i] == 'J');
            lemma_rt_exp(s, i + 1, e);
            lemma_rt_str(s, i + 1 + enc_exp(e).len(), t);
        },
        SpecValue::Int(n, e) => {
            assert(enc_value(v) == seq!['I'] + enc_exp(e) + (int_text(n as int) + seq![';'])) by {
                assert(enc_value(v) =~= seq!['I'] + enc_exp(e) + (int_text(n as int) + seq![';']));
            }
            lemma_matches_split(s, i, seq!['I'] + enc_exp(e), int_text(n as int) + seq![';']);
            lemma_matches_split(s, i, seq!['I'], enc_exp(e));
            lemma_matches_first(s, i, seq!['I']);
            assert(s[i] == 'I');
            lemma_rt_exp(s, i + 1, e);
            lemma_rt_int(s, i + 1 + enc_exp(e).len(), n);
        },
        SpecValue::Table(ps, e) => {
            let count = nat_text(ps.len());
            assert(enc_value(v) == seq!['M'] + enc_exp(e) + (count + seq![';'] + enc_pairs(ps)))
                by {
                assert(enc_value(v) =~= seq!['M'] + enc_exp(e) + (count + seq![';'] + enc_pairs(
                    ps,
                )));
            }
            lemma_matches_split(s, i, seq!['M'] + enc_exp(e), count + seq![';'] + enc_pairs(ps));
            lemma_matches_split(s, i, seq!['M'], enc_exp(e));
            lemma_matches_first(s, i, seq!['M']);
            assert(s[i] == 'M');
            lemma_rt_exp(s, i + 1, e);
            let j = i + 1 + enc_exp(e).len();
            lemma_matches_split(s, j, count + seq![';'], enc_pairs(ps));
            lemma_matches_split(s, j, count, seq![';']);
            lemma_matches_first(s, j + count.len() as int, seq![';']);
            assert(s[j + count.len()] == ';');
            lemma_rt_nat(s, j, ps.len() as u64);
            lemma_rt_pairs(s, j + count.len() + 1, ps);
        },
    }
}

/// An entry-list encoding reads back exactly.
pub proof fn lemma_rt_pairs(s: Seq<char>, i: int, ps: Seq<(Seq<char>, SpecValue)>)
    requires
        matches_at(s, i, enc_pairs(ps)),
        bounded_pairs(ps),
        ps.len() <= u64::MAX,
    ensures
        dec_pairs(s, i, ps.len() as u64) == Some((ps, i + enc_pairs(ps).len())),
    decreases ps,
{
    if ps.len() > 0 {
        let k0 = ps[0].0;
        let v0 = ps[0].1;
        assert(enc_pairs(ps) == enc_str(k0) + enc_value(v0) + enc_pairs(ps.skip(1)));
        lemma_matches_split(s, i, enc_str(k0) + enc_value(v0), enc_pairs(ps.skip(1)));
        lemma_matches_split(s, i, enc_str(k0), enc_value(v0));
        crate::text::lemma_nat_text_digits(k0.len());
        lemma_rt_str(s, i, k0);
        let j = i + enc_str(k0).len();
        lemma_rt_value(s, j, v0);
        let j2 = j + enc_value(v0).len();
        assert(enc_value(v0).len() > 0);
        lemma_rt_pairs(s, j2, ps.skip(1));
        assert(ps.skip(1).len() as u64 == (ps.len() as u64 - 1) as u64);
        let rest = ps.skip(1);
        assert(seq![(k0, v0)] + rest =~= ps);
    }
}

/// Saving and reloading reproduces the entry list exactly.
pub proof fn lemma_rt_snapshot(ps: Seq<(Seq<char>, SpecValue)>)
    requires
        bounded_pairs(ps),
        ps.len() <= u64::MAX,
    ensures
        dec_snapshot(enc_snapshot(ps)) == Some(ps),
{
    let s = enc_snapshot(ps);
    let count = nat_text(ps.len());
    assert(s.subrange(0, s.len() as int) =~= s);
    assert(matches_at(s, 0, count + seq![';'] + enc_pairs(ps)));
    lemma_matches_split(s, 0, count + seq![';'], enc_pairs(ps));
    lemma_matches_split(s, 0, count, seq![';']);
    lemma_matches_first(s, count.len() as int, seq![';']);
    assert(s[count.len() as int] == ';');
    lemma_rt_nat(s, 0, ps.len() as u64);
    lemma_rt_pairs(s, count.len() as int + 1, ps);
}

/// Reads an expiration, as `dec_exp` does.
fn dec_exp_exec(t: &Vec<char>, i: usize) -> (r: Option<(Option<u64>, usize)>)
    requires
        i <= t@.len(),
    ensures
        match r {
            Some((e, j)) => dec_exp(t@, i as int) == Some((e, j as int)) && i < j <= t@.len(),
            None => dec_exp(t@, i as int) is None,
        },
{
    if i < t.len() && t[i] == 'N' {
        Some((None, i + 1))
    } else if i < t.len() && t[i] == 'E' {
        match crate::text::take_number_exec(t, i + 1) {
            Some((n, j)) => {
                if j < t.len() && t[j] == ';' {
                    Some((Some(n), j + 1))
                } else {
                    None
                }
            },
            None => None,
        }
    } else {
        None
    }
}

/// Reads a length-prefixed string, as `dec_str` does.
fn dec_str_exec(t: &Vec<char>, i: usize) -> (r: Option<(Vec<char>, usize)>)
    requires
        i <= t@.len(),
    ensures
        match r {
            Some((w, j)) => dec_str(t@, i as int) == Some((w@, j as int)) && i < j <= t@.len(),
            None => dec_str(t@, i as int) is None,
        },
{
    match crate::text::take_number_exec(t, i) {
        Some((n, j)) => {
            if j < t.len() && t[j] == ':' {
                let rem: usize = t.len() - (j + 1);
                if n <= rem as u64 {
                    let nn: usize = n as usize;
                    let mut w: Vec<char> = Vec::new();
                    let mut k: usize = 0;
                    while k < nn
                        invariant
                            t@.len() <= usize::MAX,
                            j + 1 + nn <= t@.len(),
                            k <= nn,
                            w@ == t@.subrange(j as int + 1, j as int + 1 + k as int),
                        decreases nn - k,
                    {
                        w.push(t[j + 1 + k]);
                        k = k + 1;
                        assert(w@ =~= t@.subrange(j as int + 1, j as int + 1 + k as int));
                    }
                    Some((w, j + 1 + nn))
                } else {
                    None
                }
            } else {
                None
            }
        },
        None => None,
    }
}

/// Reads a signed integer, as `dec_int` does.
fn dec_int_exec(t: &Vec<char>, i: usize) -> (r: Option<(i32, usize)>)
    requires
        i <= t@.len(),
    ensures
        match r {
            Some((v, j)) => dec_int(t@, i as int) == Some((v, j as int)) && i < j <= t@.len(),
            None => dec_int(t@, i as int) is None,
        },
{
    let neg = i < t.len() && t[i] == '-';
    let start = if neg {
        i + 1
    } else {
        i
    };
    match crate::text::take_number_exec(t, start) {
        Some((n, j)) => {
            if j < t.len() && t[j] == ';' {
                if neg {
                    if 0 < n && n <= 0x8000_0000u64 {
                        let v: i32 = (-(n as i64)) as i32;
                        Some((v, j + 1))
                    } else {
                        None
                    }
                } else {
                    if n <= 0x7fff_ffffu64 {
                        Some((n as i32, j + 1))
                    } else {
                        None
                    }
                }
            } else {
                None
            }
        },
        None => None,
    }
}

/// Reads one value, as `dec_value` does.
pub(crate) fn dec_value_exec(t: &Vec<char>, i: usize) -> (r: Option<(DbValue, usize)>)
    requires
        i <= t@.len(),
    ensures
        match r {
            Some((v, j)) => dec_value(t@, i as int) == Some((view_of(v), j as int)) && i < j
                <= t@.len(),
            None => dec_value(t@, i as int) is None,
        },
    decreases t@.len() - i, 1int,
{
    if i >= t.len() {
        return None;
    }
    let c = t[i];
    if c == 'T' || c == 'J' {
        match dec_exp_exec(t, i + 1) {
            Some((e, j)) => match dec_str_exec(t, j) {
                Some((w, j2)) => {
                    let s = crate::text::chars_to_string(&w);
                    if c == 'T' {
                        Some((DbValue::Text(s, e), j2))
                    } else {
                        Some((DbValue::Json(s, e), j2))
                    }
                },
                None => None,
            },
            None => None,
        }
    } else if c == 'I' {
        match dec_exp_exec(t, i + 1) {
            Some((e, j)) => match dec_int_exec(t, j) {
                Some((v, j2)) => Some((DbValue::Int(v, e), j2)),
                None => None,
            },
            None => None,
        }
    } else if c == 'M' {
        match dec_exp_exec(t, i + 1) {
            Some((e, j)) => match crate::text::take_number_exec(t, j) {
                Some((n, j2)) => {
                    if j2 < t.len() && t[j2] == ';' {
                        match dec_pairs_exec(t, j2 + 1, n) {
                            Some((entries, j3)) => Some((DbValue::Table(entries, e), j3)),
                            None => None,
                        }
                    } else {
                        None
                    }
                },
                None => None,
            },
            None => None,
        }
    } else {
        None
    }
}

/// Reads `n` entries, as `dec_pairs` does.
pub(crate) fn dec_pairs_exec(t: &Vec<char>, i: usize, n: u64) -> (r: Option<
    (Vec<(String, DbValue)>, usize),
>)
    requires
        i <= t@.len(),
    ensures
        match r {
            Some((es, j)) => dec_pairs(t@, i as int, n) == Some((pairs_view(es@), j as int)) && i
                <= j <= t@.len() && es@.len() == n,
            None => dec_pairs(t@, i as int, n) is None,
        },
    decreases t@.len() - i, 0int,
{
    if n == 0 {
        let es: Vec<(String, DbValue)> = Vec::new();
        assert(pairs_view(es@) =~= Seq::<(Seq<char>, SpecValue)>::empty());
        return Some((es, i));
    }
    match dec_str_exec(t, i) {
        Some((kw, j)) => match dec_value_exec(t, j) {
            Some((v, j2)) => match dec_pairs_exec(t, j2, n - 1) {
                Some((rest, j3)) => {
                    let key = crate::text::chars_to_string(&kw);
                    let ghost rest0 = rest@;
                    let mut es = rest;
                    es.insert(0, (key, v));
                    proof {
                        lemma_pairs_view_index(es@);
                        lemma_pairs_view_index(rest0);
                        assert(es@.len() == rest0.len() + 1);
                        assert(es@[0] == (key, v));
                        assert(forall|k: int| 0 <= k < rest0.len() ==> es@[k + 1] == rest0[k]);
                        assert(pairs_view(es@) =~= seq![(kw@, view_of(v))] + pairs_view(rest0));
                    }
                    Some((es, j3))
                },
                None => None,
            },
            None => None,
        },
        None => None,
    }
}

/// Appends the encoding of an expiration to `out`.
fn push_enc_exp(out: &mut Vec<char>, e: &Option<u64>)
    ensures
        final(out)@ == old(out)@ + enc_exp(*e),
{
    match e {
        None => {
            out.push('N');
            assert(out@ =~= old(out)@ + enc_exp(None));
        },
        Some(v) => {
            out.push('E');
            push_nat_text(out, *v);
            out.push(';');
            assert(out@ =~= old(out)@ + enc_exp(Some(*v)));
        },
    }
}

/// Appends the encoding of a length-prefixed string to `out`.
fn push_enc_str(out: &mut Vec<char>, t: &str)
    ensures
        final(out)@ == old(out)@ + enc_str(t@),
        t@.len() <= u64::MAX,
{
    let cs = chars_of_str(t);
    push_nat_text(out, cs.len() as u64);
    out.push(':');
    push_all(out, &cs);
    assert(out@ =~= old(out)@ + enc_str(t@));
}

/// Appends the encoding of one value to `out`.
pub(crate) fn push_enc_value(out: &mut Vec<char>, v: &DbValue)
    ensures
        final(out)@ == old(out)@ + enc_value(view_of(*v)),
        bounded(view_of(*v)),
    decreases *v, 0int,
{
    match v {
        DbValue::Text(s, e) => {
            out.push('T');
            push_enc_exp(out, e);
            push_enc_str(out, s.as_str());
            assert(out@ =~= old(out)@ + enc_value(view_of(*v)));
        },
        DbValue::Int(i, e) => {
            out.push('I');
            push_enc_exp(out, e);
            push_int_text(out, *i);
            out.push(';');
            assert(out@ =~= old(out)@ + enc_value(view_of(*v)));
        },
        DbValue::Json(s, e) => {
            out.push('J');
            push_enc_exp(out, e);
            push_enc_str(out, s.as_str());
            assert(out@ =~= old(out)@ + enc_value(view_of(*v)));
        },
        DbValue::Table(entries, e) => {
            out.push('M');
            push_enc_exp(out, e);
            push_nat_text(out, entries.len() as u64);
            out.push(';');
            push_enc_pairs(out, entries, 0);
            proof {
                lemma_pairs_view_index(entries@);
                assert(pairs_view(entries@).skip(0) =~= pairs_view(entries@));
                assert(out@ =~= old(out)@ + enc_value(view_of(*v)));
            }
        },
    }
}

/// Appends the encodings of the entries from position `i` on to `out`.
pub(crate) fn push_enc_pairs(out: &mut Vec<char>, entries: &Vec<(String, DbValue)>, i: usize)
    requires
        i <= entries@.len(),
    ensures
        final(out)@ == old(out)@ + enc_pairs(pairs_view(entries@).skip(i as int)),
        bounded_pairs(pairs_view(entries@).skip(i as int)),
    decreases *entries, entries@.len() - i,
{
    proof {
        lemma_pairs_view_index(entries@);
    }
    let ghost ps = pairs_view(entries@);
    if i == entries.len() {
        assert(ps.skip(i as int) =~= Seq::empty());
    } else {
        let p = &entries[i];
        push_enc_str(out, p.0.as_str());
        push_enc_value(out, &p.1);
        push_enc_pairs(out, entries, i + 1);
        proof {
            assert(ps.skip(i as int)[0] == ps[i as int]);
            assert(ps.skip(i as int).skip(1) =~= ps.skip(i as int + 1));
            assert(out@ =~= old(out)@ + enc_pairs(ps.skip(i as int)));
        }
    }
}

} // verus!
