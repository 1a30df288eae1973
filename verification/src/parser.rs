use vstd::prelude::*;

use crate::text::{is_ws, is_ws_exec, chars_of_str, chars_to_string, bytes_to_str, push_all};

verus! {

/// The shape of a parsed request.
#[verifier::ext_equal]
pub enum SpecCommand {
    Get(Seq<char>),
    Put(Seq<char>, Seq<char>, Option<Seq<char>>),
    Unknown,
}

/// A parsed request: read a key, bind a key to a value with an optional
/// ttl token, or anything else.
#[derive(Debug)]
pub enum RedisCommand {
    Get(String),
    Put(String, String, Option<String>),
    Unknown,
}

impl View for RedisCommand {
    type V = SpecCommand;

    open spec fn view(&self) -> SpecCommand {
        match self {
            RedisCommand::Get(k) => SpecCommand::Get(k@),
            RedisCommand::Put(k, v, t) => SpecCommand::Put(
                k@,
                v@,
                match t {
                    Some(s) => Some(s@),
                    None => None::<Seq<char>>,
                },
            ),
            RedisCommand::Unknown => SpecCommand::Unknown,
        }
    }
}

/// The whitespace-separated tokens of `s` from position `i` on.  A token
/// is a maximal run of non-whitespace characters.
pub open spec fn tokens_from(s: Seq<char>, i: int) -> Seq<Seq<char>>
    decreases s.len() - i,
{
    if i < 0 || i >= s.len() {
        Seq::empty()
    } else if is_ws(s[i]) {
        tokens_from(s, i + 1)
    } else {
        let rest = tokens_from(s, i + 1);
        if i + 1 < s.len() && !is_ws(s[i + 1]) {
            seq![seq![s[i]] + rest[0]] + rest.skip(1)
        } else {
            seq![seq![s[i]]] + rest
        }
    }
}

pub open spec fn tokens_of(s: Seq<char>) -> Seq<Seq<char>> {
    tokens_from(s, 0)
}

/// The grammar: `GET <key>`, `SET <key> <value>`, or `SET <key> <value>
/// <ttl>`; keywords case-sensitive; anything else is unknown.
pub open spec fn parse_spec(s: Seq<char>) -> SpecCommand {
    let toks = tokens_of(s);
    if toks.len() == 2 && toks[0] == seq!['G', 'E', 'T'] {
        SpecCommand::Get(toks[1])
    } else if toks.len() == 3 && toks[0] == seq!['S', 'E', 'T'] {
        SpecCommand::Put(toks[1], toks[2], None)
    } else if toks.len() == 4 && toks[0] == seq!['S', 'E', 'T'] {
        SpecCommand::Put(toks[1], toks[2], Some(toks[3]))
    } else {
        SpecCommand::Unknown
    }
}

/// Collects the tokens of `chars` from position `i` on.
fn tokens_exec(chars: &Vec<char>, i: usize) -> (r: Vec<Vec<char>>)
    requires
        i <= chars@.len(),
    ensures
        r.deep_view() == tokens_from(chars@, i as int),
    decreases chars@.len() - i,
{
    if i == chars.len() {
        let r: Vec<Vec<char>> = Vec::new();
        assert(r.deep_view() =~= tokens_from(chars@, i as int));
        r
    } else if is_ws_exec(chars[i]) {
        tokens_exec(chars, i + 1)
    } else {
        let mut rest = tokens_exec(chars, i + 1);
        if i + 1 < chars.len() && !is_ws_exec(chars[i + 1]) {
            assert(tokens_from(chars@, i as int + 1).len() > 0);
            assert(rest@.len() == rest.deep_view().len());
            let first = rest.remove(0);
            let mut tok: Vec<char> = Vec::new();
            tok.push(chars[i]);
            push_all(&mut tok, &first);
            rest.insert(0, tok);
            assert(rest.deep_view() =~~= tokens_from(chars@, i as int));
            rest
        } else {
            let mut tok: Vec<char> = Vec::new();
            tok.push(chars[i]);
            rest.insert(0, tok);
            assert(rest.deep_view() =~~= tokens_from(chars@, i as int));
            rest
        }
    }
}

/// Whether `t` is exactly the three-character keyword `abc`.
fn is_keyword3(t: &Vec<char>, a: char, b: char, c: char) -> (r: bool)
    ensures
        r == (t@ == seq![a, b, c]),
{
    if t.len() == 3 && t[0] == a && t[1] == b && t[2] == c {
        assert(t@ =~= seq![a, b, c]);
        true
    } else {
        assert(t@ != seq![a, b, c]);
        false
    }
}

/// Parses one request buffer.  The bytes are read as UTF-8 text — a buffer
/// that is not valid UTF-8 counts as empty, hence unknown — then split on
/// runs of whitespace and matched against the grammar.
pub fn parse_command(buffer: &[u8]) -> (r: RedisCommand)
    ensures
        vstd::utf8::valid_utf8(buffer@) ==> r@ == parse_spec(vstd::utf8::decode_utf8(buffer@)),
        !vstd::utf8::valid_utf8(buffer@) ==> r@ == SpecCommand::Unknown,
{
    match bytes_to_str(buffer) {
        None => RedisCommand::Unknown,
        Some(s) => {
            let chars = chars_of_str(s);
            let toks = tokens_exec(&chars, 0);
            let ghost spec_toks = tokens_of(s@);
            proof {
                assert(toks.deep_view() == spec_toks);
                assert(toks.deep_view().len() == toks@.len());
                assert forall|j: int| 0 <= j < toks@.len() implies toks@[j]@ == spec_toks[j] by {
                    assert(toks@[j].deep_view() =~= toks@[j]@);
                    assert(spec_toks[j] == toks.deep_view()[j]);
                }
            }
            if toks.len() == 2 && is_keyword3(&toks[0], 'G', 'E', 'T') {
                assert(toks@[0]@ == spec_toks[0] && toks@[1]@ == spec_toks[1]);
                RedisCommand::Get(chars_to_string(&toks[1]))
            } else if toks.len() == 3 && is_keyword3(&toks[0], 'S', 'E', 'T') {
                assert(toks@[0]@ == spec_toks[0] && toks@[1]@ == spec_toks[1] && toks@[2]@
                    == spec_toks[2]);
                RedisCommand::Put(chars_to_string(&toks[1]), chars_to_string(&toks[2]), None)
            } else if toks.len() == 4 && is_keyword3(&toks[0], 'S', 'E', 'T') {
                assert(toks@[0]@ == spec_toks[0] && toks@[1]@ == spec_toks[1] && toks@[2]@
                    == spec_toks[2] && toks@[3]@ == spec_toks[3]);
                RedisCommand::Put(
                    chars_to_string(&toks[1]),
                    chars_to_string(&toks[2]),
                    Some(chars_to_string(&toks[3])),
                )
            } else {
                RedisCommand::Unknown
            }
        },
    }
}

} // verus!
