use vstd::prelude::*;

use crate::DEFAULT_TTL_SECS;
use crate::db::{
    Db, DbValue, SpecValue, get_spec, msg_ok, msg_key_in_use, sat_add,
};
use crate::parser::{RedisCommand, SpecCommand, parse_command, parse_spec};
use crate::text::{u64_from_text, parse_u64, chars_of_str};

verus! {

pub open spec fn msg_unknown() -> Seq<char> {
    "Unknown command\n"@
}

/// The time-to-live a request's optional ttl token stands for: the token
/// read as a decimal count of seconds; where the token is absent or does
/// not parse, the default.
pub open spec fn ttl_of_token(t: Option<Seq<char>>) -> u64 {
    match t {
        Some(w) => match u64_from_text(w) {
            Some(n) => n,
            None => DEFAULT_TTL_SECS,
        },
        None => DEFAULT_TTL_SECS,
    }
}

/// The response line one request draws from a store holding mapping `m`.
pub open spec fn response_spec(m: Map<Seq<char>, SpecValue>, cmd: SpecCommand, now: u64) -> Seq<
    char,
> {
    match cmd {
        SpecCommand::Get(k) => match get_spec(m, k, now) {
            Ok(s) => s,
            Err(e) => e,
        },
        SpecCommand::Put(k, _, _) => if m.contains_key(k) {
            msg_key_in_use()
        } else {
            msg_ok()
        },
        SpecCommand::Unknown => msg_unknown(),
    }
}

/// The mapping after one request: a `SET` of an unbound key binds it as a
/// text value expiring `ttl` seconds from `now`; everything else leaves
/// the mapping as it was.
pub open spec fn step_spec(m: Map<Seq<char>, SpecValue>, cmd: SpecCommand, now: u64) -> Map<
    Seq<char>,
    SpecValue,
> {
    match cmd {
        SpecCommand::Put(k, v, t) => if m.contains_key(k) {
            m
        } else {
            m.insert(k, SpecValue::Text(v, Some(sat_add(now, ttl_of_token(t)))))
        },
        _ => m,
    }
}

/// Handles one request buffer against the store at instant `now`: parses
/// it, runs the command, and answers the single response line — the
/// result or the error, framed alike.  Each buffer is taken as one whole
/// command; a command split across two reads does not parse.
pub fn handle_request(db: &mut Db, buffer: &[u8], now: u64) -> (r: String)
    requires
        old(db).wf(),
    ensures
        final(db).wf(),
        ({
            let cmd = if vstd::utf8::valid_utf8(buffer@) {
                parse_spec(vstd::utf8::decode_utf8(buffer@))
            } else {
                SpecCommand::Unknown
            };
            r@ == response_spec(old(db)@, cmd, now) && final(db)@ == step_spec(
                old(db)@,
                cmd,
                now,
            )
        }),
{
    let cmd = parse_command(buffer);
    let response: Result<String, String> = match cmd {
        RedisCommand::Get(key) => db.get(key.as_str(), now),
        RedisCommand::Put(key, value, expired) => {
            let ttl: u64 = match expired {
                Some(tok) => {
                    let tv = chars_of_str(tok.as_str());
                    match parse_u64(&tv) {
                        Some(n) => n,
                        None => DEFAULT_TTL_SECS,
                    }
                },
                None => DEFAULT_TTL_SECS,
            };
            db.set(key, DbValue::Text(value, None), Some(ttl), now)
        },
        RedisCommand::Unknown => Err(String::from_str("Unknown command\n")),
    };
    match response {
        Ok(s) => s,
        Err(e) => e,
    }
}

} // verus!
