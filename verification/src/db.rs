use vstd::prelude::*;

use crate::text::{chars_of_str, chars_to_string, push_all, push_int_text, int_text};

verus! {

/// One stored value together with its optional absolute expiration instant,
/// in whole seconds of wall-clock time; `None` means the value never
/// expires.  A structured document is held as its textual form; a nested
/// table as a list of key/value entries with pairwise distinct keys.
#[derive(Debug)]
pub enum DbValue {
    Text(String, Option<u64>),
    Int(i32, Option<u64>),
    Json(String, Option<u64>),
    Table(Vec<(String, DbValue)>, Option<u64>),
}

/// The mathematical shape of a stored value: strings as character
/// sequences, a nested table as the sequence of its entries.
#[verifier::ext_equal]
pub enum SpecValue {
    Text(Seq<char>, Option<u64>),
    Int(i32, Option<u64>),
    Json(Seq<char>, Option<u64>),
    Table(Seq<(Seq<char>, SpecValue)>, Option<u64>),
}

impl SpecValue {
    /// The expiration instant the value carries.
    pub open spec fn exp(self) -> Option<u64> {
        match self {
            SpecValue::Text(_, e) => e,
            SpecValue::Int(_, e) => e,
            SpecValue::Json(_, e) => e,
            SpecValue::Table(_, e) => e,
        }
    }

    /// The same value carrying expiration `e` instead.
    pub open spec fn with_exp(self, e: Option<u64>) -> SpecValue {
        match self {
            SpecValue::Text(s, _) => SpecValue::Text(s, e),
            SpecValue::Int(i, _) => SpecValue::Int(i, e),
            SpecValue::Json(s, _) => SpecValue::Json(s, e),
            SpecValue::Table(t, _) => SpecValue::Table(t, e),
        }
    }
}

/// The shape of an executable value.
pub open spec fn view_of(v: DbValue) -> SpecValue
    decreases v,
{
    match v {
        DbValue::Text(s, e) => SpecValue::Text(s@, e),
        DbValue::Int(i, e) => SpecValue::Int(i, e),
        DbValue::Json(s, e) => SpecValue::Json(s@, e),
        DbValue::Table(entries, e) => SpecValue::Table(pairs_view(entries@), e),
    }
}

/// The shape of a list of entries.
pub open spec fn pairs_view(s: Seq<(String, DbValue)>) -> Seq<(Seq<char>, SpecValue)>
    decreases s,
{
    if s.len() == 0 {
        Seq::empty()
    } else {
        pairs_view(s.drop_last()).push((s.last().0@, view_of(s.last().1)))
    }
}

pub proof fn lemma_pairs_view_index(s: Seq<(String, DbValue)>)
    ensures
        pairs_view(s).len() == s.len(),
        forall|i: int|
            0 <= i < s.len() ==> #[trigger] pairs_view(s)[i] == (s[i].0@, view_of(s[i].1)),
    decreases s.len(),
{
    if s.len() > 0 {
        lemma_pairs_view_index(s.drop_last());
    }
}

pub proof fn lemma_pairs_view_push(s: Seq<(String, DbValue)>, p: (String, DbValue))
    ensures
        pairs_view(s.push(p)) == pairs_view(s).push((p.0@, view_of(p.1))),
{
    assert(s.push(p).drop_last() =~= s);
}

/// The mapping that a list of entries stands for; a later entry for the
/// same key would win, though a well-formed store never holds one.
pub open spec fn map_of_pairs(ps: Seq<(Seq<char>, SpecValue)>) -> Map<Seq<char>, SpecValue>
    decreases ps.len(),
{
    if ps.len() == 0 {
        Map::empty()
    } else {
        map_of_pairs(ps.drop_last()).insert(ps.last().0, ps.last().1)
    }
}

pub proof fn lemma_map_of_pairs_push(ps: Seq<(Seq<char>, SpecValue)>, p: (Seq<char>, SpecValue))
    ensures
        map_of_pairs(ps.push(p)) == map_of_pairs(ps).insert(p.0, p.1),
{
    assert(ps.push(p).drop_last() =~= ps);
}

/// Pairwise distinct keys.
pub open spec fn unique_keys(ps: Seq<(Seq<char>, SpecValue)>) -> bool {
    forall|i: int, j: int| 0 <= i < j < ps.len() ==> ps[i].0 != ps[j].0
}

pub proof fn lemma_map_lookup(ps: Seq<(Seq<char>, SpecValue)>, i: int)
    requires
        unique_keys(ps),
        0 <= i < ps.len(),
    ensures
        map_of_pairs(ps).contains_key(ps[i].0),
        map_of_pairs(ps)[ps[i].0] == ps[i].1,
    decreases ps.len(),
{
    if i < ps.len() - 1 {
        assert(unique_keys(ps.drop_last()));
        assert(ps.drop_last()[i] == ps[i]);
        lemma_map_lookup(ps.drop_last(), i);
        assert(ps[i].0 != ps.last().0);
    }
}

pub proof fn lemma_map_absent(ps: Seq<(Seq<char>, SpecValue)>, k: Seq<char>)
    requires
        forall|i: int| 0 <= i < ps.len() ==> (#[trigger] ps[i]).0 != k,
    ensures
        !map_of_pairs(ps).contains_key(k),
    decreases ps.len(),
{
    if ps.len() > 0 {
        lemma_map_absent(ps.drop_last(), k);
    }
}

/// Every key of the mapping stands in the entry list.
pub proof fn lemma_map_dom(ps: Seq<(Seq<char>, SpecValue)>, k: Seq<char>)
    requires
        map_of_pairs(ps).contains_key(k),
    ensures
        exists|i: int| 0 <= i < ps.len() && (#[trigger] ps[i]).0 == k,
    decreases ps.len(),
{
    if ps.len() > 0 {
        if ps.last().0 == k {
            assert(ps[ps.len() - 1].0 == k);
        } else {
            lemma_map_dom(ps.drop_last(), k);
            let i = choose|i: int| 0 <= i < ps.drop_last().len() && (#[trigger] ps.drop_last()[i]).0 == k;
            assert(ps[i].0 == k);
        }
    }
}

/// Whether a value is past its expiration at instant `now`; an instant at
/// or before `now` counts as expired, a value without one never expires.
pub open spec fn expired_at(v: SpecValue, now: u64) -> bool {
    match v.exp() {
        Some(e) => e <= now,
        None => false,
    }
}

/// Addition on instants, saturating at the largest representable instant.
pub open spec fn sat_add(a: u64, b: u64) -> u64 {
    if a + b > u64::MAX {
        u64::MAX
    } else {
        (a + b) as u64
    }
}

pub fn sat_add_exec(a: u64, b: u64) -> (r: u64)
    ensures
        r == sat_add(a, b),
{
    if b <= u64::MAX - a {
        a + b
    } else {
        u64::MAX
    }
}

/// The expiration instant a `set` at instant `now` attaches for `ttl`.
pub open spec fn exp_of(ttl: Option<u64>, now: u64) -> Option<u64> {
    match ttl {
        Some(d) => Some(sat_add(now, d)),
        None => None,
    }
}

pub open spec fn msg_ok() -> Seq<char> {
    "OK\n"@
}

pub open spec fn msg_key_in_use() -> Seq<char> {
    "Key already in use\n"@
}

pub open spec fn msg_not_found() -> Seq<char> {
    "Key not found\n"@
}

pub open spec fn msg_expired() -> Seq<char> {
    "Key not found or expired\n"@
}

/// The response line a value renders to: text and documents as their own
/// text, integers in decimal, a nested table in a braced readable form.
pub open spec fn render_spec(v: SpecValue) -> Seq<char>
    decreases v,
{
    match v {
        SpecValue::Text(s, _) => s,
        SpecValue::Int(i, _) => int_text(i as int),
        SpecValue::Json(s, _) => s,
        SpecValue::Table(ps, _) => seq!['{'] + render_pairs(ps) + seq!['}'],
    }
}

pub open spec fn render_pair(p: (Seq<char>, SpecValue)) -> Seq<char>
    decreases p,
{
    p.0 + ": "@ + render_spec(p.1)
}

pub open spec fn render_pairs(ps: Seq<(Seq<char>, SpecValue)>) -> Seq<char>
    decreases ps,
{
    if ps.len() == 0 {
        Seq::empty()
    } else if ps.len() == 1 {
        render_pair(ps[0])
    } else {
        render_pair(ps[0]) + ", "@ + render_pairs(ps.skip(1))
    }
}

/// The views of a result's strings.
pub open spec fn res_view(r: Result<String, String>) -> Result<Seq<char>, Seq<char>> {
    match r {
        Ok(s) => Ok(s@),
        Err(s) => Err(s@),
    }
}

/// What `get` answers on mapping `m` for key `k` at instant `now`.
pub open spec fn get_spec(m: Map<Seq<char>, SpecValue>, k: Seq<char>, now: u64) -> Result<
    Seq<char>,
    Seq<char>,
> {
    if m.contains_key(k) {
        if expired_at(m[k], now) {
            Err(msg_expired())
        } else {
            Ok(render_spec(m[k]).push('\n'))
        }
    } else {
        Err(msg_not_found())
    }
}

impl DbValue {
    /// The expiration instant the value carries.
    pub fn expiration(&self) -> (r: Option<u64>)
        ensures
            r == view_of(*self).exp(),
    {
        match self {
            DbValue::Text(_, e) => *e,
            DbValue::Int(_, e) => *e,
            DbValue::Json(_, e) => *e,
            DbValue::Table(_, e) => *e,
        }
    }

    /// The same value carrying expiration `e` instead.
    pub fn with_expiration(self, e: Option<u64>) -> (r: DbValue)
        ensures
            view_of(r) == view_of(self).with_exp(e),
    {
        match self {
            DbValue::Text(s, _) => DbValue::Text(s, e),
            DbValue::Int(i, _) => DbValue::Int(i, e),
            DbValue::Json(s, _) => DbValue::Json(s, e),
            DbValue::Table(t, _) => DbValue::Table(t, e),
        }
    }

    /// Checked constructor for a structured-document value: accepts the
    /// text only where it is a JSON document.
    pub fn json_from_text(text: String) -> (r: Option<DbValue>)
        ensures
            r matches Some(v) ==> is_json(text@) && view_of(v) == SpecValue::Json(
                text@,
                None::<u64>,
            ),
            r is None <==> !is_json(text@),
    {
        if json_valid(text.as_str()) {
            Some(DbValue::Json(text, None))
        } else {
            None
        }
    }
}

impl From<String> for DbValue {
    /// A bare text value, with no expiration.
    fn from(value: String) -> (r: DbValue) {
        DbValue::Text(value, None)
    }
}

impl vstd::std_specs::convert::FromSpecImpl<String> for DbValue {
    open spec fn obeys_from_spec() -> bool {
        true
    }

    open spec fn from_spec(v: String) -> DbValue {
        DbValue::Text(v, None)
    }
}

impl From<i32> for DbValue {
    /// A bare integer value, with no expiration.
    fn from(value: i32) -> (r: DbValue) {
        DbValue::Int(value, None)
    }
}

impl vstd::std_specs::convert::FromSpecImpl<i32> for DbValue {
    open spec fn obeys_from_spec() -> bool {
        true
    }

    open spec fn from_spec(v: i32) -> DbValue {
        DbValue::Int(v, None)
    }
}

impl From<Vec<(String, DbValue)>> for DbValue {
    /// A bare nested table, with no expiration.
    fn from(value: Vec<(String, DbValue)>) -> (r: DbValue) {
        DbValue::Table(value, None)
    }
}

impl vstd::std_specs::convert::FromSpecImpl<Vec<(String, DbValue)>> for DbValue {
    open spec fn obeys_from_spec() -> bool {
        true
    }

    open spec fn from_spec(v: Vec<(String, DbValue)>) -> DbValue {
        DbValue::Table(v, None)
    }
}

/// Whether a text is a JSON document, as serde_json parses them.
pub uninterp spec fn is_json(s: Seq<char>) -> bool;

/// Relies on serde_json::from_str::<serde_json::Value>: whether a text
/// parses as a JSON document depends on the text alone, and the parser
/// returns `Ok` exactly on such texts.
#[verifier::external_body]
fn json_valid(text: &str) -> (r: bool)
    ensures
        r == is_json(text@),
{
    match serde_json::from_str::<serde_json::Value>(text) {
        Ok(_) => true,
        Err(_) => false,
    }
}

/// Appends the rendering of `v` to `out`.
pub(crate) fn push_render(out: &mut Vec<char>, v: &DbValue)
    ensures
        final(out)@ == old(out)@ + render_spec(view_of(*v)),
    decreases *v, 0int,
{
    match v {
        DbValue::Text(s, _) => {
            let cs = chars_of_str(s.as_str());
            push_all(out, &cs);
        },
        DbValue::Int(i, _) => {
            push_int_text(out, *i);
        },
        DbValue::Json(s, _) => {
            let cs = chars_of_str(s.as_str());
            push_all(out, &cs);
        },
        DbValue::Table(entries, _) => {
            out.push('{');
            push_render_pairs(out, entries, 0);
            out.push('}');
            proof {
                assert(pairs_view(entries@).skip(0) =~= pairs_view(entries@));
                assert(out@ =~= old(out)@ + render_spec(view_of(*v)));
            }
        },
    }
}

/// Appends the renderings of the entries from position `i` on, separated by
/// commas, to `out`.
fn push_render_pairs(out: &mut Vec<char>, entries: &Vec<(String, DbValue)>, i: usize)
    requires
        i <= entries@.len(),
    ensures
        final(out)@ == old(out)@ + render_pairs(pairs_view(entries@).skip(i as int)),
    decreases *entries, entries@.len() - i,
{
    proof {
        lemma_pairs_view_index(entries@);
        reveal_strlit(": ");
        reveal_strlit(", ");
    }
    let ghost ps = pairs_view(entries@);
    if i == entries.len() {
        assert(ps.skip(i as int) =~= Seq::empty());
    } else {
        let p = &entries[i];
        let kc = chars_of_str(p.0.as_str());
        push_all(out, &kc);
        out.push(':');
        out.push(' ');
        push_render(out, &p.1);
        assert(out@ =~= old(out)@ + render_pair(ps[i as int]));
        if i + 1 < entries.len() {
            out.push(',');
            out.push(' ');
        }
        push_render_pairs(out, entries, i + 1);
        proof {
            assert(ps.skip(i as int)[0] == ps[i as int]);
            assert(ps.skip(i as int).skip(1) =~= ps.skip(i as int + 1));
            if i as int + 1 < ps.len() {
                assert(ps.skip(i as int).len() > 1);
                assert(out@ =~= old(out)@ + render_pairs(ps.skip(i as int)));
            } else {
                assert(ps.skip(i as int).len() == 1);
                assert(out@ =~= old(out)@ + render_pairs(ps.skip(i as int)));
            }
        }
    }
}

/// The store: a mapping from key to value, held as an entry list whose
/// keys are pairwise distinct.
#[derive(Debug)]
pub struct Db {
    values: Vec<(String, DbValue)>,
}

impl View for Db {
    type V = Map<Seq<char>, SpecValue>;

    open spec fn view(&self) -> Map<Seq<char>, SpecValue> {
        map_of_pairs(self.pairs())
    }
}

impl Db {
    /// The store's entry list, in insertion order.
    pub closed spec fn pairs(&self) -> Seq<(Seq<char>, SpecValue)> {
        pairs_view(self.values@)
    }

    /// Well-formedness: no two entries share a key.
    pub open spec fn wf(&self) -> bool {
        unique_keys(self.pairs())
    }

    /// An empty store.
    pub fn new() -> (r: Db)
        ensures
            r.wf(),
            r@ == Map::<Seq<char>, SpecValue>::empty(),
            r.pairs() == Seq::<(Seq<char>, SpecValue)>::empty(),
    {
        Db { values: Vec::new() }
    }

    /// The position of `key`'s entry, if one stands in the list.
    fn find(&self, key: &str) -> (r: Option<usize>)
        ensures
            match r {
                Some(i) => i < self.values@.len() && self.values@[i as int].0@ == key@,
                None => forall|j: int|
                    0 <= j < self.values@.len() ==> (#[trigger] self.values@[j]).0@ != key@,
            },
    {
        let mut i: usize = 0;
        while i < self.values.len()
            invariant
                i <= self.values@.len(),
                forall|j: int| 0 <= j < i ==> (#[trigger] self.values@[j]).0@ != key@,
            decreases self.values@.len() - i,
        {
            if crate::text::str_eq(self.values[i].0.as_str(), key) {
                return Some(i);
            }
            i = i + 1;
        }
        None
    }

    /// Whether an expiration instant is past at instant `now`.
    pub fn is_expired(expiration: &Option<u64>, now: u64) -> (r: bool)
        ensures
            r == match *expiration {
                Some(e) => e <= now,
                None => false,
            },
    {
        match expiration {
            Some(e) => *e <= now,
            None => false,
        }
    }

    /// Binds `value` under `key`, unless the key is in use.  A present
    /// `ttl` attaches the absolute expiration instant `now + ttl`
    /// (saturating); an absent one makes the entry permanent, whatever
    /// expiration the value carried before.  The store rejects a key that
    /// is already bound rather than overwrite it.
    pub fn set(&mut self, key: String, value: DbValue, ttl: Option<u64>, now: u64) -> (r: Result<
        String,
        String,
    >)
        requires
            old(self).wf(),
        ensures
            final(self).wf(),
            ({
                let exp = exp_of(ttl, now);
                if old(self)@.contains_key(key@) {
                    &&& *final(self) == *old(self)
                    &&& res_view(r) == Result::<Seq<char>, Seq<char>>::Err(msg_key_in_use())
                } else {
                    &&& final(self)@ == old(self)@.insert(key@, view_of(value).with_exp(exp))
                    &&& final(self).pairs() == old(self).pairs().push(
                        (key@, view_of(value).with_exp(exp)),
                    )
                    &&& res_view(r) == Result::<Seq<char>, Seq<char>>::Ok(msg_ok())
                }
            }),
    {
        let exp = match ttl {
            Some(d) => Some(sat_add_exec(now, d)),
            None => None,
        };
        let stored = value.with_expiration(exp);
        proof {
            lemma_pairs_view_index(self.values@);
        }
        match self.find(key.as_str()) {
            Some(i) => {
                proof {
                    lemma_map_lookup(self.pairs(), i as int);
                }
                Err(String::from_str("Key already in use\n"))
            },
            None => {
                proof {
                    lemma_map_absent(self.pairs(), key@);
                }
                let ghost old_values = self.values@;
                self.values.push((key, stored));
                proof {
                    lemma_pairs_view_push(old_values, (key, stored));
                    lemma_map_of_pairs_push(pairs_view(old_values), (key@, view_of(stored)));
                    lemma_pairs_view_index(self.values@);
                }
                Ok(String::from_str("OK\n"))
            },
        }
    }

    /// Answers the value bound under `key`, rendered as a response line.
    /// Fails when the key is unbound, or bound but past its expiration at
    /// instant `now`; an expired entry is left in place for the sweep.
    pub fn get(&self, key: &str, now: u64) -> (r: Result<String, String>)
        requires
            self.wf(),
        ensures
            res_view(r) == get_spec(self@, key@, now),
    {
        proof {
            lemma_pairs_view_index(self.values@);
        }
        match self.find(key) {
            None => {
                proof {
                    lemma_map_absent(self.pairs(), key@);
                }
                Err(String::from_str("Key not found\n"))
            },
            Some(i) => {
                proof {
                    lemma_map_lookup(self.pairs(), i as int);
                }
                let v = &self.values[i].1;
                let e = v.expiration();
                if Db::is_expired(&e, now) {
                    Err(String::from_str("Key not found or expired\n"))
                } else {
                    let mut out: Vec<char> = Vec::new();
                    push_render(&mut out, v);
                    out.push('\n');
                    let s = chars_to_string(&out);
                    assert(s@ =~= render_spec(self@[key@]).push('\n'));
                    Ok(s)
                }
            },
        }
    }
}

/// The entries of `ps` that are not yet expired at instant `now`, in
/// their original order.
pub open spec fn keep_pairs(ps: Seq<(Seq<char>, SpecValue)>, now: u64) -> Seq<
    (Seq<char>, SpecValue),
>
    decreases ps.len(),
{
    if ps.len() == 0 {
        Seq::empty()
    } else {
        let rest = keep_pairs(ps.drop_last(), now);
        if expired_at(ps.last().1, now) {
            rest
        } else {
            rest.push(ps.last())
        }
    }
}

pub proof fn lemma_keep_pairs_push(ps: Seq<(Seq<char>, SpecValue)>, p: (Seq<char>, SpecValue), now: u64)
    ensures
        keep_pairs(ps.push(p), now) == if expired_at(p.1, now) {
            keep_pairs(ps, now)
        } else {
            keep_pairs(ps, now).push(p)
        },
{
    assert(ps.push(p).drop_last() =~= ps);
}

/// Sweeping keeps exactly the keys that are not yet expired, with their
/// values unchanged.
pub proof fn lemma_keep_pairs_map(ps: Seq<(Seq<char>, SpecValue)>, now: u64)
    requires
        unique_keys(ps),
    ensures
        unique_keys(keep_pairs(ps, now)),
        forall|k: Seq<char>| #[trigger]
            map_of_pairs(keep_pairs(ps, now)).contains_key(k) <==> (map_of_pairs(
                ps,
            ).contains_key(k) && !expired_at(map_of_pairs(ps)[k], now)),
        forall|k: Seq<char>| #[trigger]
            map_of_pairs(keep_pairs(ps, now)).contains_key(k) ==> map_of_pairs(
                keep_pairs(ps, now),
            )[k] == map_of_pairs(ps)[k],
    decreases ps.len(),
{
    if ps.len() > 0 {
        let rest = ps.drop_last();
        let last = ps.last();
        assert(unique_keys(rest));
        lemma_keep_pairs_map(rest, now);
        assert(forall|i: int| 0 <= i < rest.len() ==> (#[trigger] rest[i]).0 != last.0);
        lemma_map_absent(rest, last.0);
        let kept = keep_pairs(rest, now);
        assert forall|k: Seq<char>|
            #[trigger] map_of_pairs(kept).contains_key(k) implies exists|i: int|
            0 <= i < kept.len() && (#[trigger] kept[i]).0 == k by {
            lemma_map_dom(kept, k);
        }
        if !expired_at(last.1, now) {
            // the kept list still has no entry for the last key
            assert forall|i: int| 0 <= i < kept.len() implies (#[trigger] kept[i]).0 != last.0 by {
                if kept[i].0 == last.0 {
                    lemma_map_lookup(kept, i);
                    assert(map_of_pairs(kept).contains_key(last.0));
                    assert(map_of_pairs(rest).contains_key(last.0));
                }
            }
            assert(unique_keys(kept.push(last)));
            lemma_map_of_pairs_push(kept, last);
        }
    }
}

pub open spec fn msg_bad_snapshot() -> Seq<char> {
    "Failed to deserialize data\n"@
}

impl Db {
    /// The snapshot image of the whole store, ready to be written out.
    pub fn make_snap(&self) -> (r: String)
        ensures
            r@ == crate::snapshot::enc_snapshot(self.pairs()),
            crate::snapshot::bounded_pairs(self.pairs()),
            self.pairs().len() <= u64::MAX,
    {
        let mut out: Vec<char> = Vec::new();
        crate::text::push_nat_text(&mut out, self.values.len() as u64);
        out.push(';');
        crate::snapshot::push_enc_pairs(&mut out, &self.values, 0);
        proof {
            lemma_pairs_view_index(self.values@);
            assert(self.pairs().skip(0) =~= self.pairs());
            assert(out@ =~= crate::snapshot::enc_snapshot(self.pairs()));
        }
        chars_to_string(&out)
    }

    /// Whether the keys of `entries` are pairwise distinct.
    fn keys_unique(entries: &Vec<(String, DbValue)>) -> (r: bool)
        ensures
            r == unique_keys(pairs_view(entries@)),
    {
        proof {
            lemma_pairs_view_index(entries@);
        }
        let ghost ps = pairs_view(entries@);
        let mut i: usize = 0;
        while i < entries.len()
            invariant
                i <= entries@.len(),
                ps == pairs_view(entries@),
                ps.len() == entries@.len(),
                forall|a: int| 0 <= a < entries@.len() ==> #[trigger] ps[a]
                    == (entries@[a].0@, view_of(entries@[a].1)),
                forall|a: int, b: int| 0 <= a < b < i ==> ps[a].0 != ps[b].0,
            decreases entries@.len() - i,
        {
            let mut k: usize = 0;
            while k < i
                invariant
                    k <= i,
                    i < entries@.len(),
                    ps == pairs_view(entries@),
                    ps.len() == entries@.len(),
                    forall|a: int| 0 <= a < entries@.len() ==> #[trigger] ps[a]
                        == (entries@[a].0@, view_of(entries@[a].1)),
                    forall|a: int| 0 <= a < k ==> ps[a].0 != ps[i as int].0,
                decreases i - k,
            {
                if crate::text::str_eq(entries[k].0.as_str(), entries[i].0.as_str()) {
                    assert(ps[k as int].0 == ps[i as int].0);
                    return false;
                }
                k = k + 1;
            }
            i = i + 1;
        }
        true
    }

    /// Restores the store from a snapshot image.  On success the whole
    /// mapping is replaced by the image's; on any malformed image the
    /// store is left exactly as it was and an error is reported.
    pub fn get_snap(&mut self, data: &str) -> (r: Result<(), String>)
        ensures
            final(self).wf() || *final(self) == *old(self),
            match crate::snapshot::dec_snapshot(data@) {
                Some(ps) => if unique_keys(ps) {
                    r is Ok && final(self).pairs() == ps && final(self).wf()
                } else {
                    r is Err && *final(self) == *old(self)
                },
                None => r is Err && *final(self) == *old(self),
            },
            r matches Err(e) ==> e@ == msg_bad_snapshot(),
    {
        let chars = chars_of_str(data);
        match crate::text::take_number_exec(&chars, 0) {
            Some((n, j)) => {
                if j < chars.len() && chars.as_slice()[j] == ';' {
                    match crate::snapshot::dec_pairs_exec(&chars, j + 1, n) {
                        Some((es, j2)) => {
                            proof {
                                lemma_pairs_view_index(es@);
                            }
                            if j2 == chars.len() && Db::keys_unique(&es) {
                                self.values = es;
                                Ok(())
                            } else {
                                Err(String::from_str("Failed to deserialize data\n"))
                            }
                        },
                        None => Err(String::from_str("Failed to deserialize data\n")),
                    }
                } else {
                    Err(String::from_str("Failed to deserialize data\n"))
                }
            },
            None => Err(String::from_str("Failed to deserialize data\n")),
        }
    }

    /// Removes every entry whose expiration instant is at or before `now`;
    /// entries without an expiration, and not yet expired ones, stay
    /// untouched.
    pub fn remove_expired(&mut self, now: u64)
        requires
            old(self).wf(),
        ensures
            final(self).wf(),
            final(self).pairs() == keep_pairs(old(self).pairs(), now),
            forall|k: Seq<char>| #[trigger]
                final(self)@.contains_key(k) <==> (old(self)@.contains_key(k) && !expired_at(
                    old(self)@[k],
                    now,
                )),
            forall|k: Seq<char>| #[trigger]
                final(self)@.contains_key(k) ==> final(self)@[k] == old(self)@[k],
    {
        let ghost orig = self.values@;
        let mut kept: Vec<(String, DbValue)> = Vec::new();
        let ghost mut done: int = 0;
        proof {
            assert(self.values@ =~= orig.skip(0));
            assert(orig.take(0) =~= Seq::empty());
        }
        while self.values.len() > 0
            invariant
                0 <= done <= orig.len(),
                self.values@ == orig.skip(done),
                pairs_view(kept@) == keep_pairs(pairs_view(orig.take(done)), now),
            decreases self.values@.len(),
        {
            let entry = self.values.remove(0);
            proof {
                assert(orig.skip(done)[0] == orig[done]);
            }
            let e = entry.1.expiration();
            let ghost prefix = orig.take(done);
            let ghost kept_old = kept@;
            let expired = Db::is_expired(&e, now);
            if !expired {
                kept.push(entry);
            }
            proof {
                let prefix2 = orig.take(done + 1);
                assert(prefix2.drop_last() =~= prefix);
                assert(prefix2.last() == orig[done]);
                lemma_pairs_view_push(prefix, orig[done]);
                assert(prefix.push(orig[done]) =~= prefix2);
                lemma_keep_pairs_push(
                    pairs_view(prefix),
                    (orig[done].0@, view_of(orig[done].1)),
                    now,
                );
                if !expired {
                    lemma_pairs_view_push(kept_old, orig[done]);
                    assert(kept@ == kept_old.push(entry));
                }
                done = done + 1;
                assert(self.values@ =~= orig.skip(done));
            }
        }
        proof {
            assert(orig.take(done) =~= orig);
        }
        self.values = kept;
        proof {
            lemma_keep_pairs_map(pairs_view(orig), now);
        }
    }
}

} // verus!
