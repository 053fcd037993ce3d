//! Typed range filters over player records: a comparison operator with a
//! bound, parsed from `,`-separated query strings such as `>=10,<100`, and
//! a restriction that combines per-field filters. Durations are compared
//! as whole seconds and timestamps as unix seconds.

use vstd::prelude::*;

use crate::ascii_bytes;
use crate::db::{DBPlayer, Flag};
use crate::decode::{spec_dec_value, COMMA};

verus! {

/// A comparison operator of a range filter.
#[derive(Debug, Clone, Copy, PartialEq, Eq)]
pub enum Operator {
    LessThan,
    GreaterThan,
    EqualTo,
    NotEqualTo,
    LessThanEqualTo,
    GreaterThanEqualTo,
}

impl Operator {
    /// The operator's symbol, as written in query strings and SQL.
    pub open spec fn spec_symbol(self) -> Seq<char> {
        match self {
            Operator::LessThan => "<"@,
            Operator::GreaterThan => ">"@,
            Operator::EqualTo => "="@,
            Operator::NotEqualTo => "!="@,
            Operator::LessThanEqualTo => "<="@,
            Operator::GreaterThanEqualTo => ">="@,
        }
    }

    /// The operator's symbol.
    pub fn symbol(&self) -> (r: String)
        ensures
            r@ == self.spec_symbol(),
    {
        match self {
            Operator::LessThan => String::from_str("<"),
            Operator::GreaterThan => String::from_str(">"),
            Operator::EqualTo => String::from_str("="),
            Operator::NotEqualTo => String::from_str("!="),
            Operator::LessThanEqualTo => String::from_str("<="),
            Operator::GreaterThanEqualTo => String::from_str(">="),
        }
    }
}

/// What a comparison under `op` means, over unbounded integers.
pub open spec fn spec_cmp(op: Operator, val: int, bound: int) -> bool {
    match op {
        Operator::LessThan => val < bound,
        Operator::GreaterThan => val > bound,
        Operator::EqualTo => val == bound,
        Operator::NotEqualTo => val != bound,
        Operator::LessThanEqualTo => val <= bound,
        Operator::GreaterThanEqualTo => val >= bound,
    }
}

/// One range filter: a comparison operator and its bound.
#[derive(Debug, Clone, Copy, PartialEq, Eq)]
pub struct Query<T> {
    pub operator: Operator,
    pub val: T,
}

impl Query<u64> {
    /// Whether `val` satisfies this filter.
    pub fn matches(&self, val: &u64) -> (r: bool)
        ensures
            r == spec_cmp(self.operator, *val as int, self.val as int),
    {
        match self.operator {
            Operator::LessThan => *val < self.val,
            Operator::GreaterThan => *val > self.val,
            Operator::EqualTo => *val == self.val,
            Operator::NotEqualTo => *val != self.val,
            Operator::LessThanEqualTo => *val <= self.val,
            Operator::GreaterThanEqualTo => *val >= self.val,
        }
    }
}

impl Query<i64> {
    /// Whether `val` satisfies this filter.
    pub fn matches(&self, val: &i64) -> (r: bool)
        ensures
            r == spec_cmp(self.operator, *val as int, self.val as int),
    {
        match self.operator {
            Operator::LessThan => *val < self.val,
            Operator::GreaterThan => *val > self.val,
            Operator::EqualTo => *val == self.val,
            Operator::NotEqualTo => *val != self.val,
            Operator::LessThanEqualTo => *val <= self.val,
            Operator::GreaterThanEqualTo => *val >= self.val,
        }
    }
}

/// Every filter in `qs` holds of `val`.
pub open spec fn spec_all_match_i64(qs: Seq<Query<i64>>, val: int) -> bool {
    forall|i: int|
        0 <= i < qs.len() ==> spec_cmp((#[trigger] qs[i]).operator, val, qs[i].val as int)
}

/// Every filter in `qs` holds of `val`.
pub open spec fn spec_all_match_u64(qs: Seq<Query<u64>>, val: int) -> bool {
    forall|i: int|
        0 <= i < qs.len() ==> spec_cmp((#[trigger] qs[i]).operator, val, qs[i].val as int)
}

fn all_match_i64(qs: &Vec<Query<i64>>, val: i64) -> (r: bool)
    ensures
        r == spec_all_match_i64(qs@, val as int),
{
    let mut i: usize = 0;
    while i < qs.len()
        invariant
            i <= qs@.len(),
            forall|j: int|
                0 <= j < i ==> spec_cmp((#[trigger] qs@[j]).operator, val as int, qs@[j].val as int),
        decreases qs@.len() - i,
    {
        if !qs[i].matches(&val) {
            return false;
        }
        i = i + 1;
    }
    true
}

fn all_match_u64(qs: &Vec<Query<u64>>, val: u64) -> (r: bool)
    ensures
        r == spec_all_match_u64(qs@, val as int),
{
    let mut i: usize = 0;
    while i < qs.len()
        invariant
            i <= qs@.len(),
            forall|j: int|
                0 <= j < i ==> spec_cmp((#[trigger] qs@[j]).operator, val as int, qs@[j].val as int),
        decreases qs@.len() - i,
    {
        if !qs[i].matches(&val) {
            return false;
        }
        i = i + 1;
    }
    true
}

/// The player carries flag `f`.
pub open spec fn spec_has_flag(flags: Seq<Flag>, f: i64) -> bool {
    exists|j: int| 0 <= j < flags.len() && (#[trigger] flags[j]).flag == f
}

fn has_flag(flags: &Vec<Flag>, f: i64) -> (r: bool)
    ensures
        r == spec_has_flag(flags@, f),
{
    let mut i: usize = 0;
    while i < flags.len()
        invariant
            i <= flags@.len(),
            forall|j: int| 0 <= j < i ==> (#[trigger] flags@[j]).flag != f,
        decreases flags@.len() - i,
    {
        if flags[i].flag == f {
            return true;
        }
        i = i + 1;
    }
    false
}

/// Prepend a byte onto the first part.
pub open spec fn front_extended(c: u8, parts: Seq<Seq<u8>>) -> Seq<Seq<u8>> {
    parts.update(0, seq![c] + parts[0])
}

/// Plain split on a separator byte — no escapes; what query strings are
/// split with. An empty input yields one empty part.
pub open spec fn spec_split(s: Seq<u8>, sep: u8) -> Seq<Seq<u8>>
    decreases s.len(),
{
    if s.len() == 0 {
        seq![Seq::<u8>::empty()]
    } else if s[0] == sep {
        seq![Seq::<u8>::empty()] + spec_split(s.skip(1), sep)
    } else {
        front_extended(s[0], spec_split(s.skip(1), sep))
    }
}

proof fn lemma_split_nonempty(s: Seq<u8>, sep: u8)
    ensures
        spec_split(s, sep).len() >= 1,
    decreases s.len(),
{
    if s.len() > 0 {
        lemma_split_nonempty(s.skip(1), sep);
    }
}

proof fn lemma_front_extended_compose(a: Seq<u8>, b: Seq<u8>, parts: Seq<Seq<u8>>)
    requires
        parts.len() >= 1,
    ensures
        front_ext(a, front_ext(b, parts)) == front_ext(a + b, parts),
{
    assert(a + (b + parts[0]) =~= (a + b) + parts[0]);
    assert(front_ext(a, front_ext(b, parts)) =~= front_ext(a + b, parts));
}

/// Prepend a whole prefix onto the first part.
pub open spec fn front_ext(pre: Seq<u8>, parts: Seq<Seq<u8>>) -> Seq<Seq<u8>> {
    parts.update(0, pre + parts[0])
}

proof fn lemma_front_ext_concat(pre: Seq<u8>, head: Seq<u8>, rest: Seq<Seq<u8>>)
    ensures
        front_ext(pre, seq![head] + rest) == seq![pre + head] + rest,
{
    assert(front_ext(pre, seq![head] + rest) =~= seq![pre + head] + rest);
}

proof fn lemma_front_ext_nil(parts: Seq<Seq<u8>>)
    requires
        parts.len() >= 1,
    ensures
        front_ext(Seq::<u8>::empty(), parts) == parts,
{
    assert(Seq::<u8>::empty() + parts[0] =~= parts[0]);
    assert(front_ext(Seq::<u8>::empty(), parts) =~= parts);
}

/// Split `s` on every occurrence of `sep`, keeping empty parts.
pub fn split_plain(s: &[u8], sep: u8) -> (r: Vec<Vec<u8>>)
    ensures
        r.deep_view() == spec_split(s@, sep),
{
    let mut parts: Vec<Vec<u8>> = Vec::new();
    let mut cur: Vec<u8> = Vec::new();
    let mut i: usize = 0;
    proof {
        lemma_split_nonempty(s@, sep);
        assert(s@.skip(0) =~= s@);
        lemma_front_ext_nil(spec_split(s@, sep));
        assert(parts.deep_view() + spec_split(s@, sep) =~= spec_split(s@, sep));
    }
    while i < s.len()
        invariant
            i <= s@.len(),
            spec_split(s@, sep) == parts.deep_view() + front_ext(
                cur@,
                spec_split(s@.skip(i as int), sep),
            ),
        decreases s@.len() - i,
    {
        let ghost pre = s@.skip(i as int);
        proof {
            assert(pre[0] == s@[i as int]);
            assert(pre.skip(1) =~= s@.skip(i as int + 1));
            lemma_split_nonempty(s@.skip(i as int + 1), sep);
        }
        let c = s[i];
        if c == sep {
            proof {
                lemma_front_ext_concat(
                    cur@,
                    Seq::<u8>::empty(),
                    spec_split(s@.skip(i as int + 1), sep),
                );
                assert(cur@ + Seq::<u8>::empty() =~= cur@);
                lemma_front_ext_nil(spec_split(s@.skip(i as int + 1), sep));
                assert(parts.deep_view().push(cur@) =~= parts.deep_view() + seq![cur@]);
                assert(parts.deep_view() + seq![cur@] + spec_split(s@.skip(i as int + 1), sep)
                    =~= parts.deep_view() + (seq![cur@] + spec_split(s@.skip(i as int + 1), sep)));
            }
            let ghost prev_deep = parts.deep_view();
            let ghost curv = cur@;
            parts.push(cur);
            proof {
                assert(parts.deep_view() =~~= prev_deep.push(curv));
            }
            cur = Vec::new();
            i = i + 1;
        } else {
            proof {
                lemma_front_extended_compose(
                    cur@,
                    seq![s@[i as int]],
                    spec_split(s@.skip(i as int + 1), sep),
                );
                assert(front_extended(s@[i as int], spec_split(s@.skip(i as int + 1), sep))
                    == front_ext(seq![s@[i as int]], spec_split(s@.skip(i as int + 1), sep)));
                assert(cur@ + seq![s@[i as int]] =~= cur@.push(s@[i as int]));
            }
            cur.push(c);
            i = i + 1;
        }
    }
    proof {
        assert(s@.skip(i as int) =~= Seq::<u8>::empty());
        assert(spec_split(s@.skip(i as int), sep) == seq![Seq::<u8>::empty()]);
        assert(seq![Seq::<u8>::empty()] =~= seq![Seq::<u8>::empty()] + Seq::<Seq<u8>>::empty());
        lemma_front_ext_concat(cur@, Seq::<u8>::empty(), Seq::<Seq<u8>>::empty());
        assert(cur@ + Seq::<u8>::empty() =~= cur@);
        assert(seq![cur@] + Seq::<Seq<u8>>::empty() =~= seq![cur@]);
        assert(parts.deep_view().push(cur@) =~= parts.deep_view() + seq![cur@]);
    }
    let ghost prev_deep = parts.deep_view();
    let ghost curv = cur@;
    parts.push(cur);
    proof {
        assert(parts.deep_view() =~~= prev_deep.push(curv));
    }
    parts
}

/// The operator named by a one- or two-byte symbol, if any.
pub open spec fn spec_operator_of(s: Seq<u8>) -> Option<Operator> {
    if s.len() == 1 {
        if s[0] == 61 {
            Some(Operator::EqualTo)
        } else if s[0] == 62 {
            Some(Operator::GreaterThan)
        } else if s[0] == 60 {
            Some(Operator::LessThan)
        } else {
            None
        }
    } else if s.len() == 2 && s[1] == 61 {
        if s[0] == 62 {
            Some(Operator::GreaterThanEqualTo)
        } else if s[0] == 60 {
            Some(Operator::LessThanEqualTo)
        } else if s[0] == 33 {
            Some(Operator::NotEqualTo)
        } else {
            None
        }
    } else {
        None
    }
}

/// How many bytes of an item name its operator: two when the second byte
/// is `=`, else one.
pub open spec fn spec_oplen(f: Seq<u8>) -> int {
    if f[1] == 61 {
        2
    } else {
        1
    }
}

/// One item of an unsigned query string: at least two bytes, the leading
/// operator symbol, then an unsigned bound.
pub open spec fn spec_query_item_u64(f: Seq<u8>) -> Option<Query<u64>> {
    if f.len() < 2 {
        None
    } else {
        match spec_operator_of(f.take(spec_oplen(f))) {
            None => None,
            Some(op) => match spec_dec_value(f.skip(spec_oplen(f))) {
                Some(v) => if v <= u64::MAX {
                    Some(Query { operator: op, val: v as u64 })
                } else {
                    None
                },
                None => None,
            },
        }
    }
}

/// One item of a duration query string: the bound is a signed number of
/// seconds.
pub open spec fn spec_query_item_seconds(f: Seq<u8>) -> Option<Query<i64>> {
    if f.len() < 2 {
        None
    } else {
        match spec_operator_of(f.take(spec_oplen(f))) {
            None => None,
            Some(op) => match crate::decode::spec_signed_value(f.skip(spec_oplen(f))) {
                Some(v) => if i64::MIN <= v <= i64::MAX {
                    Some(Query { operator: op, val: v as i64 })
                } else {
                    None
                },
                None => None,
            },
        }
    }
}

/// Whether a byte string is a valid RFC 3339 timestamp and which unix
/// second it names: both depend on the bytes alone.
pub uninterp spec fn rfc3339_ts_of(s: Seq<u8>) -> Option<int>;

/// Relies on time's `OffsetDateTime::parse` with the `Rfc3339` well-known
/// format: parsing a byte string either fails or yields a date-time whose
/// `unix_timestamp` is a function of the bytes alone.
#[verifier::external_body]
fn parse_rfc3339(s: &[u8]) -> (r: Option<i64>)
    ensures
        match r {
            Some(v) => rfc3339_ts_of(s@) == Some(v as int),
            None => rfc3339_ts_of(s@) is None,
        },
{
    match core::str::from_utf8(s) {
        Ok(t) => match time::OffsetDateTime::parse(
            t,
            &time::format_description::well_known::Rfc3339,
        ) {
            Ok(dt) => Some(dt.unix_timestamp()),
            Err(_) => None,
        },
        Err(_) => None,
    }
}

/// One item of a date query string: the bound is an RFC 3339 timestamp,
/// compared as its unix second.
pub open spec fn spec_query_item_date(f: Seq<u8>) -> Option<Query<i64>> {
    if f.len() < 2 {
        None
    } else {
        match spec_operator_of(f.take(spec_oplen(f))) {
            None => None,
            Some(op) => match rfc3339_ts_of(f.skip(spec_oplen(f))) {
                Some(v) => if i64::MIN <= v <= i64::MAX {
                    Some(Query { operator: op, val: v as i64 })
                } else {
                    None
                },
                None => None,
            },
        }
    }
}

/// The filters named by the parts of an unsigned query string, in order;
/// malformed parts are dropped.
pub open spec fn spec_queries_u64(parts: Seq<Seq<u8>>) -> Seq<Query<u64>>
    decreases parts.len(),
{
    if parts.len() == 0 {
        Seq::<Query<u64>>::empty()
    } else {
        match spec_query_item_u64(parts[0]) {
            Some(q) => seq![q] + spec_queries_u64(parts.skip(1)),
            None => spec_queries_u64(parts.skip(1)),
        }
    }
}

/// The filters named by the parts of a duration query string.
pub open spec fn spec_queries_seconds(parts: Seq<Seq<u8>>) -> Seq<Query<i64>>
    decreases parts.len(),
{
    if parts.len() == 0 {
        Seq::<Query<i64>>::empty()
    } else {
        match spec_query_item_seconds(parts[0]) {
            Some(q) => seq![q] + spec_queries_seconds(parts.skip(1)),
            None => spec_queries_seconds(parts.skip(1)),
        }
    }
}

/// The filters named by the parts of a date query string.
pub open spec fn spec_queries_date(parts: Seq<Seq<u8>>) -> Seq<Query<i64>>
    decreases parts.len(),
{
    if parts.len() == 0 {
        Seq::<Query<i64>>::empty()
    } else {
        match spec_query_item_date(parts[0]) {
            Some(q) => seq![q] + spec_queries_date(parts.skip(1)),
            None => spec_queries_date(parts.skip(1)),
        }
    }
}

/// Parse the leading operator of a query item of length at least two;
/// returns the operator and how many bytes it took.
fn parse_operator(f: &[u8]) -> (r: Option<(Operator, usize)>)
    requires
        f@.len() >= 2,
    ensures
        match spec_operator_of(f@.take(spec_oplen(f@))) {
            Some(op) => r matches Some(p) && p.0 == op && p.1 == spec_oplen(f@),
            None => r is None,
        },
{
    let oplen: usize = if f[1] == 61 {
        2
    } else {
        1
    };
    proof {
        assert(f@.take(1)[0] == f@[0]);
        assert(f@.take(2)[0] == f@[0] && f@.take(2)[1] == f@[1]);
    }
    if oplen == 1 {
        if f[0] == 61 {
            Some((Operator::EqualTo, 1))
        } else if f[0] == 62 {
            Some((Operator::GreaterThan, 1))
        } else if f[0] == 60 {
            Some((Operator::LessThan, 1))
        } else {
            None
        }
    } else {
        if f[0] == 62 {
            Some((Operator::GreaterThanEqualTo, 2))
        } else if f[0] == 60 {
            Some((Operator::LessThanEqualTo, 2))
        } else if f[0] == 33 {
            Some((Operator::NotEqualTo, 2))
        } else {
            None
        }
    }
}

fn query_item_u64(f: &[u8]) -> (r: Option<Query<u64>>)
    ensures
        r == spec_query_item_u64(f@),
{
    if f.len() < 2 {
        return None;
    }
    match parse_operator(f) {
        None => None,
        Some((op, oplen)) => {
            let rest = vstd::slice::slice_subrange(f, oplen, f.len());
            match crate::decode::parse_u64_digits(rest) {
                Some(v) => Some(Query { operator: op, val: v }),
                None => None,
            }
        },
    }
}

fn query_item_seconds(f: &[u8]) -> (r: Option<Query<i64>>)
    ensures
        r == spec_query_item_seconds(f@),
{
    if f.len() < 2 {
        return None;
    }
    match parse_operator(f) {
        None => None,
        Some((op, oplen)) => {
            let rest = vstd::slice::slice_subrange(f, oplen, f.len());
            match crate::decode::parse_i64_digits(rest) {
                Some(v) => Some(Query { operator: op, val: v }),
                None => None,
            }
        },
    }
}

fn query_item_date(f: &[u8]) -> (r: Option<Query<i64>>)
    ensures
        r == spec_query_item_date(f@),
{
    if f.len() < 2 {
        return None;
    }
    match parse_operator(f) {
        None => None,
        Some((op, oplen)) => {
            let rest = vstd::slice::slice_subrange(f, oplen, f.len());
            match parse_rfc3339(rest) {
                Some(v) => Some(Query { operator: op, val: v }),
                None => None,
            }
        },
    }
}

/// Parse a `,`-separated unsigned query string such as `>=10,<100`:
/// each item is an operator symbol followed by an unsigned bound;
/// malformed items are dropped.
pub fn create_query_from_str(s: &[u8]) -> (r: Vec<Query<u64>>)
    ensures
        r@ == spec_queries_u64(spec_split(s@, COMMA)),
{
    let parts = split_plain(s, COMMA);
    let ghost gp = spec_split(s@, COMMA);
    let mut r: Vec<Query<u64>> = Vec::new();
    let mut i: usize = 0;
    proof {
        assert(gp.skip(0) =~= gp);
        assert(r@ + spec_queries_u64(gp) =~= spec_queries_u64(gp));
    }
    while i < parts.len()
        invariant
            i <= parts@.len(),
            parts.deep_view() == gp,
            gp.len() == parts@.len(),
            spec_queries_u64(gp) == r@ + spec_queries_u64(gp.skip(i as int)),
        decreases parts@.len() - i,
    {
        proof {
            assert(gp.skip(i as int)[0] == gp[i as int]);
            assert(gp.skip(i as int).skip(1) =~= gp.skip(i as int + 1));
            assert(parts.deep_view()[i as int] == parts@[i as int]@);
        }
        match query_item_u64(parts[i].as_slice()) {
            Some(q) => {
                proof {
                    assert(r@.push(q) =~= r@ + seq![q]);
                    assert(r@ + (seq![q] + spec_queries_u64(gp.skip(i as int + 1))) =~= (r@ + seq![
                        q,
                    ]) + spec_queries_u64(gp.skip(i as int + 1)));
                }
                r.push(q);
            },
            None => {},
        }
        i = i + 1;
    }
    proof {
        assert(gp.skip(i as int) =~= Seq::<Seq<u8>>::empty());
        assert(r@ + spec_queries_u64(gp.skip(i as int)) =~= r@);
    }
    r
}

/// Parse a `,`-separated duration query string: each bound is a signed
/// number of whole seconds; malformed items are dropped.
pub fn create_duration_query_from_str(s: &[u8]) -> (r: Vec<Query<i64>>)
    ensures
        r@ == spec_queries_seconds(spec_split(s@, COMMA)),
{
    let parts = split_plain(s, COMMA);
    let ghost gp = spec_split(s@, COMMA);
    let mut r: Vec<Query<i64>> = Vec::new();
    let mut i: usize = 0;
    proof {
        assert(gp.skip(0) =~= gp);
        assert(r@ + spec_queries_seconds(gp) =~= spec_queries_seconds(gp));
    }
    while i < parts.len()
        invariant
            i <= parts@.len(),
            parts.deep_view() == gp,
            gp.len() == parts@.len(),
            spec_queries_seconds(gp) == r@ + spec_queries_seconds(gp.skip(i as int)),
        decreases parts@.len() - i,
    {
        proof {
            assert(gp.skip(i as int)[0] == gp[i as int]);
            assert(gp.skip(i as int).skip(1) =~= gp.skip(i as int + 1));
            assert(parts.deep_view()[i as int] == parts@[i as int]@);
        }
        match query_item_seconds(parts[i].as_slice()) {
            Some(q) => {
                proof {
                    assert(r@.push(q) =~= r@ + seq![q]);
                    assert(r@ + (seq![q] + spec_queries_seconds(gp.skip(i as int + 1))) =~= (r@
                        + seq![q]) + spec_queries_seconds(gp.skip(i as int + 1)));
                }
                r.push(q);
            },
            None => {},
        }
        i = i + 1;
    }
    proof {
        assert(gp.skip(i as int) =~= Seq::<Seq<u8>>::empty());
        assert(r@ + spec_queries_seconds(gp.skip(i as int)) =~= r@);
    }
    r
}

/// Parse a `,`-separated date query string: each bound is an RFC 3339
/// timestamp, compared as its unix second; malformed items are dropped.
pub fn create_date_query_from_str(s: &[u8]) -> (r: Vec<Query<i64>>)
    ensures
        r@ == spec_queries_date(spec_split(s@, COMMA)),
{
    let parts = split_plain(s, COMMA);
    let ghost gp = spec_split(s@, COMMA);
    let mut r: Vec<Query<i64>> = Vec::new();
    let mut i: usize = 0;
    proof {
        assert(gp.skip(0) =~= gp);
        assert(r@ + spec_queries_date(gp) =~= spec_queries_date(gp));
    }
    while i < parts.len()
        invariant
            i <= parts@.len(),
            parts.deep_view() == gp,
            gp.len() == parts@.len(),
            spec_queries_date(gp) == r@ + spec_queries_date(gp.skip(i as int)),
        decreases parts@.len() - i,
    {
        proof {
            assert(gp.skip(i as int)[0] == gp[i as int]);
            assert(gp.skip(i as int).skip(1) =~= gp.skip(i as int + 1));
            assert(parts.deep_view()[i as int] == parts@[i as int]@);
        }
        match query_item_date(parts[i].as_slice()) {
            Some(q) => {
                proof {
                    assert(r@.push(q) =~= r@ + seq![q]);
                    assert(r@ + (seq![q] + spec_queries_date(gp.skip(i as int + 1))) =~= (r@
                        + seq![q]) + spec_queries_date(gp.skip(i as int + 1)));
                }
                r.push(q);
            },
            None => {},
        }
        i = i + 1;
    }
    proof {
        assert(gp.skip(i as int) =~= Seq::<Seq<u8>>::empty());
        assert(r@ + spec_queries_date(gp.skip(i as int)) =~= r@);
    }
    r
}

/// The flags named by the parts of a flags query string: every part that
/// parses as a signed integer, in order.
pub open spec fn spec_flags_list(parts: Seq<Seq<u8>>) -> Seq<i64>
    decreases parts.len(),
{
    if parts.len() == 0 {
        Seq::<i64>::empty()
    } else {
        match crate::decode::spec_signed_value(parts[0]) {
            Some(v) => if i64::MIN <= v <= i64::MAX {
                seq![v as i64] + spec_flags_list(parts.skip(1))
            } else {
                spec_flags_list(parts.skip(1))
            },
            None => spec_flags_list(parts.skip(1)),
        }
    }
}

fn parse_flags_list(s: &[u8]) -> (r: Vec<i64>)
    ensures
        r@ == spec_flags_list(spec_split(s@, COMMA)),
{
    let parts = split_plain(s, COMMA);
    let ghost gp = spec_split(s@, COMMA);
    let mut r: Vec<i64> = Vec::new();
    let mut i: usize = 0;
    proof {
        assert(gp.skip(0) =~= gp);
        assert(r@ + spec_flags_list(gp) =~= spec_flags_list(gp));
    }
    while i < parts.len()
        invariant
            i <= parts@.len(),
            parts.deep_view() == gp,
            gp.len() == parts@.len(),
            spec_flags_list(gp) == r@ + spec_flags_list(gp.skip(i as int)),
        decreases parts@.len() - i,
    {
        proof {
            assert(gp.skip(i as int)[0] == gp[i as int]);
            assert(gp.skip(i as int).skip(1) =~= gp.skip(i as int + 1));
            assert(parts.deep_view()[i as int] == parts@[i as int]@);
        }
        match crate::decode::parse_i64_digits(parts[i].as_slice()) {
            Some(v) => {
                proof {
                    assert(r@.push(v) =~= r@ + seq![v]);
                    assert(r@ + (seq![v] + spec_flags_list(gp.skip(i as int + 1))) =~= (r@ + seq![
                        v,
                    ]) + spec_flags_list(gp.skip(i as int + 1)));
                }
                r.push(v);
            },
            None => {},
        }
        i = i + 1;
    }
    proof {
        assert(gp.skip(i as int) =~= Seq::<Seq<u8>>::empty());
        assert(r@ + spec_flags_list(gp.skip(i as int)) =~= r@);
    }
    r
}

/// A combined filter over player records: required flags and per-field
/// range filters, all of which must hold.
#[derive(Debug, Clone, PartialEq, Eq)]
pub struct Restriction {
    pub flags: Vec<i64>,
    pub play_time: Vec<Query<i64>>,
    pub time_online: Vec<Query<i64>>,
    pub login_amt: Vec<Query<u64>>,
    pub first_seen: Vec<Query<i64>>,
    pub last_seen: Vec<Query<i64>>,
}

/// The restriction holds of the player: every required flag is carried
/// and every range filter is satisfied by its field.
pub open spec fn spec_restriction_matches(r: Restriction, p: DBPlayer) -> bool {
    &&& forall|i: int| 0 <= i < r.flags@.len() ==> spec_has_flag(p.flags@, #[trigger] r.flags@[i])
    &&& spec_all_match_i64(r.play_time@, p.play_time as int)
    &&& spec_all_match_i64(r.time_online@, p.time_online as int)
    &&& spec_all_match_u64(r.login_amt@, p.login_amt as int)
    &&& spec_all_match_i64(r.first_seen@, p.first_seen as int)
    &&& spec_all_match_i64(r.last_seen@, p.last_seen as int)
}

impl Restriction {
    /// Whether the player satisfies every part of this restriction.
    pub fn matches(&self, player: &DBPlayer) -> (r: bool)
        ensures
            r == spec_restriction_matches(*self, *player),
    {
        let mut i: usize = 0;
        while i < self.flags.len()
            invariant
                i <= self.flags@.len(),
                forall|j: int| 0 <= j < i ==> spec_has_flag(player.flags@, #[trigger] self.flags@[j]),
            decreases self.flags@.len() - i,
        {
            if !has_flag(&player.flags, self.flags[i]) {
                return false;
            }
            i = i + 1;
        }
        if !all_match_i64(&self.play_time, player.play_time) {
            return false;
        }
        if !all_match_i64(&self.time_online, player.time_online) {
            return false;
        }
        if !all_match_u64(&self.login_amt, player.login_amt) {
            return false;
        }
        if !all_match_i64(&self.first_seen, player.first_seen) {
            return false;
        }
        if !all_match_i64(&self.last_seen, player.last_seen) {
            return false;
        }
        true
    }
}

/// The decimal form of a signed value: a `-` sign when negative, then
/// the digits of the magnitude.
pub open spec fn spec_signed_digits(v: int) -> Seq<u8> {
    if v < 0 {
        seq![45u8] + crate::northwood::spec_dec_digits((-v) as nat)
    } else {
        crate::northwood::spec_dec_digits(v as nat)
    }
}

/// The decimal form of a signed 64-bit value.
pub fn i64_dec_bytes(n: i64) -> (r: Vec<u8>)
    ensures
        r@ == spec_signed_digits(n as int),
{
    if n < 0 {
        let mag: u64 = if n == i64::MIN {
            9223372036854775808u64
        } else {
            (-n) as u64
        };
        let mut r: Vec<u8> = Vec::new();
        r.push(45);
        let mut digits = crate::northwood::u64_dec_bytes(mag);
        r.append(&mut digits);
        proof {
            assert(r@ =~= spec_signed_digits(n as int));
        }
        r
    } else {
        crate::northwood::u64_dec_bytes(n as u64)
    }
}

/// Join byte strings with a multi-byte separator.
pub open spec fn spec_join_bytes(parts: Seq<Seq<u8>>, sep: Seq<u8>) -> Seq<u8>
    decreases parts.len(),
{
    if parts.len() == 0 {
        Seq::<u8>::empty()
    } else if parts.len() == 1 {
        parts[0]
    } else {
        parts[0] + sep + spec_join_bytes(parts.skip(1), sep)
    }
}

fn join_bytes(parts: &Vec<Vec<u8>>, sep: &[u8]) -> (r: Vec<u8>)
    ensures
        r@ == spec_join_bytes(parts.deep_view(), sep@),
{
    let ghost m = parts.deep_view();
    let mut r: Vec<u8> = Vec::new();
    let mut i: usize = 0;
    while i < parts.len()
        invariant
            i <= parts@.len(),
            m == parts.deep_view(),
            m.len() == parts@.len(),
            if i == 0 {
                r@ == Seq::<u8>::empty()
            } else if i < m.len() {
                spec_join_bytes(m, sep@) == r@ + sep@ + spec_join_bytes(m.skip(i as int), sep@)
            } else {
                spec_join_bytes(m, sep@) == r@
            },
        decreases parts@.len() - i,
    {
        proof {
            assert(m[i as int] == parts@[i as int].deep_view());
            assert(parts@[i as int].deep_view() =~= parts@[i as int]@);
            if i > 0 {
                assert(m.skip(i as int)[0] == m[i as int]);
                assert(m.skip(i as int).skip(1) =~= m.skip(i as int + 1));
            } else {
                assert(m.skip(0) =~= m);
                assert(m[0] == m.skip(0)[0]);
                assert(m.skip(1) =~= m.skip(0).skip(1));
            }
        }
        if i > 0 {
            let mut sv = vstd::slice::slice_to_vec(sep);
            r.append(&mut sv);
        }
        let mut part = parts[i].clone();
        proof {
            assert(part@ =~= parts@[i as int]@);
        }
        r.append(&mut part);
        proof {
            if i + 1 < parts.len() {
                assert(spec_join_bytes(m.skip(i as int), sep@) == m[i as int] + sep@
                    + spec_join_bytes(m.skip(i as int + 1), sep@));
            } else {
                assert(m.skip(i as int).len() == 1);
                assert(spec_join_bytes(m.skip(i as int), sep@) == m[i as int]);
            }
        }
        i = i + 1;
    }
    proof {
        if m.len() == 0 {
            assert(r@ =~= spec_join_bytes(m, sep@));
        }
    }
    r
}

/// The SQL condition requiring a flag: a containment test on the stored
/// flag array.
pub open spec fn spec_flag_clause(f: i64) -> Seq<u8> {
    ascii_bytes("jsonb_path_query_array(flags, '$[*].flag') @> '"@) + spec_signed_digits(f as int)
        + ascii_bytes("'"@)
}

/// The SQL condition of a seconds-valued filter on `field`.
pub open spec fn spec_secs_clause(field: Seq<char>, q: Query<i64>) -> Seq<u8> {
    ascii_bytes(field) + seq![32u8] + ascii_bytes(q.operator.spec_symbol()) + seq![32u8, 39u8]
        + spec_signed_digits(q.val as int) + seq![39u8]
}

/// The SQL condition of the login-count filter: the bound is stored in
/// the signed id space.
pub open spec fn spec_amt_clause(q: Query<u64>) -> Seq<u8> {
    ascii_bytes("login_amt "@) + ascii_bytes(q.operator.spec_symbol()) + seq![32u8]
        + spec_signed_digits(q.val as int - crate::db::ID_SHIFT)
}

/// The SQL condition of a date-valued filter on `field`: the bound is
/// rendered as an RFC 3339 timestamp.
pub open spec fn spec_date_clause(field: Seq<char>, q: Query<i64>) -> Seq<u8> {
    ascii_bytes(field) + seq![32u8] + ascii_bytes(q.operator.spec_symbol()) + seq![32u8, 39u8]
        + rfc3339_of(q.val as int) + seq![39u8]
}

/// The RFC 3339 rendering of a unix second: a function of the timestamp
/// alone.
pub uninterp spec fn rfc3339_of(ts: int) -> Seq<u8>;

/// Relies on time's `OffsetDateTime::from_unix_timestamp` and `format`
/// with the `Rfc3339` well-known description: both succeed for
/// timestamps whose year lies in 0..=9999, and the rendered text depends
/// on the timestamp alone.
#[verifier::external_body]
fn format_rfc3339(ts: i64) -> (r: Vec<u8>)
    requires
        -62167219200 <= ts <= 253402300799,
    ensures
        r@ == rfc3339_of(ts as int),
{
    match time::OffsetDateTime::from_unix_timestamp(ts) {
        Ok(dt) => match dt.format(&time::format_description::well_known::Rfc3339) {
            Ok(s) => s.into_bytes(),
            Err(_) => Vec::new(),
        },
        Err(_) => Vec::new(),
    }
}

/// All SQL conditions of a restriction, in the order flags, play time,
/// session time, login count, first seen, last seen.
pub open spec fn spec_restriction_clauses(r: Restriction) -> Seq<Seq<u8>> {
    r.flags@.map_values(|f: i64| spec_flag_clause(f)) + r.play_time@.map_values(
        |q: Query<i64>| spec_secs_clause("play_time"@, q),
    ) + r.time_online@.map_values(|q: Query<i64>| spec_secs_clause("time_online"@, q))
        + r.login_amt@.map_values(|q: Query<u64>| spec_amt_clause(q)) + r.first_seen@.map_values(
        |q: Query<i64>| spec_date_clause("first_seen"@, q),
    ) + r.last_seen@.map_values(|q: Query<i64>| spec_date_clause("last_seen"@, q))
}

/// A timestamp the RFC 3339 renderer accepts: year 0 through 9999.
pub open spec fn rfc3339_in_range(ts: int) -> bool {
    -62167219200 <= ts <= 253402300799
}

impl Restriction {
    /// The SQL `WHERE` condition this restriction stands for: every
    /// clause joined with ` AND `, durations quoted as seconds, dates
    /// quoted as RFC 3339 timestamps, the login bound shifted into the
    /// signed space. Date bounds must be renderable (year 0..=9999).
    #[verifier::loop_isolation(false)]
    #[verifier::rlimit(60)]
    pub fn generate_postgres(&self) -> (r: Vec<u8>)
        requires
            forall|i: int|
                0 <= i < self.first_seen@.len() ==> rfc3339_in_range(
                    (#[trigger] self.first_seen@[i]).val as int,
                ),
            forall|i: int|
                0 <= i < self.last_seen@.len() ==> rfc3339_in_range(
                    (#[trigger] self.last_seen@[i]).val as int,
                ),
        ensures
            r@ == spec_join_bytes(spec_restriction_clauses(*self), ascii_bytes(" AND "@)),
    {
        proof {
            reveal_strlit("jsonb_path_query_array(flags, '$[*].flag') @> '");
            reveal_strlit("'");
            reveal_strlit("play_time");
            reveal_strlit("time_online");
            reveal_strlit("login_amt ");
            reveal_strlit(" AND ");
            reveal_strlit("first_seen");
            reveal_strlit("last_seen");
            assert(vstd::string::is_ascii("jsonb_path_query_array(flags, '$[*].flag') @> '"));
            assert(vstd::string::is_ascii("'"));
            assert(vstd::string::is_ascii("play_time"));
            assert(vstd::string::is_ascii("time_online"));
            assert(vstd::string::is_ascii("login_amt "));
            assert(vstd::string::is_ascii(" AND "));
            assert(vstd::string::is_ascii("first_seen"));
            assert(vstd::string::is_ascii("last_seen"));
        }
        let mut clauses: Vec<Vec<u8>> = Vec::new();
        let ghost c1 = self.flags@.map_values(|f: i64| spec_flag_clause(f));
        let ghost c2 = self.play_time@.map_values(|q: Query<i64>| spec_secs_clause("play_time"@, q));
        let ghost c3 = self.time_online@.map_values(
            |q: Query<i64>| spec_secs_clause("time_online"@, q),
        );
        let ghost c4 = self.login_amt@.map_values(|q: Query<u64>| spec_amt_clause(q));
        let ghost c5 = self.first_seen@.map_values(
            |q: Query<i64>| spec_date_clause("first_seen"@, q),
        );
        let ghost c6 = self.last_seen@.map_values(|q: Query<i64>| spec_date_clause("last_seen"@, q));
        let mut i: usize = 0;
        while i < self.flags.len()
            invariant
                i <= self.flags@.len(),
                c1 == self.flags@.map_values(|f: i64| spec_flag_clause(f)),
                clauses.deep_view() =~= c1.take(i as int),
            decreases self.flags@.len() - i,
        {
            let mut clause = crate::str_to_bytes("jsonb_path_query_array(flags, '$[*].flag') @> '");
            let mut digits = i64_dec_bytes(self.flags[i]);
            clause.append(&mut digits);
            let mut quote = crate::str_to_bytes("'");
            clause.append(&mut quote);
            proof {
                assert(clause@ =~= spec_flag_clause(self.flags@[i as int]));
                assert(c1.take(i as int + 1) =~= c1.take(i as int).push(c1[i as int]));
            }
            let ghost prev = clauses.deep_view();
            clauses.push(clause);
            proof {
                assert(clauses.deep_view() =~~= prev.push(spec_flag_clause(
                    self.flags@[i as int],
                )));
            }
            i = i + 1;
        }
        proof {
            assert(c1.take(i as int) =~= c1);
            assert(clauses.deep_view() =~= c1 + (c2 + c3 + c4 + c5 + c6).take(0));
        }
        let mut i: usize = 0;
        while i < self.play_time.len()
            invariant
                i <= self.play_time@.len(),
                c2 == self.play_time@.map_values(
                    |q: Query<i64>| spec_secs_clause("play_time"@, q),
                ),
                clauses.deep_view() =~= c1 + c2.take(i as int),
            decreases self.play_time@.len() - i,
        {
            let q = self.play_time[i];
            let mut clause = crate::str_to_bytes("play_time");
            clause.push(32);
            let sym = q.operator.symbol();
            proof {
                reveal_strlit("<");
                reveal_strlit(">");
                reveal_strlit("=");
                reveal_strlit("!=");
                reveal_strlit("<=");
                reveal_strlit(">=");
                assert(vstd::utf8::is_ascii_chars(sym@));
            }
            let mut symb = crate::str_to_bytes(sym.as_str());
            clause.append(&mut symb);
            clause.push(32);
            clause.push(39);
            let mut digits = i64_dec_bytes(q.val);
            clause.append(&mut digits);
            clause.push(39);
            proof {
                assert(clause@ =~= spec_secs_clause("play_time"@, self.play_time@[i as int]));
                assert(c2.take(i as int + 1) =~= c2.take(i as int).push(c2[i as int]));
            }
            let ghost prev = clauses.deep_view();
            clauses.push(clause);
            proof {
                assert(clauses.deep_view() =~~= prev.push(spec_secs_clause(
                    "play_time"@,
                    self.play_time@[i as int],
                )));
                assert(c1 + c2.take(i as int + 1) =~= (c1 + c2.take(i as int)).push(
                    c2[i as int],
                ));
            }
            i = i + 1;
        }
        proof {
            assert(c2.take(i as int) =~= c2);
        }
        let mut i: usize = 0;
        while i < self.time_online.len()
            invariant
                i <= self.time_online@.len(),
                c3 == self.time_online@.map_values(
                    |q: Query<i64>| spec_secs_clause("time_online"@, q),
                ),
                clauses.deep_view() =~= c1 + c2 + c3.take(i as int),
            decreases self.time_online@.len() - i,
        {
            let q = self.time_online[i];
            let mut clause = crate::str_to_bytes("time_online");
            clause.push(32);
            let sym = q.operator.symbol();
            proof {
                reveal_strlit("<");
                reveal_strlit(">");
                reveal_strlit("=");
                reveal_strlit("!=");
                reveal_strlit("<=");
                reveal_strlit(">=");
                assert(vstd::utf8::is_ascii_chars(sym@));
            }
            let mut symb = crate::str_to_bytes(sym.as_str());
            clause.append(&mut symb);
            clause.push(32);
            clause.push(39);
            let mut digits = i64_dec_bytes(q.val);
            clause.append(&mut digits);
            clause.push(39);
            proof {
                assert(clause@ =~= spec_secs_clause("time_online"@, self.time_online@[i as int]));
                assert(c3.take(i as int + 1) =~= c3.take(i as int).push(c3[i as int]));
            }
            let ghost prev = clauses.deep_view();
            clauses.push(clause);
            proof {
                assert(clauses.deep_view() =~~= prev.push(spec_secs_clause(
                    "time_online"@,
                    self.time_online@[i as int],
                )));
                assert(c1 + c2 + c3.take(i as int + 1) =~= (c1 + c2 + c3.take(i as int)).push(
                    c3[i as int],
                ));
            }
            i = i + 1;
        }
        proof {
            assert(c3.take(i as int) =~= c3);
        }
        let mut i: usize = 0;
        while i < self.login_amt.len()
            invariant
                i <= self.login_amt@.len(),
                c4 == self.login_amt@.map_values(|q: Query<u64>| spec_amt_clause(q)),
                clauses.deep_view() =~= c1 + c2 + c3 + c4.take(i as int),
            decreases self.login_amt@.len() - i,
        {
            let q = self.login_amt[i];
            let mut clause = crate::str_to_bytes("login_amt ");
            let sym = q.operator.symbol();
            proof {
                reveal_strlit("<");
                reveal_strlit(">");
                reveal_strlit("=");
                reveal_strlit("!=");
                reveal_strlit("<=");
                reveal_strlit(">=");
                assert(vstd::utf8::is_ascii_chars(sym@));
            }
            let mut symb = crate::str_to_bytes(sym.as_str());
            clause.append(&mut symb);
            clause.push(32);
            let mut digits = i64_dec_bytes(crate::db::wrap_to_i64(q.val));
            clause.append(&mut digits);
            proof {
                assert(clause@ =~= spec_amt_clause(self.login_amt@[i as int]));
                assert(c4.take(i as int + 1) =~= c4.take(i as int).push(c4[i as int]));
            }
            let ghost prev = clauses.deep_view();
            clauses.push(clause);
            proof {
                assert(clauses.deep_view() =~~= prev.push(spec_amt_clause(
                    self.login_amt@[i as int],
                )));
                assert(c1 + c2 + c3 + c4.take(i as int + 1) =~= (c1 + c2 + c3 + c4.take(
                    i as int,
                )).push(c4[i as int]));
            }
            i = i + 1;
        }
        proof {
            assert(c4.take(i as int) =~= c4);
        }
        let mut i: usize = 0;
        while i < self.first_seen.len()
            invariant
                i <= self.first_seen@.len(),
                c5 == self.first_seen@.map_values(
                    |q: Query<i64>| spec_date_clause("first_seen"@, q),
                ),
                forall|j: int|
                    0 <= j < self.first_seen@.len() ==> rfc3339_in_range(
                        (#[trigger] self.first_seen@[j]).val as int,
                    ),
                clauses.deep_view() =~= c1 + c2 + c3 + c4 + c5.take(i as int),
            decreases self.first_seen@.len() - i,
        {
            let q = self.first_seen[i];
            let mut clause = crate::str_to_bytes("first_seen");
            clause.push(32);
            let sym = q.operator.symbol();
            proof {
                reveal_strlit("<");
                reveal_strlit(">");
                reveal_strlit("=");
                reveal_strlit("!=");
                reveal_strlit("<=");
                reveal_strlit(">=");
                assert(vstd::utf8::is_ascii_chars(sym@));
            }
            let mut symb = crate::str_to_bytes(sym.as_str());
            clause.append(&mut symb);
            clause.push(32);
            clause.push(39);
            let mut ts = format_rfc3339(q.val);
            clause.append(&mut ts);
            clause.push(39);
            proof {
                assert(clause@ =~= spec_date_clause("first_seen"@, self.first_seen@[i as int]));
                assert(c5.take(i as int + 1) =~= c5.take(i as int).push(c5[i as int]));
            }
            let ghost prev = clauses.deep_view();
            clauses.push(clause);
            proof {
                assert(clauses.deep_view() =~~= prev.push(spec_date_clause(
                    "first_seen"@,
                    self.first_seen@[i as int],
                )));
                assert(c1 + c2 + c3 + c4 + c5.take(i as int + 1) =~= (c1 + c2 + c3 + c4 + c5.take(
                    i as int,
                )).push(c5[i as int]));
            }
            i = i + 1;
        }
        proof {
            assert(c5.take(i as int) =~= c5);
        }
        let mut i: usize = 0;
        while i < self.last_seen.len()
            invariant
                i <= self.last_seen@.len(),
                c6 == self.last_seen@.map_values(
                    |q: Query<i64>| spec_date_clause("last_seen"@, q),
                ),
                forall|j: int|
                    0 <= j < self.last_seen@.len() ==> rfc3339_in_range(
                        (#[trigger] self.last_seen@[j]).val as int,
                    ),
                clauses.deep_view() =~= c1 + c2 + c3 + c4 + c5 + c6.take(i as int),
            decreases self.last_seen@.len() - i,
        {
            let q = self.last_seen[i];
            let mut clause = crate::str_to_bytes("last_seen");
            clause.push(32);
            let sym = q.operator.symbol();
            proof {
                reveal_strlit("<");
                reveal_strlit(">");
                reveal_strlit("=");
                reveal_strlit("!=");
                reveal_strlit("<=");
                reveal_strlit(">=");
                assert(vstd::utf8::is_ascii_chars(sym@));
            }
            let mut symb = crate::str_to_bytes(sym.as_str());
            clause.append(&mut symb);
            clause.push(32);
            clause.push(39);
            let mut ts = format_rfc3339(q.val);
            clause.append(&mut ts);
            clause.push(39);
            proof {
                assert(clause@ =~= spec_date_clause("last_seen"@, self.last_seen@[i as int]));
                assert(c6.take(i as int + 1) =~= c6.take(i as int).push(c6[i as int]));
            }
            let ghost prev = clauses.deep_view();
            clauses.push(clause);
            proof {
                assert(clauses.deep_view() =~~= prev.push(spec_date_clause(
                    "last_seen"@,
                    self.last_seen@[i as int],
                )));
                assert(c1 + c2 + c3 + c4 + c5 + c6.take(i as int + 1) =~= (c1 + c2 + c3 + c4 + c5
                    + c6.take(i as int)).push(c6[i as int]));
            }
            i = i + 1;
        }
        proof {
            assert(c6.take(i as int) =~= c6);
            assert(clauses.deep_view() =~= spec_restriction_clauses(*self));
        }
        let sep = crate::str_to_bytes(" AND ");
        join_bytes(&clauses, sep.as_slice())
    }
}

/// The SQL a restriction-filtered row query runs: the fixed projection,
/// a `WHERE` clause only when the restriction holds any condition, and
/// either a random single-row pick or the fixed row cap.
pub open spec fn spec_select_sql(r: Restriction, random: bool) -> Seq<u8> {
    let clauses = spec_join_bytes(spec_restriction_clauses(r), ascii_bytes(" AND "@));
    let wh = if clauses.len() > 0 {
        ascii_bytes("WHERE "@) + clauses
    } else {
        Seq::<u8>::empty()
    };
    ascii_bytes("SELECT * FROM lurkies "@) + wh + (if random {
        ascii_bytes(" ORDER BY random() LIMIT 1"@)
    } else {
        ascii_bytes(" LIMIT 20"@)
    })
}

impl Restriction {
    /// The full row-query SQL for this restriction: its conditions behind
    /// `WHERE` when there are any, then either `ORDER BY random() LIMIT 1`
    /// for a random pick or `LIMIT 20` for a page of rows.
    pub fn select_sql(&self, random: bool) -> (r: Vec<u8>)
        requires
            forall|i: int|
                0 <= i < self.first_seen@.len() ==> rfc3339_in_range(
                    (#[trigger] self.first_seen@[i]).val as int,
                ),
            forall|i: int|
                0 <= i < self.last_seen@.len() ==> rfc3339_in_range(
                    (#[trigger] self.last_seen@[i]).val as int,
                ),
        ensures
            r@ == spec_select_sql(*self, random),
    {
        proof {
            reveal_strlit("SELECT * FROM lurkies ");
            reveal_strlit("WHERE ");
            reveal_strlit(" ORDER BY random() LIMIT 1");
            reveal_strlit(" LIMIT 20");
            assert(vstd::string::is_ascii("SELECT * FROM lurkies "));
            assert(vstd::string::is_ascii("WHERE "));
            assert(vstd::string::is_ascii(" ORDER BY random() LIMIT 1"));
            assert(vstd::string::is_ascii(" LIMIT 20"));
        }
        let mut clauses = self.generate_postgres();
        let mut r = crate::str_to_bytes("SELECT * FROM lurkies ");
        if clauses.len() > 0 {
            let mut wh = crate::str_to_bytes("WHERE ");
            r.append(&mut wh);
            r.append(&mut clauses);
        }
        let mut tail = if random {
            crate::str_to_bytes(" ORDER BY random() LIMIT 1")
        } else {
            crate::str_to_bytes(" LIMIT 20")
        };
        r.append(&mut tail);
        proof {
            assert(r@ =~= spec_select_sql(*self, random));
        }
        r
    }
}

/// Build the combined restriction from the raw query parameters of a
/// database query: each present parameter is parsed as its query string,
/// a missing parameter contributes no filter.
pub fn restriction_from_params(
    flags: &Option<Vec<u8>>,
    login_amt: &Option<Vec<u8>>,
    play_time: &Option<Vec<u8>>,
    time_online: &Option<Vec<u8>>,
    first_seen: &Option<Vec<u8>>,
    last_seen: &Option<Vec<u8>>,
) -> (r: Restriction)
    ensures
        r.flags@ == (match *flags {
            Some(b) => spec_flags_list(spec_split(b@, COMMA)),
            None => Seq::<i64>::empty(),
        }),
        r.login_amt@ == (match *login_amt {
            Some(b) => spec_queries_u64(spec_split(b@, COMMA)),
            None => Seq::<Query<u64>>::empty(),
        }),
        r.play_time@ == (match *play_time {
            Some(b) => spec_queries_seconds(spec_split(b@, COMMA)),
            None => Seq::<Query<i64>>::empty(),
        }),
        r.time_online@ == (match *time_online {
            Some(b) => spec_queries_seconds(spec_split(b@, COMMA)),
            None => Seq::<Query<i64>>::empty(),
        }),
        r.first_seen@ == (match *first_seen {
            Some(b) => spec_queries_date(spec_split(b@, COMMA)),
            None => Seq::<Query<i64>>::empty(),
        }),
        r.last_seen@ == (match *last_seen {
            Some(b) => spec_queries_date(spec_split(b@, COMMA)),
            None => Seq::<Query<i64>>::empty(),
        }),
{
    let flags_v = match flags {
        Some(b) => parse_flags_list(b.as_slice()),
        None => Vec::new(),
    };
    let login_v = match login_amt {
        Some(b) => create_query_from_str(b.as_slice()),
        None => Vec::new(),
    };
    let play_v = match play_time {
        Some(b) => create_duration_query_from_str(b.as_slice()),
        None => Vec::new(),
    };
    let online_v = match time_online {
        Some(b) => create_duration_query_from_str(b.as_slice()),
        None => Vec::new(),
    };
    let first_v = match first_seen {
        Some(b) => create_date_query_from_str(b.as_slice()),
        None => Vec::new(),
    };
    let last_v = match last_seen {
        Some(b) => create_date_query_from_str(b.as_slice()),
        None => Vec::new(),
    };
    Restriction {
        flags: flags_v,
        play_time: play_v,
        time_online: online_v,
        login_amt: login_v,
        first_seen: first_v,
        last_seen: last_v,
    }
}

} // verus!
