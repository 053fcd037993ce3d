//! Player database model: the player record, its database-row form, and
//! the shift between the unsigned player-id space and the signed id space
//! a relational backend stores. Timestamps are unix seconds; durations are
//! whole seconds.

use vstd::prelude::*;

verus! {

/// Half of the unsigned 64-bit space: the shift between the signed ids a
/// database stores and the unsigned ids the rest of the system uses.
pub const ID_SHIFT: u64 = 9223372036854775808;

/// Map a signed database id into the unsigned id space. This is the
/// order-preserving bijection that adds `2^63` with wraparound:
/// `i64::MIN` maps to `0` and `i64::MAX` to `u64::MAX`.
pub fn wrap_to_u64(x: i64) -> (r: u64)
    ensures
        r as int == x as int + ID_SHIFT,
{
    if x >= 0 {
        (x as u64) + ID_SHIFT
    } else {
        (x - i64::MIN) as u64
    }
}

/// Map an unsigned id into the signed database id space: the inverse of
/// `wrap_to_u64`, subtracting `2^63` with wraparound.
pub fn wrap_to_i64(x: u64) -> (r: i64)
    ensures
        r as int == x as int - ID_SHIFT,
{
    if x >= ID_SHIFT {
        (x - ID_SHIFT) as i64
    } else {
        (x as i64) + i64::MIN
    }
}

/// A moderation flag on a player.
#[derive(Debug, Clone, PartialEq, Eq)]
pub struct Flag {
    pub flag: i64,
    pub issuer: Vec<u8>,
    pub issued_at: i64,
    pub comment: Vec<u8>,
}

/// A player record: identity, first and last sighting (unix seconds),
/// accumulated play time and current session time (seconds), nickname
/// history, flags, and how many times the player logged in.
#[derive(Debug, Clone, PartialEq, Eq)]
pub struct DBPlayer {
    pub id: u64,
    pub first_seen: i64,
    pub last_seen: i64,
    pub play_time: i64,
    pub last_nickname: Vec<u8>,
    pub nicknames: Vec<Vec<u8>>,
    pub flags: Vec<Flag>,
    pub time_online: i64,
    pub login_amt: u64,
}

/// A player record as a relational row: ids and counters wrapped into the
/// signed space, durations and timestamps as plain seconds.
#[derive(Debug, Clone, PartialEq, Eq)]
pub struct DbRow {
    pub id: i64,
    pub first_seen: i64,
    pub last_seen: i64,
    pub play_time: i64,
    pub last_nickname: Vec<u8>,
    pub nicknames: Vec<Vec<u8>>,
    pub flags: Vec<Flag>,
    pub time_online: i64,
    pub login_amt: i64,
}

impl DBPlayer {
    /// The row form of this record: id and login count wrapped into the
    /// signed space, every other field carried over.
    pub fn to_row(self) -> (r: DbRow)
        ensures
            r.id as int == self.id as int - ID_SHIFT,
            r.first_seen == self.first_seen,
            r.last_seen == self.last_seen,
            r.play_time == self.play_time,
            r.last_nickname == self.last_nickname,
            r.nicknames == self.nicknames,
            r.flags == self.flags,
            r.time_online == self.time_online,
            r.login_amt as int == self.login_amt as int - ID_SHIFT,
    {
        DbRow {
            id: wrap_to_i64(self.id),
            first_seen: self.first_seen,
            last_seen: self.last_seen,
            play_time: self.play_time,
            last_nickname: self.last_nickname,
            nicknames: self.nicknames,
            flags: self.flags,
            time_online: self.time_online,
            login_amt: wrap_to_i64(self.login_amt),
        }
    }

    /// The record a row stands for: the inverse of `to_row`.
    pub fn from_row(row: DbRow) -> (r: DBPlayer)
        ensures
            r.id as int == row.id as int + ID_SHIFT,
            r.first_seen == row.first_seen,
            r.last_seen == row.last_seen,
            r.play_time == row.play_time,
            r.last_nickname == row.last_nickname,
            r.nicknames == row.nicknames,
            r.flags == row.flags,
            r.time_online == row.time_online,
            r.login_amt as int == row.login_amt as int + ID_SHIFT,
    {
        DBPlayer {
            id: wrap_to_u64(row.id),
            first_seen: row.first_seen,
            last_seen: row.last_seen,
            play_time: row.play_time,
            last_nickname: row.last_nickname,
            nicknames: row.nicknames,
            flags: row.flags,
            time_online: row.time_online,
            login_amt: wrap_to_u64(row.login_amt),
        }
    }
}

/// The records a sequence of borrowed players stands for.
pub open spec fn refs_to_players(s: Seq<&DBPlayer>) -> Seq<DBPlayer> {
    s.map_values(|p: &DBPlayer| *p)
}

/// Some record in `s` has id `id`.
pub open spec fn spec_contains_id(s: Seq<DBPlayer>, id: u64) -> bool {
    exists|i: int| 0 <= i < s.len() && (#[trigger] s[i]).id == id
}

/// Sorted by play time, largest first.
pub open spec fn sorted_desc(s: Seq<DBPlayer>) -> bool {
    forall|i: int, j: int| 0 <= i <= j < s.len() ==> (#[trigger] s[i]).play_time >= (#[trigger] s[j]).play_time
}

/// The in-memory database's state: the player records in insertion
/// order. The lock that guards it in a running service is the embedding
/// program's concern; every operation here is a pure function of this
/// state.
#[derive(Debug)]
pub struct PlayerStore {
    pub players: Vec<DBPlayer>,
}

impl PlayerStore {
    /// An empty store.
    pub fn new() -> (r: PlayerStore)
        ensures
            r.players@.len() == 0,
    {
        PlayerStore { players: Vec::new() }
    }

    /// Whether a record with this id exists.
    pub fn has_player(&self, player_id: u64) -> (r: bool)
        ensures
            r == spec_contains_id(self.players@, player_id),
    {
        let mut i: usize = 0;
        while i < self.players.len()
            invariant
                i <= self.players@.len(),
                forall|j: int| 0 <= j < i ==> (#[trigger] self.players@[j]).id != player_id,
            decreases self.players@.len() - i,
        {
            if self.players[i].id == player_id {
                return true;
            }
            i = i + 1;
        }
        false
    }

    /// The first record with this id, if any.
    pub fn get_player(&self, player_id: u64) -> (r: Option<&DBPlayer>)
        ensures
            match r {
                Some(p) => exists|i: int|
                    0 <= i < self.players@.len() && #[trigger] self.players@[i] == *p && p.id
                        == player_id,
                None => !spec_contains_id(self.players@, player_id),
            },
    {
        let mut i: usize = 0;
        while i < self.players.len()
            invariant
                i <= self.players@.len(),
                forall|j: int| 0 <= j < i ==> (#[trigger] self.players@[j]).id != player_id,
            decreases self.players@.len() - i,
        {
            if self.players[i].id == player_id {
                return Some(&self.players[i]);
            }
            i = i + 1;
        }
        None
    }

    /// Append a record.
    pub fn create_player(&mut self, player: DBPlayer)
        ensures
            final(self).players@ == old(self).players@.push(player),
    {
        self.players.push(player);
    }

    /// Replace the first record with the same id, or fail and leave the
    /// store unchanged when no record has it.
    pub fn update_player(&mut self, player: DBPlayer) -> (r: Result<(), ()>)
        ensures
            match r {
                Ok(()) => exists|i: int|
                    0 <= i < old(self).players@.len() && (#[trigger] old(self).players@[i]).id
                        == player.id && (forall|j: int|
                        0 <= j < i ==> (#[trigger] old(self).players@[j]).id != player.id)
                        && final(self).players@ == old(self).players@.update(i, player),
                Err(()) => !spec_contains_id(old(self).players@, player.id) && final(self).players@
                    == old(self).players@,
            },
    {
        let mut i: usize = 0;
        while i < self.players.len()
            invariant
                i <= self.players@.len(),
                self.players@ == old(self).players@,
                forall|j: int| 0 <= j < i ==> (#[trigger] self.players@[j]).id != player.id,
            decreases self.players@.len() - i,
        {
            if self.players[i].id == player.id {
                self.players.set(i, player);
                return Ok(());
            }
            i = i + 1;
        }
        Err(())
    }

    /// The first record whose latest nickname is `nickname`, if any.
    pub fn get_by_latest_nickname(&self, nickname: &[u8]) -> (r: Option<&DBPlayer>)
        ensures
            match r {
                Some(p) => exists|i: int|
                    0 <= i < self.players@.len() && #[trigger] self.players@[i] == *p
                        && p.last_nickname@ == nickname@ && (forall|j: int|
                        0 <= j < i ==> (#[trigger] self.players@[j]).last_nickname@ != nickname@),
                None => forall|j: int|
                    0 <= j < self.players@.len() ==> (#[trigger] self.players@[j]).last_nickname@
                        != nickname@,
            },
    {
        let mut i: usize = 0;
        while i < self.players.len()
            invariant
                i <= self.players@.len(),
                forall|j: int| 0 <= j < i ==> (#[trigger] self.players@[j]).last_nickname@ != nickname@,
            decreases self.players@.len() - i,
        {
            if crate::decode::bytes_eq(self.players[i].last_nickname.as_slice(), nickname) {
                return Some(&self.players[i]);
            }
            i = i + 1;
        }
        None
    }

    /// Every record the restriction matches, in store order.
    pub fn get_by_restriction(&self, restriction: &crate::query::Restriction) -> (r: Vec<
        &DBPlayer,
    >)
        ensures
            refs_to_players(r@) == self.players@.filter(
                |p: DBPlayer| crate::query::spec_restriction_matches(*restriction, p),
            ),
            r@.len() == 0 <==> (forall|i: int|
                0 <= i < self.players@.len() ==> !crate::query::spec_restriction_matches(
                    *restriction,
                    #[trigger] self.players@[i],
                )),
            forall|j: int|
                0 <= j < r@.len() ==> exists|i: int|
                    0 <= i < self.players@.len() && self.players@[i] == *(#[trigger] r@[j]),
    {
        let ghost pred = |p: DBPlayer| crate::query::spec_restriction_matches(*restriction, p);
        let mut out: Vec<&DBPlayer> = Vec::new();
        let mut i: usize = 0;
        proof {
            reveal(Seq::filter);
            assert(self.players@.take(0) =~= Seq::<DBPlayer>::empty());
            assert(refs_to_players(out@) =~= self.players@.take(0).filter(pred));
        }
        while i < self.players.len()
            invariant
                i <= self.players@.len(),
                refs_to_players(out@) == self.players@.take(i as int).filter(pred),
                pred == (|p: DBPlayer| crate::query::spec_restriction_matches(*restriction, p)),
                out@.len() == 0 <==> (forall|j: int|
                    0 <= j < i ==> !crate::query::spec_restriction_matches(
                        *restriction,
                        #[trigger] self.players@[j],
                    )),
                forall|j: int|
                    0 <= j < out@.len() ==> exists|k: int|
                        0 <= k < self.players@.len() && self.players@[k] == *(#[trigger] out@[j]),
            decreases self.players@.len() - i,
        {
            proof {
                reveal(Seq::filter);
                assert(self.players@.take(i as int + 1).drop_last() =~= self.players@.take(
                    i as int,
                ));
                assert(self.players@.take(i as int + 1).last() == self.players@[i as int]);
            }
            let ghost prev = out@;
            if restriction.matches(&self.players[i]) {
                out.push(&self.players[i]);
                proof {
                    assert(refs_to_players(out@) =~= refs_to_players(prev).push(
                        self.players@[i as int],
                    ));
                }
            }
            i = i + 1;
        }
        proof {
            assert(self.players@.take(i as int) =~= self.players@);
        }
        out
    }

    /// A random record among those the restriction matches: `None`
    /// exactly when no record matches; otherwise some matching record —
    /// which one depends on the random draw, so nothing more is promised.
    pub fn get_by_restriction_random(&self, restriction: &crate::query::Restriction) -> (r: Option<
        &DBPlayer,
    >)
        ensures
            match r {
                Some(p) => crate::query::spec_restriction_matches(*restriction, *p) && exists|
                    i: int,
                |
                    0 <= i < self.players@.len() && #[trigger] self.players@[i] == *p,
                None => forall|i: int|
                    0 <= i < self.players@.len() ==> !crate::query::spec_restriction_matches(
                        *restriction,
                        #[trigger] self.players@[i],
                    ),
            },
    {
        broadcast use vstd::seq_lib::group_filter_ensures;

        let matching = self.get_by_restriction(restriction);
        if matching.len() == 0 {
            return None;
        }
        let ghost pred = |p: DBPlayer| crate::query::spec_restriction_matches(*restriction, p);
        let idx = random_index(matching.len());
        proof {
            assert(refs_to_players(matching@)[idx as int] == *matching@[idx as int]);
            assert(pred(refs_to_players(matching@)[idx as int]));
        }
        Some(matching[idx])
    }

    /// The matching records sorted by play time, largest first, cut to
    /// `limit`: the result is the first `limit` records of a descending
    /// rearrangement of the whole store.
    pub fn leaderboard(&self, limit: u64) -> (r: Vec<&DBPlayer>)
        ensures
            r@.len() == if limit <= self.players@.len() {
                limit as int
            } else {
                self.players@.len() as int
            },
            exists|full: Seq<DBPlayer>|
                {
                    &&& #[trigger] full.to_multiset() == self.players@.to_multiset()
                    &&& sorted_desc(full)
                    &&& refs_to_players(r@) == full.take(r@.len() as int)
                },
    {
        let sorted = self.sorted_by_play_time();
        let k: usize = if limit <= sorted.len() as u64 {
            limit as usize
        } else {
            sorted.len()
        };
        let mut out: Vec<&DBPlayer> = Vec::new();
        let mut j: usize = 0;
        while j < k
            invariant
                j <= k <= sorted@.len(),
                out@ == sorted@.take(j as int),
            decreases k - j,
        {
            proof {
                assert(sorted@.take(j as int + 1) =~= sorted@.take(j as int).push(
                    sorted@[j as int],
                ));
            }
            out.push(sorted[j]);
            j = j + 1;
        }
        proof {
            let full = refs_to_players(sorted@);
            assert(refs_to_players(out@) =~= full.take(out@.len() as int));
        }
        out
    }

    /// All records, in descending play-time order.
    fn sorted_by_play_time(&self) -> (r: Vec<&DBPlayer>)
        ensures
            r@.len() == self.players@.len(),
            refs_to_players(r@).to_multiset() == self.players@.to_multiset(),
            sorted_desc(refs_to_players(r@)),
    {
        broadcast use vstd::seq_lib::group_to_multiset_ensures;

        let mut out: Vec<&DBPlayer> = Vec::new();
        let mut i: usize = 0;
        proof {
            assert(self.players@.take(0) =~= Seq::<DBPlayer>::empty());
            assert(refs_to_players(out@) =~= Seq::<DBPlayer>::empty());
            assert(Seq::<DBPlayer>::empty().to_multiset() =~= self.players@.take(0).to_multiset());
        }
        while i < self.players.len()
            invariant
                i <= self.players@.len(),
                out@.len() == i,
                refs_to_players(out@).to_multiset() == self.players@.take(i as int).to_multiset(),
                sorted_desc(refs_to_players(out@)),
            decreases self.players@.len() - i,
        {
            let p = &self.players[i];
            let mut pos: usize = 0;
            while pos < out.len() && out[pos].play_time >= p.play_time
                invariant
                    pos <= out@.len(),
                    forall|j: int|
                        0 <= j < pos ==> (#[trigger] refs_to_players(out@)[j]).play_time
                            >= p.play_time,
                decreases out@.len() - pos,
            {
                pos = pos + 1;
            }
            let ghost prev = out@;
            out.insert(pos, p);
            proof {
                let s = refs_to_players(prev);
                let x = self.players@[i as int];
                assert(refs_to_players(out@) =~= s.insert(pos as int, x));
                assert(self.players@.take(i as int + 1) =~= self.players@.take(i as int).push(x));
                assert(s.len() == prev.len());
                vstd::seq_lib::to_multiset_insert::<DBPlayer>(s, pos as int, x);
                s.insert_ensures(pos as int, x);
                self.players@.take(i as int).to_multiset_ensures();
                assert(self.players@.take(i as int).push(x).to_multiset() == self.players@.take(
                    i as int,
                ).to_multiset().insert(x));
                assert(self.players@.take(i as int + 1).to_multiset() == self.players@.take(
                    i as int,
                ).push(x).to_multiset());
                assert forall|a: int, b: int|
                    0 <= a <= b < refs_to_players(out@).len() implies (#[trigger] refs_to_players(
                    out@,
                )[a]).play_time >= (#[trigger] refs_to_players(out@)[b]).play_time by {
                    let t = refs_to_players(out@);
                    if a < pos {
                        assert(t[a] == s[a]);
                        assert(s[a].play_time >= x.play_time);
                    } else if a == pos {
                        assert(t[a] == x);
                    } else {
                        assert(t[a] == s[a - 1]);
                    }
                    if b < pos {
                        assert(t[b] == s[b]);
                    } else if b == pos {
                        assert(t[b] == x);
                    } else {
                        assert(t[b] == s[b - 1]);
                        assert(pos < s.len());
                        assert(s[pos as int].play_time < x.play_time);
                        assert(s[b - 1].play_time <= s[pos as int].play_time);
                    }
                }
            }
            i = i + 1;
        }
        proof {
            assert(self.players@.take(i as int) =~= self.players@);
        }
        out
    }
}

/// Which database backend a configuration names.
#[derive(Debug, Clone, Copy, PartialEq, Eq)]
pub enum DbKind {
    Postgres,
    Memory,
}

/// The backend a configured database type names: `postgres`, `memory`,
/// or nothing.
pub fn db_kind(db_type: &[u8]) -> (r: Option<DbKind>)
    ensures
        r == Some(DbKind::Postgres) <==> db_type@ == crate::ascii_bytes("postgres"@),
        r == Some(DbKind::Memory) <==> db_type@ == crate::ascii_bytes("memory"@),
        r is None <==> (db_type@ != crate::ascii_bytes("postgres"@) && db_type@
            != crate::ascii_bytes("memory"@)),
{
    proof {
        reveal_strlit("postgres");
        reveal_strlit("memory");
        assert(vstd::string::is_ascii("postgres"));
        assert(vstd::string::is_ascii("memory"));
        assert(crate::ascii_bytes("postgres"@).len() == 8);
        assert(crate::ascii_bytes("memory"@).len() == 6);
    }
    let pg = crate::str_to_bytes("postgres");
    let mem = crate::str_to_bytes("memory");
    if crate::decode::bytes_eq(db_type, pg.as_slice()) {
        Some(DbKind::Postgres)
    } else if crate::decode::bytes_eq(db_type, mem.as_slice()) {
        Some(DbKind::Memory)
    } else {
        None
    }
}

/// Relies on rand's `random_range` over a thread-local generator: the
/// result lies in `0..n`; which index comes out is not promised.
#[verifier::external_body]
fn random_index(n: usize) -> (r: usize)
    requires
        n > 0,
    ensures
        r < n,
{
    rand::RngExt::random_range(&mut rand::rng(), 0..n)
}

} // verus!
