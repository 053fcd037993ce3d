//! The polled server-list API's data model and the pure half of the
//! polling loop: parsing a configured `id|key` server entry, building the
//! poll URL, collecting the online players out of a response, and the
//! decisions taken per sighted player. The network half — issuing the
//! request and decoding the JSON — belongs to the embedding program.

use vstd::prelude::*;

use crate::ascii_bytes;
use crate::db::DBPlayer;
use crate::decode::{spec_dec_value, PIPE};
use crate::query::spec_split;

verus! {

/// The byte `@`, separating a raw player id from its origin tag.
pub const AT: u8 = 64;

/// One player as the server list reports it.
#[derive(Debug, Clone, PartialEq, Eq)]
pub struct Player {
    pub id: Vec<u8>,
    pub nickname: Option<Vec<u8>>,
}

/// One game server as the server list reports it.
#[derive(Debug, Clone, PartialEq, Eq)]
pub struct SLServer {
    pub id: u64,
    pub port: u16,
    pub online: bool,
    pub players_list: Vec<Player>,
}

/// One full server-list response.
#[derive(Debug, Clone, PartialEq, Eq)]
pub struct SLResponse {
    pub cooldown: u64,
    pub servers: Vec<SLServer>,
}

/// A configured server to poll: its numeric id and its API key.
#[derive(Debug, Clone, PartialEq, Eq)]
pub struct SlServer {
    pub key: Vec<u8>,
    pub sid: u64,
}

impl SlServer {
    /// Parse a configured `id|key` entry, or `None` when the entry has no
    /// `|` or its id part is not an unsigned number.
    pub fn try_parse(p: &[u8]) -> (r: Option<SlServer>)
        ensures
            ({
                let parts = spec_split(p@, PIPE);
                match r {
                    Some(s) => parts.len() >= 2 && (spec_dec_value(parts[0]) matches Some(v) && v
                        <= u64::MAX && s.sid == v) && s.key@ == parts[1],
                    None => parts.len() < 2 || spec_dec_value(parts[0]) is None || (
                    spec_dec_value(parts[0]) matches Some(v) && v > u64::MAX),
                }
            }),
    {
        let parts = crate::query::split_plain(p, PIPE);
        if parts.len() < 2 {
            return None;
        }
        proof {
            assert(parts.deep_view()[0] == parts@[0]@);
            assert(parts.deep_view()[1] == parts@[1]@);
        }
        proof {
            if spec_dec_value(parts@[0]@) is Some {
                crate::decode::lemma_dec_val_nonneg(crate::decode::plus_trimmed(parts@[0]@));
            }
        }
        match crate::decode::parse_u64_digits(parts[0].as_slice()) {
            Some(sid) => {
                let key = parts[1].clone();
                proof {
                    assert(key@ =~= parts@[1]@);
                }
                Some(SlServer { key, sid })
            },
            None => None,
        }
    }

    /// Parse a configured `id|key` entry. The entry must be well formed:
    /// a malformed entry is rejected by `try_parse`, which callers use to
    /// refuse it up front.
    pub fn parse(p: &[u8]) -> (r: SlServer)
        requires
            spec_split(p@, PIPE).len() >= 2,
            spec_dec_value(spec_split(p@, PIPE)[0]) matches Some(v) && v <= u64::MAX,
        ensures
            r.sid == spec_dec_value(spec_split(p@, PIPE)[0])->Some_0,
            r.key@ == spec_split(p@, PIPE)[1],
    {
        match Self::try_parse(p) {
            Some(s) => s,
            None => {
                proof {
                    assert(false);
                }
                SlServer { key: Vec::new(), sid: 0 }
            },
        }
    }

    /// The poll URL for this server: the fixed endpoint with the server
    /// id and key filled in, asking for the online player list with
    /// nicknames.
    pub fn api_url(&self) -> (r: Vec<u8>)
        ensures
            r@ == spec_api_url(self.sid, self.key@),
    {
        proof {
            reveal_strlit("https://api.scpslgame.com/serverinfo.php?id=");
            reveal_strlit("&key=");
            reveal_strlit("&list=true&nicknames=true&online=true");
            assert(vstd::string::is_ascii("https://api.scpslgame.com/serverinfo.php?id="));
            assert(vstd::string::is_ascii("&key="));
            assert(vstd::string::is_ascii("&list=true&nicknames=true&online=true"));
        }
        let mut r = crate::str_to_bytes("https://api.scpslgame.com/serverinfo.php?id=");
        let mut sid_digits = u64_dec_bytes(self.sid);
        r.append(&mut sid_digits);
        let mut kp = crate::str_to_bytes("&key=");
        r.append(&mut kp);
        let mut keyb = self.key.clone();
        r.append(&mut keyb);
        let mut tail = crate::str_to_bytes("&list=true&nicknames=true&online=true");
        r.append(&mut tail);
        proof {
            assert(r@ =~= spec_api_url(self.sid, self.key@));
        }
        r
    }
}

/// The poll URL as a byte string: endpoint, decimal server id, key, and
/// the fixed query flags.
pub open spec fn spec_api_url(sid: u64, key: Seq<u8>) -> Seq<u8> {
    ascii_bytes("https://api.scpslgame.com/serverinfo.php?id="@) + spec_dec_digits(sid as nat)
        + ascii_bytes("&key="@) + key + ascii_bytes("&list=true&nicknames=true&online=true"@)
}

/// The decimal digits of `n`, most significant first.
pub open spec fn spec_dec_digits(n: nat) -> Seq<u8>
    decreases n,
{
    if n < 10 {
        seq![(48 + n) as u8]
    } else {
        spec_dec_digits(n / 10) + seq![(48 + n % 10) as u8]
    }
}

/// The decimal digits of `n`.
pub fn u64_dec_bytes(n: u64) -> (r: Vec<u8>)
    ensures
        r@ == spec_dec_digits(n as nat),
    decreases n,
{
    if n < 10 {
        let mut r: Vec<u8> = Vec::new();
        r.push(48 + n as u8);
        proof {
            assert(r@ =~= spec_dec_digits(n as nat));
        }
        r
    } else {
        let mut r = u64_dec_bytes(n / 10);
        r.push(48 + (n % 10) as u8);
        proof {
            assert(spec_dec_digits((n / 10) as nat).push((48 + n as nat % 10) as u8)
                =~= spec_dec_digits(n as nat));
        }
        r
    }
}

/// The players of the online servers of a response, in report order.
pub open spec fn spec_online_players(servers: Seq<SLServer>) -> Seq<Player>
    decreases servers.len(),
{
    if servers.len() == 0 {
        Seq::<Player>::empty()
    } else {
        (if servers[0].online {
            servers[0].players_list@
        } else {
            Seq::<Player>::empty()
        }) + spec_online_players(servers.skip(1))
    }
}

/// The ids of players who are alone on an online server of the response.
pub open spec fn spec_alone_ids(servers: Seq<SLServer>) -> Seq<Seq<u8>>
    decreases servers.len(),
{
    if servers.len() == 0 {
        Seq::<Seq<u8>>::empty()
    } else {
        (if servers[0].online && servers[0].players_list@.len() == 1 {
            seq![servers[0].players_list@[0].id@]
        } else {
            Seq::<Seq<u8>>::empty()
        }) + spec_alone_ids(servers.skip(1))
    }
}

/// The players a sequence of borrowed players stands for.
pub open spec fn refs_to_seq(s: Seq<&Player>) -> Seq<Player> {
    s.map_values(|p: &Player| *p)
}

/// Collect, from one response, the players of every online server and
/// the ids of players who are alone on their server (those accrue no play
/// time for the round).
pub fn collect_online_players<'a>(resp: &'a SLResponse) -> (r: (Vec<&'a Player>, Vec<Vec<u8>>))
    ensures
        refs_to_seq(r.0@) == spec_online_players(resp.servers@),
        r.1.deep_view() == spec_alone_ids(resp.servers@),
{
    let mut players: Vec<&Player> = Vec::new();
    let mut alone: Vec<Vec<u8>> = Vec::new();
    let mut i: usize = 0;
    let ghost gs = resp.servers@;
    proof {
        assert(gs.skip(0) =~= gs);
        assert(refs_to_seq(players@) + spec_online_players(gs) =~= spec_online_players(gs));
        assert(alone.deep_view() + spec_alone_ids(gs) =~= spec_alone_ids(gs));
    }
    while i < resp.servers.len()
        invariant
            i <= gs.len(),
            gs == resp.servers@,
            spec_online_players(gs) == refs_to_seq(players@) + spec_online_players(
                gs.skip(i as int),
            ),
            spec_alone_ids(gs) == alone.deep_view() + spec_alone_ids(gs.skip(i as int)),
        decreases gs.len() - i,
    {
        proof {
            assert(gs.skip(i as int)[0] == gs[i as int]);
            assert(gs.skip(i as int).skip(1) =~= gs.skip(i as int + 1));
        }
        let server = &resp.servers[i];
        if server.online {
            if server.players_list.len() == 1 {
                let ghost aprev = alone.deep_view();
                alone.push(server.players_list[0].id.clone());
                proof {
                    assert(alone.deep_view() =~~= aprev.push(gs[i as int].players_list@[0].id@));
                    assert(aprev.push(gs[i as int].players_list@[0].id@) =~= aprev + seq![
                        gs[i as int].players_list@[0].id@,
                    ]);
                    assert(aprev + (seq![gs[i as int].players_list@[0].id@] + spec_alone_ids(
                        gs.skip(i as int + 1),
                    )) =~= (aprev + seq![gs[i as int].players_list@[0].id@]) + spec_alone_ids(
                        gs.skip(i as int + 1),
                    ));
                }
            } else {
                proof {
                    assert(Seq::<Seq<u8>>::empty() + spec_alone_ids(gs.skip(i as int + 1))
                        =~= spec_alone_ids(gs.skip(i as int + 1)));
                }
            }
            let mut j: usize = 0;
            let ghost pprev = refs_to_seq(players@);
            while j < server.players_list.len()
                invariant
                    j <= server.players_list@.len(),
                    server == &resp.servers@[i as int],
                    refs_to_seq(players@) == pprev + server.players_list@.take(j as int),
                decreases server.players_list@.len() - j,
            {
                proof {
                    assert(server.players_list@.take(j as int + 1) =~= server.players_list@.take(
                        j as int,
                    ).push(server.players_list@[j as int]));
                }
                let ghost before = players@;
                players.push(&server.players_list[j]);
                proof {
                    assert(refs_to_seq(players@) =~= refs_to_seq(before).push(
                        server.players_list@[j as int],
                    ));
                    assert(refs_to_seq(before).push(server.players_list@[j as int]) =~= (pprev
                        + server.players_list@.take(j as int)).push(
                        server.players_list@[j as int],
                    ));
                }
                j = j + 1;
            }
            proof {
                assert(server.players_list@.take(j as int) =~= server.players_list@);
                assert(pprev + (gs[i as int].players_list@ + spec_online_players(
                    gs.skip(i as int + 1),
                )) =~= (pprev + gs[i as int].players_list@) + spec_online_players(
                    gs.skip(i as int + 1),
                ));
            }
        } else {
            proof {
                assert(Seq::<Player>::empty() + spec_online_players(gs.skip(i as int + 1))
                    =~= spec_online_players(gs.skip(i as int + 1)));
                assert(Seq::<Seq<u8>>::empty() + spec_alone_ids(gs.skip(i as int + 1))
                    =~= spec_alone_ids(gs.skip(i as int + 1)));
            }
        }
        i = i + 1;
    }
    proof {
        assert(gs.skip(i as int) =~= Seq::<SLServer>::empty());
        assert(refs_to_seq(players@) + Seq::<Player>::empty() =~= refs_to_seq(players@));
        assert(alone.deep_view() + Seq::<Seq<u8>>::empty() =~= alone.deep_view());
    }
    (players, alone)
}

/// The cached response of the server at `id`, if that slot exists and a
/// poll has filled it.
pub fn cached_response(cache: &Vec<Option<SLResponse>>, id: usize) -> (r: Option<&SLResponse>)
    ensures
        match r {
            Some(resp) => id < cache@.len() && cache@[id as int] == Some(*resp),
            None => id >= cache@.len() || cache@[id as int] is None,
        },
{
    if id < cache.len() {
        match &cache[id] {
            Some(resp) => Some(resp),
            None => None,
        }
    } else {
        None
    }
}

/// The responses of the filled cache slots, in slot order.
pub open spec fn spec_cached(cache: Seq<Option<SLResponse>>) -> Seq<SLResponse>
    decreases cache.len(),
{
    if cache.len() == 0 {
        Seq::<SLResponse>::empty()
    } else {
        (match cache[0] {
            Some(resp) => seq![resp],
            None => Seq::<SLResponse>::empty(),
        }) + spec_cached(cache.skip(1))
    }
}

/// The responses a sequence of borrowed responses stands for.
pub open spec fn resp_refs_to_seq(s: Seq<&SLResponse>) -> Seq<SLResponse> {
    s.map_values(|r: &SLResponse| *r)
}

/// Every cached response, in slot order; empty slots are skipped.
pub fn cached_all<'a>(cache: &'a Vec<Option<SLResponse>>) -> (r: Vec<&'a SLResponse>)
    ensures
        resp_refs_to_seq(r@) == spec_cached(cache@),
{
    let ghost gc = cache@;
    let mut out: Vec<&SLResponse> = Vec::new();
    let mut i: usize = 0;
    proof {
        assert(gc.skip(0) =~= gc);
        assert(resp_refs_to_seq(out@) + spec_cached(gc) =~= spec_cached(gc));
    }
    while i < cache.len()
        invariant
            i <= gc.len(),
            gc == cache@,
            spec_cached(gc) == resp_refs_to_seq(out@) + spec_cached(gc.skip(i as int)),
        decreases gc.len() - i,
    {
        proof {
            assert(gc.skip(i as int)[0] == gc[i as int]);
            assert(gc.skip(i as int).skip(1) =~= gc.skip(i as int + 1));
        }
        match &cache[i] {
            Some(resp) => {
                let ghost prev = out@;
                out.push(resp);
                proof {
                    assert(resp_refs_to_seq(out@) =~= resp_refs_to_seq(prev).push(
                        gc[i as int]->Some_0,
                    ));
                    assert(resp_refs_to_seq(prev).push(gc[i as int]->Some_0)
                        =~= resp_refs_to_seq(prev) + seq![gc[i as int]->Some_0]);
                    assert(resp_refs_to_seq(prev) + (seq![gc[i as int]->Some_0] + spec_cached(
                        gc.skip(i as int + 1),
                    )) =~= (resp_refs_to_seq(prev) + seq![gc[i as int]->Some_0]) + spec_cached(
                        gc.skip(i as int + 1),
                    ));
                }
            },
            None => {
                proof {
                    assert(Seq::<SLResponse>::empty() + spec_cached(gc.skip(i as int + 1))
                        =~= spec_cached(gc.skip(i as int + 1)));
                }
            },
        }
        i = i + 1;
    }
    proof {
        assert(gc.skip(i as int) =~= Seq::<Option<SLResponse>>::empty());
        assert(resp_refs_to_seq(out@) + Seq::<SLResponse>::empty() =~= resp_refs_to_seq(out@));
    }
    out
}

/// The game servers of the cached responses, flattened in slot order.
pub open spec fn spec_cached_servers(resps: Seq<SLResponse>) -> Seq<SLServer>
    decreases resps.len(),
{
    if resps.len() == 0 {
        Seq::<SLServer>::empty()
    } else {
        resps[0].servers@ + spec_cached_servers(resps.skip(1))
    }
}

/// The servers a sequence of borrowed servers stands for.
pub open spec fn server_refs_to_seq(s: Seq<&SLServer>) -> Seq<SLServer> {
    s.map_values(|r: &SLServer| *r)
}

/// Every game server reported by a cached response, in slot order.
pub fn cached_servers<'a>(cache: &'a Vec<Option<SLResponse>>) -> (r: Vec<&'a SLServer>)
    ensures
        server_refs_to_seq(r@) == spec_cached_servers(spec_cached(cache@)),
{
    let filled = cached_all(cache);
    let ghost gr = spec_cached(cache@);
    let mut out: Vec<&SLServer> = Vec::new();
    let mut i: usize = 0;
    proof {
        assert(gr.skip(0) =~= gr);
        assert(server_refs_to_seq(out@) + spec_cached_servers(gr) =~= spec_cached_servers(gr));
    }
    while i < filled.len()
        invariant
            i <= gr.len(),
            resp_refs_to_seq(filled@) == gr,
            gr.len() == filled@.len(),
            spec_cached_servers(gr) == server_refs_to_seq(out@) + spec_cached_servers(
                gr.skip(i as int),
            ),
        decreases gr.len() - i,
    {
        proof {
            assert(gr.skip(i as int)[0] == gr[i as int]);
            assert(gr.skip(i as int).skip(1) =~= gr.skip(i as int + 1));
            assert(resp_refs_to_seq(filled@)[i as int] == *filled@[i as int]);
        }
        let resp = filled[i];
        let mut j: usize = 0;
        let ghost pprev = server_refs_to_seq(out@);
        while j < resp.servers.len()
            invariant
                j <= resp.servers@.len(),
                resp == filled@[i as int],
                i < gr.len(),
                gr[i as int] == *filled@[i as int],
                server_refs_to_seq(out@) == pprev + resp.servers@.take(j as int),
            decreases resp.servers@.len() - j,
        {
            proof {
                assert(resp.servers@.take(j as int + 1) =~= resp.servers@.take(j as int).push(
                    resp.servers@[j as int],
                ));
            }
            let ghost before = out@;
            out.push(&resp.servers[j]);
            proof {
                assert(server_refs_to_seq(out@) =~= server_refs_to_seq(before).push(
                    resp.servers@[j as int],
                ));
            }
            j = j + 1;
        }
        proof {
            assert(resp.servers@.take(j as int) =~= resp.servers@);
            assert(pprev + (gr[i as int].servers@ + spec_cached_servers(gr.skip(i as int + 1)))
                =~= (pprev + gr[i as int].servers@) + spec_cached_servers(gr.skip(i as int + 1)));
        }
        i = i + 1;
    }
    proof {
        assert(gr.skip(i as int) =~= Seq::<SLResponse>::empty());
        assert(server_refs_to_seq(out@) + Seq::<SLServer>::empty() =~= server_refs_to_seq(out@));
    }
    out
}

/// Relies on std's `DefaultHasher` (as created by `new`) to fold an id's
/// bytes into a 64-bit value. Which value comes out is not promised.
#[verifier::external_body]
fn hash_id_bytes(b: &[u8]) -> (r: u64) {
    let mut h = std::collections::hash_map::DefaultHasher::new();
    std::hash::Hasher::write(&mut h, b);
    std::hash::Hasher::finish(&h)
}

/// Identify a sighted player: the id text is `raw@origin`; a `steam`
/// origin carries a numeric id and must come with a nickname; a
/// `northwood` origin is identified by a hash of its raw id, which also
/// serves as the nickname. Any other shape identifies nobody.
///
/// A steam player whose raw id does not parse, or who carries no
/// nickname, is ruled out up front: the embedding program drops such a
/// report before calling in.
pub fn resolve_player(p: &Player) -> (r: Option<(u64, Vec<u8>)>)
    requires
        ({
            let parts = spec_split(p.id@, AT);
            (parts.len() >= 2 && parts[1] == ascii_bytes("steam"@)) ==> ((
            spec_dec_value(parts[0]) matches Some(v) && v <= u64::MAX) && p.nickname is Some)
        }),
    ensures
        ({
            let parts = spec_split(p.id@, AT);
            match r {
                Some(pr) => {
                    parts.len() >= 2 && if parts[1] == ascii_bytes("steam"@) {
                        Some(pr.0 as int) == spec_dec_value(parts[0]) && pr.1@
                            == p.nickname->Some_0@
                    } else {
                        parts[1] == ascii_bytes("northwood"@) && pr.1@ == parts[0]
                    }
                },
                None => {
                    let steam = ascii_bytes("steam"@);
                    let nw = ascii_bytes("northwood"@);
                    parts.len() < 2 || (parts[1] != steam && parts[1] != nw)
                },
            }
        }),
{
    proof {
        reveal_strlit("steam");
        reveal_strlit("northwood");
        assert(vstd::string::is_ascii("steam"));
        assert(vstd::string::is_ascii("northwood"));
    }
    let parts = crate::query::split_plain(p.id.as_slice(), AT);
    if parts.len() < 2 {
        return None;
    }
    proof {
        assert(parts.deep_view()[0] == parts@[0]@);
        assert(parts.deep_view()[1] == parts@[1]@);
    }
    let steam = crate::str_to_bytes("steam");
    let nw = crate::str_to_bytes("northwood");
    proof {
        if spec_dec_value(parts@[0]@) is Some {
            crate::decode::lemma_dec_val_nonneg(crate::decode::plus_trimmed(parts@[0]@));
        }
    }
    if crate::decode::bytes_eq(parts[1].as_slice(), steam.as_slice()) {
        let id = match crate::decode::parse_u64_digits(parts[0].as_slice()) {
            Some(v) => v,
            None => {
                proof {
                    assert(false);
                }
                0
            },
        };
        let nick = match &p.nickname {
            Some(n) => n.clone(),
            None => {
                proof {
                    assert(false);
                }
                Vec::new()
            },
        };
        proof {
            assert(nick@ =~= p.nickname->Some_0@);
        }
        Some((id, nick))
    } else if crate::decode::bytes_eq(parts[1].as_slice(), nw.as_slice()) {
        let id = hash_id_bytes(parts[0].as_slice());
        let nick = parts[0].clone();
        proof {
            assert(nick@ =~= parts@[0]@);
        }
        Some((id, nick))
    } else {
        None
    }
}

/// Apply one sighting of a known player: the nickname history grows when
/// the nickname changed, the last sighting moves to `now`, play time
/// accrues unless the player was alone, and the session time either
/// restarts (counting one more login) or accrues, depending on whether
/// the player was already online in the previous round.
pub fn apply_update(
    player: &mut DBPlayer,
    nick: &[u8],
    now: i64,
    refresh: u64,
    was_online: bool,
    is_alone: bool,
)
    requires
        refresh <= i64::MAX,
        old(player).play_time + refresh <= i64::MAX,
        old(player).time_online + refresh <= i64::MAX,
        old(player).login_amt < u64::MAX,
    ensures
        final(player).id == old(player).id,
        final(player).first_seen == old(player).first_seen,
        final(player).flags == old(player).flags,
        final(player).last_seen == now,
        final(player).last_nickname@ == nick@,
        final(player).nicknames.deep_view() == if old(player).last_nickname@ != nick@ {
            old(player).nicknames.deep_view().push(nick@)
        } else {
            old(player).nicknames.deep_view()
        },
        final(player).play_time as int == if is_alone {
            old(player).play_time as int
        } else {
            old(player).play_time + refresh
        },
        final(player).time_online as int == if was_online {
            old(player).time_online + refresh
        } else {
            refresh as int
        },
        final(player).login_amt as int == if was_online {
            old(player).login_amt as int
        } else {
            old(player).login_amt + 1
        },
{
    let nick_v = vstd::slice::slice_to_vec(nick);
    if !crate::decode::bytes_eq(player.last_nickname.as_slice(), nick) {
        let ghost prev = player.nicknames.deep_view();
        player.nicknames.push(nick_v.clone());
        proof {
            assert(player.nicknames.deep_view() =~~= prev.push(nick@));
        }
    }
    player.last_nickname = nick_v;
    player.last_seen = now;
    if !is_alone {
        player.play_time = player.play_time + refresh as i64;
    }
    if !was_online {
        player.time_online = refresh as i64;
        player.login_amt = player.login_amt + 1;
    } else {
        player.time_online = player.time_online + refresh as i64;
    }
}

/// The record created the first time a player is sighted: both sightings
/// are `now`, play and session time start at one refresh round, the
/// nickname history holds the one nickname, and one login is counted.
pub fn fresh_player(id: u64, nick: &[u8], now: i64, refresh: u64) -> (r: DBPlayer)
    requires
        refresh <= i64::MAX,
    ensures
        r.id == id,
        r.first_seen == now,
        r.last_seen == now,
        r.play_time == refresh,
        r.time_online == refresh,
        r.login_amt == 1,
        r.last_nickname@ == nick@,
        r.nicknames.deep_view() == seq![nick@],
        r.flags@ == Seq::<crate::db::Flag>::empty(),
{
    let nick_v = vstd::slice::slice_to_vec(nick);
    let mut nicknames: Vec<Vec<u8>> = Vec::new();
    nicknames.push(nick_v.clone());
    proof {
        assert(nicknames.deep_view() =~~= seq![nick@]);
    }
    DBPlayer {
        id,
        first_seen: now,
        last_seen: now,
        play_time: refresh as i64,
        last_nickname: nick_v,
        nicknames,
        flags: Vec::new(),
        time_online: refresh as i64,
        login_amt: 1,
    }
}

} // verus!
