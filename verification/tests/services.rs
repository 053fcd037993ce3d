use bcf::db::{
    db_kind, wrap_to_i64, wrap_to_u64, DBPlayer, DbKind, Flag, PlayerStore,
};
use bcf::northwood::{
    collect_online_players, fresh_player, resolve_player, u64_dec_bytes, Player, SLResponse,
    SLServer, SlServer,
};
use bcf::northwood::apply_update;
use bcf::northwood::{cached_all, cached_response, cached_servers};
use bcf::query::{
    create_date_query_from_str, create_duration_query_from_str, create_query_from_str,
    i64_dec_bytes, restriction_from_params, Operator, Query, Restriction,
};
use bcf::routes::check_auth;

fn sample_player(id: u64, nick: &[u8], play_time: i64) -> DBPlayer {
    DBPlayer {
        id,
        first_seen: 1_600_000_000,
        last_seen: 1_600_000_100,
        play_time,
        last_nickname: nick.to_vec(),
        nicknames: vec![nick.to_vec()],
        flags: vec![],
        time_online: 60,
        login_amt: 2,
    }
}

fn empty_restriction() -> Restriction {
    Restriction {
        flags: vec![],
        play_time: vec![],
        time_online: vec![],
        login_amt: vec![],
        first_seen: vec![],
        last_seen: vec![],
    }
}

#[test]
fn wrap_round_trips_and_bounds() {
    assert_eq!(wrap_to_u64(i64::MIN), 0);
    assert_eq!(wrap_to_u64(-1), 9223372036854775807);
    assert_eq!(wrap_to_u64(0), 9223372036854775808);
    assert_eq!(wrap_to_u64(i64::MAX), u64::MAX);
    assert_eq!(wrap_to_i64(0), i64::MIN);
    assert_eq!(wrap_to_i64(u64::MAX), i64::MAX);
    for v in [0u64, 1, 42, 9223372036854775808, u64::MAX] {
        assert_eq!(wrap_to_u64(wrap_to_i64(v)), v);
    }
    for v in [i64::MIN, -5, 0, 7, i64::MAX] {
        assert_eq!(wrap_to_i64(wrap_to_u64(v)), v);
    }
}

#[test]
fn row_round_trip() {
    let p = sample_player(7, b"nick", 100);
    let row = p.clone().to_row();
    assert_eq!(row.id, wrap_to_i64(7));
    assert_eq!(row.login_amt, wrap_to_i64(2));
    let back = DBPlayer::from_row(row);
    assert_eq!(back, p);
}

#[test]
fn query_string_parsing() {
    let qs = create_query_from_str(b">=10,<100,junk,=5");
    assert_eq!(
        qs,
        vec![
            Query { operator: Operator::GreaterThanEqualTo, val: 10u64 },
            Query { operator: Operator::LessThan, val: 100u64 },
            Query { operator: Operator::EqualTo, val: 5u64 },
        ]
    );
    let ds = create_duration_query_from_str(b"!=-30,>+7");
    assert_eq!(
        ds,
        vec![
            Query { operator: Operator::NotEqualTo, val: -30i64 },
            Query { operator: Operator::GreaterThan, val: 7i64 },
        ]
    );
    let dates = create_date_query_from_str(b">2022-01-01T00:00:00Z,<nonsense");
    assert_eq!(
        dates,
        vec![Query { operator: Operator::GreaterThan, val: 1640995200i64 }]
    );
    assert_eq!(create_query_from_str(b""), vec![]);
}

#[test]
fn restriction_matching() {
    let mut p = sample_player(1, b"ann", 500);
    p.flags = vec![Flag {
        flag: 3,
        issuer: b"ops".to_vec(),
        issued_at: 0,
        comment: b"".to_vec(),
    }];
    let mut r = empty_restriction();
    r.flags = vec![3];
    r.play_time = vec![Query { operator: Operator::GreaterThan, val: 100 }];
    r.login_amt = vec![Query { operator: Operator::LessThanEqualTo, val: 2 }];
    assert!(r.matches(&p));
    r.flags = vec![3, 4];
    assert!(!r.matches(&p));
    r.flags = vec![3];
    r.play_time = vec![Query { operator: Operator::GreaterThan, val: 500 }];
    assert!(!r.matches(&p));
}

#[test]
fn restriction_from_query_params() {
    let r = restriction_from_params(
        &Some(b"1,2,x,-3".to_vec()),
        &Some(b">=2".to_vec()),
        &None,
        &None,
        &None,
        &None,
    );
    assert_eq!(r.flags, vec![1, 2, -3]);
    assert_eq!(
        r.login_amt,
        vec![Query { operator: Operator::GreaterThanEqualTo, val: 2u64 }]
    );
    assert!(r.play_time.is_empty());
    assert!(r.first_seen.is_empty());
}

#[test]
fn store_create_get_update() {
    let mut store = PlayerStore::new();
    assert!(!store.has_player(1));
    store.create_player(sample_player(1, b"ann", 10));
    store.create_player(sample_player(2, b"bob", 20));
    assert!(store.has_player(2));
    assert_eq!(store.get_player(1).unwrap().last_nickname, b"ann".to_vec());
    assert!(store.get_player(3).is_none());
    let mut p = sample_player(2, b"bobby", 25);
    p.play_time = 25;
    assert!(store.update_player(p).is_ok());
    assert_eq!(store.get_player(2).unwrap().play_time, 25);
    assert!(store.update_player(sample_player(9, b"x", 0)).is_err());
    assert_eq!(
        store.get_by_latest_nickname(b"bobby").unwrap().id,
        2
    );
    assert!(store.get_by_latest_nickname(b"nobody").is_none());
}

#[test]
fn store_restriction_and_leaderboard() {
    let mut store = PlayerStore::new();
    store.create_player(sample_player(1, b"ann", 10));
    store.create_player(sample_player(2, b"bob", 30));
    store.create_player(sample_player(3, b"cid", 20));
    let mut r = empty_restriction();
    r.play_time = vec![Query { operator: Operator::GreaterThanEqualTo, val: 20 }];
    let matching = store.get_by_restriction(&r);
    let ids: Vec<u64> = matching.iter().map(|p| p.id).collect();
    assert_eq!(ids, vec![2, 3]);
    let board = store.leaderboard(2);
    let times: Vec<i64> = board.iter().map(|p| p.play_time).collect();
    assert_eq!(times, vec![30, 20]);
    let whole = store.leaderboard(10);
    assert_eq!(whole.len(), 3);
    let times: Vec<i64> = whole.iter().map(|p| p.play_time).collect();
    assert_eq!(times, vec![30, 20, 10]);
}

#[test]
fn store_random_pick_respects_restriction() {
    let mut store = PlayerStore::new();
    store.create_player(sample_player(1, b"ann", 10));
    store.create_player(sample_player(2, b"bob", 30));
    let mut r = empty_restriction();
    r.play_time = vec![Query { operator: Operator::GreaterThan, val: 20 }];
    // only one record matches, so the random draw must return it
    let p = store.get_by_restriction_random(&r).unwrap();
    assert_eq!(p.id, 2);
    r.play_time = vec![Query { operator: Operator::GreaterThan, val: 100 }];
    assert!(store.get_by_restriction_random(&r).is_none());
}

#[test]
fn generate_postgres_renders_all_clauses() {
    let mut r = empty_restriction();
    r.flags = vec![5];
    r.play_time = vec![Query { operator: Operator::GreaterThan, val: 10 }];
    r.login_amt = vec![Query { operator: Operator::EqualTo, val: 3u64 }];
    r.first_seen = vec![Query { operator: Operator::LessThan, val: 1640995200 }];
    let sql = String::from_utf8(r.generate_postgres()).unwrap();
    assert_eq!(
        sql,
        "jsonb_path_query_array(flags, '$[*].flag') @> '5' AND play_time > '10' AND login_amt = -9223372036854775805 AND first_seen < '2022-01-01T00:00:00Z'"
    );
    assert_eq!(empty_restriction().generate_postgres(), b"".to_vec());
}

#[test]
fn digits_render_exactly() {
    assert_eq!(u64_dec_bytes(0), b"0".to_vec());
    assert_eq!(u64_dec_bytes(90210), b"90210".to_vec());
    assert_eq!(i64_dec_bytes(-42), b"-42".to_vec());
    assert_eq!(
        i64_dec_bytes(i64::MIN),
        b"-9223372036854775808".to_vec()
    );
}

#[test]
fn sl_server_parse_and_url() {
    let s = SlServer::try_parse(b"123|examplekey").unwrap();
    assert_eq!(s.sid, 123);
    assert_eq!(s.key, b"examplekey".to_vec());
    assert!(SlServer::try_parse(b"nopipe").is_none());
    assert!(SlServer::try_parse(b"abc|key").is_none());
    let url = String::from_utf8(s.api_url()).unwrap();
    assert_eq!(
        url,
        "https://api.scpslgame.com/serverinfo.php?id=123&key=examplekey&list=true&nicknames=true&online=true"
    );
}

#[test]
fn collect_players_skips_offline_and_finds_alone() {
    let resp = SLResponse {
        cooldown: 60,
        servers: vec![
            SLServer {
                id: 1,
                port: 7777,
                online: true,
                players_list: vec![Player {
                    id: b"1@steam".to_vec(),
                    nickname: Some(b"solo".to_vec()),
                }],
            },
            SLServer {
                id: 2,
                port: 7778,
                online: false,
                players_list: vec![Player {
                    id: b"2@steam".to_vec(),
                    nickname: Some(b"ghost".to_vec()),
                }],
            },
            SLServer {
                id: 3,
                port: 7779,
                online: true,
                players_list: vec![
                    Player { id: b"3@steam".to_vec(), nickname: Some(b"a".to_vec()) },
                    Player { id: b"4@steam".to_vec(), nickname: Some(b"b".to_vec()) },
                ],
            },
        ],
    };
    let (players, alone) = collect_online_players(&resp);
    let ids: Vec<Vec<u8>> = players.iter().map(|p| p.id.clone()).collect();
    assert_eq!(
        ids,
        vec![b"1@steam".to_vec(), b"3@steam".to_vec(), b"4@steam".to_vec()]
    );
    assert_eq!(alone, vec![b"1@steam".to_vec()]);
}

#[test]
fn resolve_player_origins() {
    let steam = Player {
        id: b"76561197960804536@steam".to_vec(),
        nickname: Some(b"chalupa".to_vec()),
    };
    let (id, nick) = resolve_player(&steam).unwrap();
    assert_eq!(id, 76561197960804536);
    assert_eq!(nick, b"chalupa".to_vec());
    let nw = Player { id: b"somebody@northwood".to_vec(), nickname: None };
    let (_, nick) = resolve_player(&nw).unwrap();
    assert_eq!(nick, b"somebody".to_vec());
    let other = Player { id: b"x@discord".to_vec(), nickname: None };
    assert!(resolve_player(&other).is_none());
    let bare = Player { id: b"noatsign".to_vec(), nickname: None };
    assert!(resolve_player(&bare).is_none());
}

#[test]
fn apply_update_accrues_time_and_history() {
    let mut p = sample_player(1, b"ann", 100);
    apply_update(&mut p, b"annie", 1_600_000_200, 30, true, false);
    assert_eq!(p.last_nickname, b"annie".to_vec());
    assert_eq!(p.nicknames, vec![b"ann".to_vec(), b"annie".to_vec()]);
    assert_eq!(p.last_seen, 1_600_000_200);
    assert_eq!(p.play_time, 130);
    assert_eq!(p.time_online, 90);
    assert_eq!(p.login_amt, 2);
    // a fresh login restarts the session and counts it
    apply_update(&mut p, b"annie", 1_600_000_300, 30, false, false);
    assert_eq!(p.time_online, 30);
    assert_eq!(p.login_amt, 3);
    assert_eq!(p.nicknames.len(), 2);
    // an alone player accrues no play time
    let before = p.play_time;
    apply_update(&mut p, b"annie", 1_600_000_400, 30, true, true);
    assert_eq!(p.play_time, before);
}

#[test]
fn fresh_player_fields() {
    let p = fresh_player(9, b"newbie", 1_600_000_000, 45);
    assert_eq!(p.id, 9);
    assert_eq!(p.first_seen, 1_600_000_000);
    assert_eq!(p.last_seen, 1_600_000_000);
    assert_eq!(p.play_time, 45);
    assert_eq!(p.time_online, 45);
    assert_eq!(p.login_amt, 1);
    assert_eq!(p.last_nickname, b"newbie".to_vec());
    assert_eq!(p.nicknames, vec![b"newbie".to_vec()]);
    assert!(p.flags.is_empty());
}

#[test]
fn auth_header_check() {
    let header = b"Bearer examplekey".to_vec();
    assert!(check_auth(b"examplekey", Some(&header)).is_some());
    assert!(check_auth(b"otherkey", Some(&header)).is_none());
    assert!(check_auth(b"examplekey", None).is_none());
    let wrong = b"Basic examplekey".to_vec();
    assert!(check_auth(b"examplekey", Some(&wrong)).is_none());
}

#[test]
fn db_kind_from_config_text() {
    assert_eq!(db_kind(b"postgres"), Some(DbKind::Postgres));
    assert_eq!(db_kind(b"memory"), Some(DbKind::Memory));
    assert_eq!(db_kind(b"sqlite"), None);
}

#[test]
fn select_sql_wraps_conditions() {
    let mut r = empty_restriction();
    assert_eq!(
        String::from_utf8(r.select_sql(false)).unwrap(),
        "SELECT * FROM lurkies  LIMIT 20"
    );
    r.flags = vec![1];
    assert_eq!(
        String::from_utf8(r.select_sql(true)).unwrap(),
        "SELECT * FROM lurkies WHERE jsonb_path_query_array(flags, '$[*].flag') @> '1' ORDER BY random() LIMIT 1"
    );
}

#[test]
fn cached_responses_by_slot() {
    let resp_a = SLResponse {
        cooldown: 1,
        servers: vec![SLServer { id: 10, port: 1, online: true, players_list: vec![] }],
    };
    let resp_b = SLResponse {
        cooldown: 2,
        servers: vec![
            SLServer { id: 20, port: 2, online: false, players_list: vec![] },
            SLServer { id: 21, port: 3, online: true, players_list: vec![] },
        ],
    };
    let cache = vec![Some(resp_a.clone()), None, Some(resp_b.clone())];
    assert_eq!(cached_response(&cache, 0), Some(&resp_a));
    assert_eq!(cached_response(&cache, 1), None);
    assert_eq!(cached_response(&cache, 5), None);
    let all = cached_all(&cache);
    assert_eq!(all, vec![&resp_a, &resp_b]);
    let servers = cached_servers(&cache);
    let ids: Vec<u64> = servers.iter().map(|s| s.id).collect();
    assert_eq!(ids, vec![10, 20, 21]);
}
