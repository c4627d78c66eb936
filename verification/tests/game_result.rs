use aram_helper::error::LcuError;
use aram_helper::game::{
    advance_last_game_fetch, build_game_result, friend_puuids, game_details_path, gameflow_phase_name,
    latest_game_id, match_history_path, start_last_game_fetch, summoner_display_name, summoner_puuid,
    FetchStage, FetchStep, FRIENDS_PATH,
};
use aram_helper::json::JsonValue;
use aram_helper::teams::{group_into_teams, PlayerDamage, TeamResult};

fn s(text: &str) -> JsonValue {
    JsonValue::Str(text.to_string())
}

fn obj(members: Vec<(&str, JsonValue)>) -> JsonValue {
    JsonValue::Object(members.into_iter().map(|(k, v)| (k.to_string(), v)).collect())
}

fn participant(pid: i64, team: i64, champion: i64, damage: i64, taken: i64) -> JsonValue {
    obj(vec![
        ("participantId", JsonValue::Int(pid)),
        ("teamId", JsonValue::Int(team)),
        ("championId", JsonValue::Int(champion)),
        (
            "stats",
            obj(vec![
                ("totalDamageDealtToChampions", JsonValue::Int(damage)),
                ("totalDamageTaken", JsonValue::Int(taken)),
                ("kills", JsonValue::Int(pid)),
                ("deaths", JsonValue::Int(2)),
                ("assists", JsonValue::Int(3)),
            ]),
        ),
    ])
}

fn identity(pid: i64, name: &str, puuid: &str) -> JsonValue {
    obj(vec![
        ("participantId", JsonValue::Int(pid)),
        ("player", obj(vec![("summonerName", s(name)), ("puuid", s(puuid))])),
    ])
}

/// Ten players; team 100 holds ids 1..5 (given out of order), team 200 ids 6..10.
fn details() -> JsonValue {
    let mut parts = Vec::new();
    for pid in [3, 1, 6, 2, 7, 5, 8, 4, 9, 10] {
        let team = if pid <= 5 { 100 } else { 200 };
        parts.push(participant(pid, team, 100 + pid, 1000 * pid, 500 * pid));
    }
    let mut ids = Vec::new();
    for pid in 1..=10 {
        ids.push(identity(pid, &format!("P{}", pid), &format!("u{}", pid)));
    }
    obj(vec![("participants", JsonValue::Array(parts)), ("participantIdentities", JsonValue::Array(ids))])
}

fn player(name: &str, floor: usize, damage: i64, taken: i64) -> PlayerDamage {
    PlayerDamage {
        summoner_name: name.to_string(),
        champion_id: 1,
        damage,
        damage_taken: taken,
        kills: 0,
        deaths: 0,
        assists: 0,
        floor,
        is_friend: true,
    }
}

fn names(teams: &[TeamResult]) -> Vec<String> {
    teams.iter().map(|t| t.name.clone()).collect()
}

fn losers(teams: &[TeamResult]) -> Vec<bool> {
    teams.iter().map(|t| t.is_loser).collect()
}

#[test]
fn side_in_floor_order_with_friends() {
    let friends = vec!["u4".to_string(), "u9".to_string()];
    let game = build_game_result(&details(), "u2", &friends).ok().unwrap();
    let floors: Vec<usize> = game.all_players.iter().map(|p| p.floor).collect();
    assert_eq!(floors, vec![1, 2, 3, 4, 5]);
    let pnames: Vec<String> = game.all_players.iter().map(|p| p.summoner_name.clone()).collect();
    assert_eq!(pnames, vec!["P1", "P2", "P3", "P4", "P5"]);
    let flags: Vec<bool> = game.all_players.iter().map(|p| p.is_friend).collect();
    assert_eq!(flags, vec![false, true, false, true, false]);
    assert_eq!(game.all_players[2].damage, 3000);
    assert_eq!(game.all_players[2].damage_taken, 1500);
    assert_eq!(game.all_players[2].champion_id, 103);
    assert_eq!(game.all_players[2].kills, 3);
    assert_eq!(game.all_players[2].double_score(), 7500);
    assert_eq!(game.friend_count, 2);
    assert!(game.is_red_packet_game);
    assert_eq!(names(&game.teams), vec!["2楼 P2", "4楼 P4"]);
    assert_eq!(losers(&game.teams), vec![true, false]);
    assert_eq!(game.teams[0].double_score, 5000);
}

#[test]
fn lone_summoner_is_no_red_packet_game() {
    let game = build_game_result(&details(), "u7", &Vec::new()).ok().unwrap();
    let pnames: Vec<String> = game.all_players.iter().map(|p| p.summoner_name.clone()).collect();
    assert_eq!(pnames, vec!["P6", "P7", "P8", "P9", "P10"]);
    assert_eq!(game.friend_count, 1);
    assert!(!game.is_red_packet_game);
    assert!(game.teams.is_empty());
}

#[test]
fn game_details_errors() {
    assert!(matches!(build_game_result(&obj(vec![]), "u1", &Vec::new()), Err(LcuError::MissingParticipants)));
    let no_ids = obj(vec![("participants", JsonValue::Array(vec![]))]);
    assert!(matches!(build_game_result(&no_ids, "u1", &Vec::new()), Err(LcuError::MissingIdentities)));
    assert!(matches!(build_game_result(&details(), "stranger", &Vec::new()), Err(LcuError::PlayerNotInGame)));
    let orphan = obj(vec![
        ("participants", JsonValue::Array(vec![participant(1, 100, 1, 1, 1)])),
        ("participantIdentities", JsonValue::Array(vec![identity(2, "X", "ux")])),
    ]);
    assert!(matches!(build_game_result(&orphan, "ux", &Vec::new()), Err(LcuError::TeamNotFound)));
}

#[test]
fn two_or_three_friends_play_alone() {
    let friends = vec![player("C", 3, 10, 10), player("A", 1, 30, 0), player("B", 2, 5, 4)];
    let teams = group_into_teams(&friends, 3);
    assert_eq!(names(&teams), vec!["1楼 A", "2楼 B", "3楼 C"]);
    let scores: Vec<i128> = teams.iter().map(|t| t.double_score).collect();
    assert_eq!(scores, vec![60, 14, 30]);
    assert_eq!(losers(&teams), vec![false, true, false]);
}

#[test]
fn four_friends_play_two_against_two() {
    let friends = vec![player("A", 1, 10, 0), player("B", 2, 10, 0), player("C", 3, 5, 0), player("D", 5, 15, 0)];
    let teams = group_into_teams(&friends, 4);
    assert_eq!(names(&teams), vec!["1+2楼", "3+5楼"]);
    assert_eq!(teams[0].double_score, 40);
    assert_eq!(teams[1].double_score, 40);
    assert_eq!(losers(&teams), vec![true, false]);
    assert_eq!(teams[1].players[1].summoner_name, "D");
}

#[test]
fn five_friends_middle_counts_twice() {
    let friends = vec![
        player("A", 1, 100, 0),
        player("B", 2, 100, 0),
        player("C", 3, 60, 40),
        player("D", 4, 10, 10),
        player("E", 5, 10, 10),
    ];
    let teams = group_into_teams(&friends, 5);
    assert_eq!(names(&teams), vec!["1+2楼", "3楼(×2)", "4+5楼"]);
    let scores: Vec<i128> = teams.iter().map(|t| t.double_score).collect();
    assert_eq!(scores, vec![400, 320, 60]);
    assert_eq!(losers(&teams), vec![false, false, true]);
}

#[test]
fn other_counts_form_no_team() {
    let friends: Vec<PlayerDamage> = (1..=6).map(|f| player("X", f, 1, 1)).collect();
    assert!(group_into_teams(&friends, 6).is_empty());
    assert!(group_into_teams(&friends, 1).is_empty());
    assert!(group_into_teams(&Vec::new(), 0).is_empty());
    assert!(group_into_teams(&Vec::new(), 2).is_empty());
}

#[test]
fn summoner_and_phase_readers() {
    let me = obj(vec![("displayName", s("Teemo")), ("puuid", s("u-1"))]);
    assert_eq!(summoner_display_name(&me), "Teemo");
    assert_eq!(summoner_display_name(&obj(vec![])), "未知");
    assert_eq!(summoner_puuid(&me).ok().unwrap(), "u-1");
    assert!(matches!(summoner_puuid(&JsonValue::Null), Err(LcuError::MissingPuuid)));
    assert_eq!(gameflow_phase_name(&s("InProgress")), "InProgress");
    assert_eq!(gameflow_phase_name(&JsonValue::Int(3)), "None");
}

#[test]
fn friend_list_is_a_set() {
    let reply = JsonValue::Array(vec![
        obj(vec![("puuid", s("a"))]),
        obj(vec![("name", s("no puuid"))]),
        obj(vec![("puuid", s("b"))]),
        obj(vec![("puuid", s("a"))]),
    ]);
    assert_eq!(friend_puuids(&reply), vec!["a".to_string(), "b".to_string()]);
    assert!(friend_puuids(&obj(vec![])).is_empty());
}

#[test]
fn history_and_paths() {
    let history = obj(vec![(
        "games",
        obj(vec![("games", JsonValue::Array(vec![obj(vec![("gameId", JsonValue::Int(7001234))])]))]),
    )]);
    assert_eq!(latest_game_id(&history).ok().unwrap(), 7001234);
    let empty = obj(vec![("games", obj(vec![("games", JsonValue::Array(vec![]))]))]);
    assert!(matches!(latest_game_id(&empty), Err(LcuError::NoRecentGame)));
    assert_eq!(
        match_history_path("u-1"),
        "/lol-match-history/v1/products/lol/u-1/matches?begIndex=0&endIndex=1"
    );
    assert_eq!(game_details_path(7001234), "/lol-match-history/v1/games/7001234");
    assert_eq!(game_details_path(-5), "/lol-match-history/v1/games/-5");
}

#[test]
fn fetch_runs_through_its_stages() {
    let step = start_last_game_fetch();
    let (stage, path) = match step {
        FetchStep::Request { next, path } => (next, path),
        FetchStep::Done(_) => panic!("starts with a request"),
    };
    assert_eq!(path, "/lol-summoner/v1/current-summoner");
    let step = advance_last_game_fetch(stage, Ok(obj(vec![("puuid", s("u2"))])));
    let (stage, path) = match step {
        FetchStep::Request { next, path } => (next, path),
        FetchStep::Done(_) => panic!("asks for friends"),
    };
    assert_eq!(path, FRIENDS_PATH);
    let step = advance_last_game_fetch(stage, Err(LcuError::Request("offline".to_string())));
    let (stage, path) = match step {
        FetchStep::Request { next, path } => (next, path),
        FetchStep::Done(_) => panic!("a failed friend list is no failure"),
    };
    assert_eq!(path, match_history_path("u2"));
    let history = obj(vec![(
        "games",
        obj(vec![("games", JsonValue::Array(vec![obj(vec![("gameId", JsonValue::Int(42))])]))]),
    )]);
    let step = advance_last_game_fetch(stage, Ok(history));
    let (stage, path) = match step {
        FetchStep::Request { next, path } => (next, path),
        FetchStep::Done(_) => panic!("asks for details"),
    };
    assert!(matches!(&stage, FetchStage::Details { friends, .. } if friends.is_empty()));
    assert_eq!(path, "/lol-match-history/v1/games/42");
    match advance_last_game_fetch(stage, Ok(details())) {
        FetchStep::Done(Ok(game)) => assert_eq!(game.friend_count, 1),
        _ => panic!("ends with the result"),
    }
    match advance_last_game_fetch(FetchStage::Summoner, Ok(obj(vec![]))) {
        FetchStep::Done(Err(LcuError::MissingPuuid)) => {},
        _ => panic!("no puuid ends the fetch"),
    }
}
