//! The result of the last game: the summoner's side in floor order, which of
//! its players are friends, and their teams.

use vstd::prelude::*;
use vstd::string::*;

use crate::error::LcuError;
use crate::json::{
    as_int, as_items, as_text, deref_json, element, field, get_element, get_str, get_array, get_field, get_i64, get_i64_or_zero, get_str_or, int_or_zero,
    text_or, JsonValue,
};
use crate::text::{i64_to_decimal, signed_decimal, texts};
use crate::order::{is_stable_order, lemma_stable_order_exists, lemma_stable_order_unique, stable_order};
use crate::teams::{
    group_into_teams, lemma_by_floor_of_sorted, grouped_teams, players_view, reorder, teams_view, the_stable_order, PlayerDamage, PlayerView,
    TeamResult, TeamView,
};

verus! {

/// The side of the current summoner in one game.
pub struct GameResult {
    pub all_players: Vec<PlayerDamage>,
    pub friend_count: usize,
    pub teams: Vec<TeamResult>,
    pub is_red_packet_game: bool,
}

/// The plain values of a `GameResult`.
pub struct GameView {
    pub all_players: Seq<PlayerView>,
    pub friend_count: nat,
    pub teams: Seq<TeamView>,
    pub is_red_packet_game: bool,
}

impl View for GameResult {
    type V = GameView;

    open spec fn view(&self) -> GameView {
        GameView {
            all_players: players_view(self.all_players@),
            friend_count: self.friend_count as nat,
            teams: teams_view(self.teams@),
            is_red_packet_game: self.is_red_packet_game,
        }
    }
}

/// The participant id of an identity or participant (0 when missing).
pub open spec fn participant_id(p: JsonValue) -> i64 {
    int_or_zero(field(Some(p), "participantId"@))
}

/// The summoner name of an identity ("未知" when missing).
pub open spec fn identity_name(id: JsonValue) -> Seq<char> {
    text_or(field(field(Some(id), "player"@), "summonerName"@), "未知"@)
}

/// The PUUID of an identity (empty when missing).
pub open spec fn identity_puuid(id: JsonValue) -> Seq<char> {
    text_or(field(field(Some(id), "player"@), "puuid"@), Seq::empty())
}

/// The last identity with participant id `pid`: the one whose name and
/// PUUID are on record for `pid`, later identities replacing earlier ones.
pub open spec fn last_with_pid(ids: Seq<JsonValue>, pid: i64) -> Option<JsonValue>
    decreases ids.len(),
{
    if ids.len() == 0 {
        None
    } else if participant_id(ids.last()) == pid {
        Some(ids.last())
    } else {
        last_with_pid(ids.drop_last(), pid)
    }
}

/// The PUUID on record for `pid` (empty when none).
pub open spec fn recorded_puuid(ids: Seq<JsonValue>, pid: i64) -> Seq<char> {
    match last_with_pid(ids, pid) {
        Some(id) => identity_puuid(id),
        None => Seq::empty(),
    }
}

/// The summoner name on record for `pid` ("未知" when none).
pub open spec fn recorded_name(ids: Seq<JsonValue>, pid: i64) -> Seq<char> {
    match last_with_pid(ids, pid) {
        Some(id) => identity_name(id),
        None => "未知"@,
    }
}

/// The participant id of the current summoner: the id of the first of
/// `rest` whose PUUID on record in `ids` is `me`.
pub open spec fn pid_of_puuid(rest: Seq<JsonValue>, ids: Seq<JsonValue>, me: Seq<char>) -> Option<i64>
    decreases rest.len(),
{
    if rest.len() == 0 {
        None
    } else if recorded_puuid(ids, participant_id(rest[0])) == me {
        Some(participant_id(rest[0]))
    } else {
        pid_of_puuid(rest.drop_first(), ids, me)
    }
}

/// The first participant with participant id `pid`.
pub open spec fn participant_with_pid(parts: Seq<JsonValue>, pid: i64) -> Option<JsonValue>
    decreases parts.len(),
{
    if parts.len() == 0 {
        None
    } else if participant_id(parts[0]) == pid {
        Some(parts[0])
    } else {
        participant_with_pid(parts.drop_first(), pid)
    }
}

/// The team id of the first participant with participant id `pid`.
pub open spec fn team_of_pid(parts: Seq<JsonValue>, pid: i64) -> Option<i64> {
    match participant_with_pid(parts, pid) {
        Some(p) => as_int(field(Some(p), "teamId"@)),
        None => None,
    }
}

/// The team id of a participant (0 when missing).
pub open spec fn team_of(p: JsonValue) -> i64 {
    int_or_zero(field(Some(p), "teamId"@))
}

/// The participants of team `team`, in the order of the details.
pub open spec fn side_of(parts: Seq<JsonValue>, team: i64) -> Seq<JsonValue> {
    parts.filter(|p: JsonValue| team_of(p) == team)
}

/// The participant ids of participants, as sort keys.
pub open spec fn pid_keys(parts: Seq<JsonValue>) -> Seq<i128> {
    parts.map_values(|p: JsonValue| participant_id(p) as i128)
}

/// The participants of team `team` in floor order: sorted by participant
/// id, equal ids kept in order.
pub open spec fn side_in_floor_order(parts: Seq<JsonValue>, team: i64) -> Seq<JsonValue> {
    reorder(side_of(parts, team), the_stable_order(pid_keys(side_of(parts, team))))
}

/// An integer statistic of a participant (0 when missing).
pub open spec fn stat(p: JsonValue, name: Seq<char>) -> i64 {
    int_or_zero(field(field(Some(p), "stats"@), name))
}

/// The player that participant `p` on floor `floor` is: its name and PUUID
/// on record, its champion and statistics, and whether it is the current
/// summoner or a friend.
pub open spec fn player_from(
    p: JsonValue,
    floor: usize,
    ids: Seq<JsonValue>,
    me: Seq<char>,
    friends: Seq<Seq<char>>,
) -> PlayerView {
    let pid = participant_id(p);
    let puuid = recorded_puuid(ids, pid);
    PlayerView {
        summoner_name: recorded_name(ids, pid),
        champion_id: int_or_zero(field(Some(p), "championId"@)),
        damage: stat(p, "totalDamageDealtToChampions"@),
        damage_taken: stat(p, "totalDamageTaken"@),
        kills: stat(p, "kills"@),
        deaths: stat(p, "deaths"@),
        assists: stat(p, "assists"@),
        floor: floor,
        is_friend: puuid == me || friends.contains(puuid),
    }
}

/// The players of team `team` in floor order, floors numbered from 1.
pub open spec fn side_players(
    parts: Seq<JsonValue>,
    team: i64,
    ids: Seq<JsonValue>,
    me: Seq<char>,
    friends: Seq<Seq<char>>,
) -> Seq<PlayerView> {
    side_in_floor_order(parts, team).map(|i: int, p: JsonValue| player_from(p, (i + 1) as usize, ids, me, friends))
}

/// The friends among the players (the current summoner included).
pub open spec fn friends_of(players: Seq<PlayerView>) -> Seq<PlayerView> {
    players.filter(|p: PlayerView| p.is_friend)
}

/// The result of a side: its players, the number of friends, their teams,
/// and whether it is a red packet game (two friends or more).
pub open spec fn game_of(players: Seq<PlayerView>) -> GameView {
    let friends = friends_of(players);
    GameView {
        all_players: players,
        friend_count: friends.len(),
        teams: grouped_teams(friends, friends.len()),
        is_red_packet_game: friends.len() >= 2,
    }
}

/// The result of the game details `details` for the summoner of PUUID `me`
/// with friends of PUUIDs `friends`, or the error the details give.
pub open spec fn game_outcome(details: JsonValue, me: Seq<char>, friends: Seq<Seq<char>>) -> Result<GameView, LcuError> {
    match as_items(field(Some(details), "participants"@)) {
        None => Err(LcuError::MissingParticipants),
        Some(parts) => match as_items(field(Some(details), "participantIdentities"@)) {
            None => Err(LcuError::MissingIdentities),
            Some(ids) => match pid_of_puuid(ids, ids, me) {
                None => Err(LcuError::PlayerNotInGame),
                Some(pid) => match team_of_pid(parts, pid) {
                    None => Err(LcuError::TeamNotFound),
                    Some(team) => Ok(game_of(side_players(parts, team, ids, me, friends))),
                },
            },
        },
    }
}

/// The view of a result.
pub open spec fn outcome_view(r: Result<GameResult, LcuError>) -> Result<GameView, LcuError> {
    match r {
        Ok(g) => Ok(g@),
        Err(e) => Err(e),
    }
}

/// Whether `list` holds the text `s`.
pub fn contains_text(list: &Vec<String>, s: &String) -> (r: bool)
    ensures
        r == texts(list@).contains(s@),
{
    let mut i: usize = 0;
    while i < list.len()
        invariant
            i <= list@.len(),
            forall|j: int| 0 <= j < i ==> list@[j]@ != s@,
        decreases list@.len() - i,
    {
        if list[i] == *s {
            assert(texts(list@)[i as int] == s@);
            return true;
        }
        i = i + 1;
    }
    assert forall|j: int| 0 <= j < texts(list@).len() implies texts(list@)[j] != s@ by {
        assert(texts(list@)[j] == list@[j]@);
    }
    false
}

/// The last identity with participant id `pid`.
fn last_identity<'a>(ids: &'a Vec<JsonValue>, pid: i64) -> (r: Option<&'a JsonValue>)
    ensures
        deref_json(r) == last_with_pid(ids@, pid),
{
    let mut i: usize = ids.len();
    assert(ids@.take(i as int) =~= ids@);
    while i > 0
        invariant
            i <= ids@.len(),
            last_with_pid(ids@, pid) == last_with_pid(ids@.take(i as int), pid),
        decreases i,
    {
        assert(ids@.take(i as int).drop_last() =~= ids@.take(i - 1));
        assert(ids@.take(i as int).last() == ids@[i - 1]);
        if get_i64_or_zero(get_field(Some(&ids[i - 1]), "participantId")) == pid {
            return Some(&ids[i - 1]);
        }
        i = i - 1;
    }
    None
}

/// The participant id of the current summoner, as `pid_of_puuid` states.
fn find_my_pid(ids: &Vec<JsonValue>, me: &String) -> (r: Option<i64>)
    ensures
        r == pid_of_puuid(ids@, ids@, me@),
{
    let mut i: usize = 0;
    assert(ids@.skip(0) =~= ids@);
    while i < ids.len()
        invariant
            i <= ids@.len(),
            pid_of_puuid(ids@, ids@, me@) == pid_of_puuid(ids@.skip(i as int), ids@, me@),
        decreases ids@.len() - i,
    {
        assert(ids@.skip(i as int).drop_first() =~= ids@.skip(i + 1));
        assert(ids@.skip(i as int)[0] == ids@[i as int]);
        let pid = get_i64_or_zero(get_field(Some(&ids[i]), "participantId"));
        let puuid = get_str_or(get_field(get_field(last_identity(ids, pid), "player"), "puuid"), "");
        proof {
            reveal_strlit("");
            assert(""@ =~= Seq::<char>::empty());
        }
        if puuid == *me {
            return Some(pid);
        }
        i = i + 1;
    }
    None
}

/// The team id of the current summoner, as `team_of_pid` states.
fn find_team(parts: &Vec<JsonValue>, pid: i64) -> (r: Option<i64>)
    ensures
        r == team_of_pid(parts@, pid),
{
    let mut i: usize = 0;
    assert(parts@.skip(0) =~= parts@);
    while i < parts.len()
        invariant
            i <= parts@.len(),
            participant_with_pid(parts@, pid) == participant_with_pid(parts@.skip(i as int), pid),
        decreases parts@.len() - i,
    {
        assert(parts@.skip(i as int).drop_first() =~= parts@.skip(i + 1));
        assert(parts@.skip(i as int)[0] == parts@[i as int]);
        if get_i64_or_zero(get_field(Some(&parts[i]), "participantId")) == pid {
            return get_i64(get_field(Some(&parts[i]), "teamId"));
        }
        i = i + 1;
    }
    None
}

/// The player that participant `p` on floor `floor` is, as `player_from`
/// states.
fn player_of(p: &JsonValue, floor: usize, ids: &Vec<JsonValue>, me: &String, friends: &Vec<String>) -> (r: PlayerDamage)
    ensures
        r@ == player_from(*p, floor, ids@, me@, texts(friends@)),
{
    let pid = get_i64_or_zero(get_field(Some(p), "participantId"));
    let identity = last_identity(ids, pid);
    let puuid = get_str_or(get_field(get_field(identity, "player"), "puuid"), "");
    let name = get_str_or(get_field(get_field(identity, "player"), "summonerName"), "未知");
    proof {
        reveal_strlit("");
        assert(""@ =~= Seq::<char>::empty());
    }
    let stats = get_field(Some(p), "stats");
    let is_me = puuid == *me;
    let is_friend = is_me || contains_text(friends, &puuid);
    let player = PlayerDamage {
        summoner_name: name,
        champion_id: get_i64_or_zero(get_field(Some(p), "championId")),
        damage: get_i64_or_zero(get_field(stats, "totalDamageDealtToChampions")),
        damage_taken: get_i64_or_zero(get_field(stats, "totalDamageTaken")),
        kills: get_i64_or_zero(get_field(stats, "kills")),
        deaths: get_i64_or_zero(get_field(stats, "deaths")),
        assists: get_i64_or_zero(get_field(stats, "assists")),
        floor,
        is_friend,
    };
    player
}

/// Builds the result of a game from its details, for the summoner of PUUID
/// `my_puuid` whose friends have the PUUIDs `friend_puuids`: the result or
/// error `game_outcome` states.
pub fn build_game_result(details: &JsonValue, my_puuid: &str, friend_puuids: &Vec<String>) -> (r: Result<GameResult, LcuError>)
    ensures
        outcome_view(r) == game_outcome(*details, my_puuid@, texts(friend_puuids@)),
{
    let parts = match get_array(get_field(Some(details), "participants")) {
        Some(parts) => parts,
        None => {
            return Err(LcuError::MissingParticipants);
        },
    };
    let ids = match get_array(get_field(Some(details), "participantIdentities")) {
        Some(ids) => ids,
        None => {
            return Err(LcuError::MissingIdentities);
        },
    };
    let me = String::from_str(my_puuid);
    let my_pid = match find_my_pid(ids, &me) {
        Some(pid) => pid,
        None => {
            return Err(LcuError::PlayerNotInGame);
        },
    };
    let team = match find_team(parts, my_pid) {
        Some(team) => team,
        None => {
            return Err(LcuError::TeamNotFound);
        },
    };
    let ghost side = side_of(parts@, team);
    // The positions of the team's participants, and their participant ids.
    let mut members: Vec<usize> = Vec::new();
    let mut keys: Vec<i128> = Vec::new();
    let mut i: usize = 0;
    while i < parts.len()
        invariant
            i <= parts@.len(),
            side == side_of(parts@, team),
            forall|k: int| 0 <= k < members@.len() ==> #[trigger] members@[k] < parts@.len(),
            reorder(parts@, members@) =~= parts@.take(i as int).filter(|p: JsonValue| team_of(p) == team),
            keys@ =~= pid_keys(reorder(parts@, members@)),
        decreases parts@.len() - i,
    {
        proof {
            assert(parts@.take(i + 1).drop_last() =~= parts@.take(i as int));
            reveal_with_fuel(Seq::<_>::filter, 1);
        }
        if get_i64_or_zero(get_field(Some(&parts[i]), "teamId")) == team {
            members.push(i);
            keys.push(get_i64_or_zero(get_field(Some(&parts[i]), "participantId")) as i128);
        }
        i = i + 1;
    }
    assert(parts@.take(parts@.len() as int) =~= parts@);
    assert(reorder(parts@, members@) == side);
    let ord = stable_order(&keys);
    proof {
        let o = the_stable_order(pid_keys(side));
        assert(is_stable_order(pid_keys(side), o));
        lemma_stable_order_unique(keys@, ord@, o);
    }
    let ghost in_order = side_in_floor_order(parts@, team);
    let ghost expected = side_players(parts@, team, ids@, me@, texts(friend_puuids@));
    let mut players: Vec<PlayerDamage> = Vec::new();
    let mut friends: Vec<PlayerDamage> = Vec::new();
    let mut k: usize = 0;
    while k < ord.len()
        invariant
            k <= ord@.len(),
            ord@.len() == members@.len(),
            forall|q: int| 0 <= q < ord@.len() ==> #[trigger] ord@[q] < members@.len(),
            forall|q: int| 0 <= q < members@.len() ==> #[trigger] members@[q] < parts@.len(),
            in_order == reorder(reorder(parts@, members@), ord@),
            expected == in_order.map(|q: int, p: JsonValue| player_from(p, (q + 1) as usize, ids@, me@, texts(friend_puuids@))),
            players@.len() == k,
            players_view(players@) =~= expected.take(k as int),
            players_view(friends@) =~= friends_of(expected.take(k as int)),
        decreases ord@.len() - k,
    {
        let p = &parts[members[ord[k]]];
        assert(in_order[k as int] == *p);
        let player = player_of(p, k + 1, ids, &me, friend_puuids);
        proof {
            assert(expected.take(k + 1).drop_last() =~= expected.take(k as int));
            reveal_with_fuel(Seq::<_>::filter, 1);
        }
        if player.is_friend {
            friends.push(player.duplicate());
        }
        players.push(player);
        k = k + 1;
    }
    assert(expected.take(k as int) =~= expected);
    let friend_count = friends.len();
    let teams = group_into_teams(&friends, friend_count);
    Ok(GameResult { all_players: players, friend_count, teams, is_red_packet_game: friend_count >= 2 })
}

/// The request path of the current summoner.
pub const CURRENT_SUMMONER_PATH: &'static str = "/lol-summoner/v1/current-summoner";

/// The request path of the game flow phase.
pub const GAMEFLOW_PHASE_PATH: &'static str = "/lol-gameflow/v1/gameflow-phase";

/// The request path of the friend list.
pub const FRIENDS_PATH: &'static str = "/lol-chat/v1/friends";

/// The display name of the current summoner ("未知" when missing).
pub open spec fn display_name(summoner: JsonValue) -> Seq<char> {
    text_or(field(Some(summoner), "displayName"@), "未知"@)
}

/// The display name of the current summoner, read from the reply to
/// `CURRENT_SUMMONER_PATH`.
pub fn summoner_display_name(summoner: &JsonValue) -> (r: String)
    ensures
        r@ == display_name(*summoner),
        as_text(field(Some(*summoner), "displayName"@)) matches Some(n) ==> r@ == n,
        as_text(field(Some(*summoner), "displayName"@)) is None ==> r@ == "未知"@,
{
    proof {
        lemma_display_name(*summoner);
    }
    get_str_or(get_field(Some(summoner), "displayName"), "未知")
}

/// The game flow phase ("None" when the reply is no string).
pub open spec fn phase_name(reply: JsonValue) -> Seq<char> {
    text_or(Some(reply), "None"@)
}

/// The game flow phase, read from the reply to `GAMEFLOW_PHASE_PATH`.
pub fn gameflow_phase_name(reply: &JsonValue) -> (r: String)
    ensures
        r@ == phase_name(*reply),
        *reply matches JsonValue::Str(t) ==> r@ == t@,
        !(*reply is Str) ==> r@ == "None"@,
{
    proof {
        lemma_phase_name(*reply);
    }
    get_str_or(Some(reply), "None")
}

/// The PUUID of the current summoner, or `MissingPuuid`.
pub fn summoner_puuid(summoner: &JsonValue) -> (r: Result<String, LcuError>)
    ensures
        as_text(field(Some(*summoner), "puuid"@)) matches Some(p) ==> (r matches Ok(s) && s@ == p),
        as_text(field(Some(*summoner), "puuid"@)) is None ==> r == Err::<String, LcuError>(LcuError::MissingPuuid),
{
    match get_str(get_field(Some(summoner), "puuid")) {
        Some(p) => Ok(String::from_str(p)),
        None => Err(LcuError::MissingPuuid),
    }
}

/// The distinct PUUIDs of the friends `items`, in order of first appearance.
pub open spec fn listed_puuids(items: Seq<JsonValue>) -> Seq<Seq<char>>
    decreases items.len(),
{
    if items.len() == 0 {
        Seq::empty()
    } else {
        let before = listed_puuids(items.drop_last());
        match as_text(field(Some(items.last()), "puuid"@)) {
            Some(p) => if before.contains(p) {
                before
            } else {
                before.push(p)
            },
            None => before,
        }
    }
}

/// The distinct PUUIDs of the friend list reply (none when it is no array).
pub open spec fn friend_puuid_list(reply: JsonValue) -> Seq<Seq<char>> {
    match as_items(Some(reply)) {
        Some(items) => listed_puuids(items),
        None => Seq::empty(),
    }
}

/// The PUUIDs of the friends, read from the reply to `FRIENDS_PATH`: each
/// once, in order of first appearance.
pub fn friend_puuids(reply: &JsonValue) -> (r: Vec<String>)
    ensures
        texts(r@) == friend_puuid_list(*reply),
{
    let mut out: Vec<String> = Vec::new();
    match get_array(Some(reply)) {
        Some(items) => {
            let mut i: usize = 0;
            while i < items.len()
                invariant
                    i <= items@.len(),
                    texts(out@) =~= listed_puuids(items@.take(i as int)),
                decreases items@.len() - i,
            {
                assert(items@.take(i + 1).drop_last() =~= items@.take(i as int));
                assert(items@.take(i + 1).last() == items@[i as int]);
                match get_str(get_field(Some(&items[i]), "puuid")) {
                    Some(p) => {
                        let s = String::from_str(p);
                        if !contains_text(&out, &s) {
                            out.push(s);
                        }
                    },
                    None => {},
                }
                i = i + 1;
            }
            assert(items@.take(items@.len() as int) =~= items@);
        },
        None => {},
    }
    out
}

/// The id of the latest game of a match history (`games.games[0].gameId`).
pub open spec fn latest_game(history: JsonValue) -> Option<i64> {
    as_int(field(element(field(field(Some(history), "games"@), "games"@), 0), "gameId"@))
}

/// The id of the latest game, read from the match history, or `NoRecentGame`.
pub fn latest_game_id(history: &JsonValue) -> (r: Result<i64, LcuError>)
    ensures
        latest_game(*history) matches Some(id) ==> r == Ok::<i64, LcuError>(id),
        latest_game(*history) is None ==> r == Err::<i64, LcuError>(LcuError::NoRecentGame),
        field(field(Some(*history), "games"@), "games"@) matches Some(JsonValue::Array(items)) ==> (items@.len() > 0
            ==> (as_int(field(Some(items@[0]), "gameId"@)) matches Some(g) ==> r == Ok::<i64, LcuError>(g))),
{
    proof {
        lemma_latest_game_is_first(*history);
    }
    let games = get_field(get_field(Some(history), "games"), "games");
    match get_i64(get_field(get_element(games, 0), "gameId")) {
        Some(id) => Ok(id),
        None => Err(LcuError::NoRecentGame),
    }
}

/// The request path of the latest game in the match history of `puuid`.
pub open spec fn history_path(puuid: Seq<char>) -> Seq<char> {
    "/lol-match-history/v1/products/lol/"@ + puuid + "/matches?begIndex=0&endIndex=1"@
}

/// The request path of the match history of `puuid`, latest game only.
pub fn match_history_path(puuid: &str) -> (r: String)
    ensures
        r@ == history_path(puuid@),
{
    let mut path = String::from_str("/lol-match-history/v1/products/lol/");
    path.append(puuid);
    path.append("/matches?begIndex=0&endIndex=1");
    path
}

/// The request path of the details of game `game_id`.
pub open spec fn details_path(game_id: i64) -> Seq<char> {
    "/lol-match-history/v1/games/"@ + signed_decimal(game_id as int)
}

/// The request path of the details of game `game_id`.
pub fn game_details_path(game_id: i64) -> (r: String)
    ensures
        r@ == details_path(game_id),
{
    let mut path = String::from_str("/lol-match-history/v1/games/");
    let id = i64_to_decimal(game_id);
    path.append(id.as_str());
    path
}

/// Where the fetch of the last game result stands: which reply it waits
/// for, and what it has learnt.
pub enum FetchStage {
    /// Waits for the current summoner.
    Summoner,
    /// Waits for the friend list of the summoner of PUUID `puuid`.
    Friends { puuid: String },
    /// Waits for the match history.
    History { puuid: String, friends: Vec<String> },
    /// Waits for the details of the latest game.
    Details { puuid: String, friends: Vec<String> },
}

/// What the fetch does next: request `path` and go on at stage `next`, or
/// end with a result.
pub enum FetchStep {
    Request { next: FetchStage, path: String },
    Done(Result<GameResult, LcuError>),
}

/// The first step of a fetch: request the current summoner.
pub fn start_last_game_fetch() -> (r: FetchStep)
    ensures
        r matches FetchStep::Request { next, path } && next is Summoner && path@ == CURRENT_SUMMONER_PATH@,
{
    FetchStep::Request { next: FetchStage::Summoner, path: String::from_str(CURRENT_SUMMONER_PATH) }
}

/// The step the fetch takes on a reply at each stage: a failed request ends
/// it with that error, except the friend list, whose failure counts as no
/// friends; the current summoner gives the PUUID (or ends with
/// `MissingPuuid`), the friend list the friends, the match history the
/// latest game (or ends with `NoRecentGame`), and the game details the
/// result.
pub open spec fn fetch_step(stage: FetchStage, reply: Result<JsonValue, LcuError>, step: FetchStep) -> bool {
    match stage {
        FetchStage::Summoner => match reply {
            Err(e) => step == FetchStep::Done(Err(e)),
            Ok(v) => match as_text(field(Some(v), "puuid"@)) {
                Some(p) => step matches FetchStep::Request { next: FetchStage::Friends { puuid }, path }
                    && puuid@ == p && path@ == FRIENDS_PATH@,
                None => step == FetchStep::Done(Err(LcuError::MissingPuuid)),
            },
        },
        FetchStage::Friends { puuid: p } => step matches FetchStep::Request { next: FetchStage::History { puuid, friends }, path }
            && puuid@ == p@ && path@ == history_path(p@)
            && texts(friends@) == match reply {
                Ok(v) => friend_puuid_list(v),
                Err(_) => Seq::<Seq<char>>::empty(),
            },
        FetchStage::History { puuid: p, friends: f } => match reply {
            Err(e) => step == FetchStep::Done(Err(e)),
            Ok(h) => match latest_game(h) {
                Some(id) => step matches FetchStep::Request { next: FetchStage::Details { puuid, friends }, path }
                    && puuid@ == p@ && texts(friends@) == texts(f@) && path@ == details_path(id),
                None => step == FetchStep::Done(Err(LcuError::NoRecentGame)),
            },
        },
        FetchStage::Details { puuid: p, friends: f } => match reply {
            Err(e) => step == FetchStep::Done(Err(e)),
            Ok(d) => step matches FetchStep::Done(r) && outcome_view(r) == game_outcome(d, p@, texts(f@)),
        },
    }
}

/// Takes the step of the fetch on the reply to its last request, as
/// `fetch_step` states.
pub fn advance_last_game_fetch(stage: FetchStage, reply: Result<JsonValue, LcuError>) -> (r: FetchStep)
    ensures
        fetch_step(stage, reply, r),
        stage matches FetchStage::Friends { puuid: p } ==> r matches FetchStep::Request {
            next: FetchStage::History { puuid, friends },
            ..
        } && puuid@ == p@ && texts(friends@).no_duplicates() && forall|q: Seq<char>|
            #[trigger] texts(friends@).contains(q) <==> reply_lists_puuid(reply, q),
{
    let ghost stage0 = stage;
    let ghost reply0 = reply;
    let r = advance_fetch_step(stage, reply);
    proof {
        if let FetchStage::Friends { puuid: p } = stage0 {
            lemma_friends_stage(p, reply0, r);
        }
    }
    r
}

fn advance_fetch_step(stage: FetchStage, reply: Result<JsonValue, LcuError>) -> (r: FetchStep)
    ensures
        fetch_step(stage, reply, r),
{
    match stage {
        FetchStage::Summoner => match reply {
            Err(e) => FetchStep::Done(Err(e)),
            Ok(v) => match summoner_puuid(&v) {
                Ok(puuid) => FetchStep::Request {
                    next: FetchStage::Friends { puuid },
                    path: String::from_str(FRIENDS_PATH),
                },
                Err(e) => FetchStep::Done(Err(e)),
            },
        },
        FetchStage::Friends { puuid } => {
            let friends = match &reply {
                Ok(v) => friend_puuids(v),
                Err(_) => {
                    let none: Vec<String> = Vec::new();
                    assert(texts(none@) =~= Seq::<Seq<char>>::empty());
                    none
                },
            };
            let path = match_history_path(puuid.as_str());
            FetchStep::Request { next: FetchStage::History { puuid, friends }, path }
        },
        FetchStage::History { puuid, friends } => match reply {
            Err(e) => FetchStep::Done(Err(e)),
            Ok(h) => match latest_game_id(&h) {
                Ok(id) => FetchStep::Request {
                    next: FetchStage::Details { puuid, friends },
                    path: game_details_path(id),
                },
                Err(e) => FetchStep::Done(Err(e)),
            },
        },
        FetchStage::Details { puuid, friends } => match reply {
            Err(e) => FetchStep::Done(Err(e)),
            Ok(d) => FetchStep::Done(build_game_result(&d, puuid.as_str(), &friends)),
        },
    }
}

proof fn lemma_friends_keep_floor_order(players: Seq<PlayerView>)
    requires
        forall|i: int, j: int| 0 <= i < j < players.len() ==> (#[trigger] players[i]).floor < (#[trigger] players[j]).floor,
    ensures
        friends_of(players).len() <= players.len(),
        forall|i: int, j: int|
            0 <= i < j < friends_of(players).len() ==> (#[trigger] friends_of(players)[i]).floor < (#[trigger] friends_of(
                players,
            )[j]).floor,
    decreases players.len(),
{
    reveal_with_fuel(Seq::<_>::filter, 1);
    if players.len() > 0 {
        let front = players.drop_last();
        lemma_friends_keep_floor_order(front);
        let pred = |p: PlayerView| p.is_friend;
        assert forall|k: int| 0 <= k < friends_of(front).len() implies (#[trigger] friends_of(front)[k]).floor
            < players.last().floor by {
            assert(friends_of(front).contains(friends_of(front)[k]));
            front.lemma_filter_contains_rev(pred, friends_of(front)[k]);
            let q = choose|q: int| 0 <= q < front.len() && front[q] == friends_of(front)[k];
            assert(players[q] == front[q]);
        }
    }
}

/// The side of a game: its players stand on floors 1, 2, ... in order,
/// the friends keep that order when they are grouped, their count is
/// `friend_count`, and the game is a red packet game exactly when at least
/// two friends played.
pub proof fn lemma_side_players(
    parts: Seq<JsonValue>,
    team: i64,
    ids: Seq<JsonValue>,
    me: Seq<char>,
    friends: Seq<Seq<char>>,
)
    requires
        parts.len() < usize::MAX,
    ensures
        ({
            let players = side_players(parts, team, ids, me, friends);
            let game = game_of(players);
            &&& players.len() == side_of(parts, team).len()
            &&& forall|i: int| 0 <= i < players.len() ==> (#[trigger] players[i]).floor == i + 1
            &&& by_floor_keeps(friends_of(players))
            &&& game.friend_count == friends_of(players).len()
            &&& game.is_red_packet_game <==> game.friend_count >= 2
        }),
{
    let side = side_of(parts, team);
    let pred = |p: JsonValue| team_of(p) == team;
    parts.lemma_filter_len(pred);
    let keys = pid_keys(side);
    lemma_stable_order_exists(keys);
    let players = side_players(parts, team, ids, me, friends);
    assert forall|i: int, j: int| 0 <= i < j < players.len() implies (#[trigger] players[i]).floor < (#[trigger] players[j]).floor by {}
    lemma_friends_keep_floor_order(players);
    lemma_by_floor_of_sorted(friends_of(players));
}

/// Sorting the players by floor leaves them as they are.
pub open spec fn by_floor_keeps(players: Seq<PlayerView>) -> bool {
    crate::teams::by_floor(players) == players
}

/// The PUUID a friend entry lists.
pub open spec fn entry_puuid(item: JsonValue) -> Option<Seq<char>> {
    as_text(field(Some(item), "puuid"@))
}

/// The friend PUUIDs form a set: each occurs once, and a PUUID is listed
/// exactly when some friend entry gives it.
pub proof fn lemma_listed_puuids(items: Seq<JsonValue>)
    ensures
        listed_puuids(items).no_duplicates(),
        forall|p: Seq<char>|
            #[trigger] listed_puuids(items).contains(p) <==> exists|i: int|
                0 <= i < items.len() && #[trigger] entry_puuid(items[i]) == Some(p),
    decreases items.len(),
{
    if items.len() > 0 {
        let front = items.drop_last();
        lemma_listed_puuids(front);
        let before = listed_puuids(front);
        assert forall|p: Seq<char>|
            #[trigger] listed_puuids(items).contains(p) <==> exists|i: int|
                0 <= i < items.len() && #[trigger] entry_puuid(items[i]) == Some(p) by {
            if listed_puuids(items).contains(p) {
                if before.contains(p) {
                    let i = choose|i: int| 0 <= i < front.len() && #[trigger] entry_puuid(front[i]) == Some(p);
                    assert(items[i] == front[i]);
                } else {
                    let k = choose|k: int| 0 <= k < listed_puuids(items).len() && listed_puuids(items)[k] == p;
                    assert(entry_puuid(items[items.len() - 1]) == Some(p));
                }
            }
            if exists|i: int| 0 <= i < items.len() && #[trigger] entry_puuid(items[i]) == Some(p) {
                let i = choose|i: int| 0 <= i < items.len() && #[trigger] entry_puuid(items[i]) == Some(p);
                if i < front.len() {
                    assert(front[i] == items[i]);
                    assert(before.contains(p));
                    let k = choose|k: int| 0 <= k < before.len() && before[k] == p;
                    assert(listed_puuids(items)[k] == p);
                } else if !before.contains(p) {
                    assert(listed_puuids(items)[before.len() as int] == p);
                }
            }
        }
    }
}

/// How far a fetch has come: 0 before the summoner, 3 before the details.
pub open spec fn stage_rank(stage: FetchStage) -> nat {
    match stage {
        FetchStage::Summoner => 0,
        FetchStage::Friends { .. } => 1,
        FetchStage::History { .. } => 2,
        FetchStage::Details { .. } => 3,
    }
}

/// The fetch always ends: every request moves it one stage on, and the
/// reply to the game details always ends it, so a fetch takes at most four
/// requests.
pub proof fn lemma_fetch_ends(stage: FetchStage, reply: Result<JsonValue, LcuError>, step: FetchStep)
    requires
        fetch_step(stage, reply, step),
    ensures
        step matches FetchStep::Request { next, .. } ==> stage_rank(next) == stage_rank(stage) + 1,
        stage is Details ==> step is Done,
{
}

/// The reply lists the PUUID `q`: it is an array with an entry whose
/// `puuid` member is the string `q`.
pub open spec fn reply_lists_puuid(reply: Result<JsonValue, LcuError>, q: Seq<char>) -> bool {
    match reply {
        Ok(JsonValue::Array(items)) => exists|i: int|
            0 <= i < items@.len() && #[trigger] as_text(field(Some(items@[i]), "puuid"@)) == Some(q),
        _ => false,
    }
}

/// The friend list is kept: on a reply to the friend list the fetch goes on
/// to the match history of the same summoner, holding each PUUID that the
/// reply lists, once, and no other; a failed or malformed reply counts as
/// no friends.
pub proof fn lemma_friends_stage(p: String, reply: Result<JsonValue, LcuError>, step: FetchStep)
    requires
        fetch_step(FetchStage::Friends { puuid: p }, reply, step),
    ensures
        step matches FetchStep::Request { next: FetchStage::History { puuid, friends }, path } && puuid@ == p@
            && path@ == history_path(p@) && texts(friends@).no_duplicates() && forall|q: Seq<char>|
            #[trigger] texts(friends@).contains(q) <==> reply_lists_puuid(reply, q),
{
    if let FetchStep::Request { next: FetchStage::History { puuid, friends }, path } = step {
        match reply {
            Ok(v) => {
                match v {
                    JsonValue::Array(items) => {
                        lemma_listed_puuids(items@);
                        assert forall|q: Seq<char>| #[trigger] texts(friends@).contains(q) <==> reply_lists_puuid(reply, q) by {
                            if texts(friends@).contains(q) {
                                let i = choose|i: int| 0 <= i < items@.len() && #[trigger] entry_puuid(items@[i]) == Some(q);
                                assert(as_text(field(Some(items@[i]), "puuid"@)) == Some(q));
                            }
                            if reply_lists_puuid(reply, q) {
                                let i = choose|i: int| 0 <= i < items@.len() && #[trigger] as_text(field(Some(items@[i]), "puuid"@)) == Some(q);
                                assert(entry_puuid(items@[i]) == Some(q));
                            }
                        }
                    },
                    _ => {
                        assert(texts(friends@) =~= Seq::<Seq<char>>::empty());
                    },
                }
            },
            Err(_) => {
                assert(texts(friends@) =~= Seq::<Seq<char>>::empty());
            },
        }
    }
}

/// The side in floor order is the participants of the team sorted by
/// participant id: ids never decrease along it, it holds only participants
/// of the team, and every participant of the team is on it.
pub proof fn lemma_side_in_participant_order(parts: Seq<JsonValue>, team: i64)
    requires
        parts.len() <= usize::MAX,
    ensures
        ({
            let side = side_in_floor_order(parts, team);
            &&& forall|i: int, j: int|
                0 <= i < j < side.len() ==> int_or_zero(field(Some(#[trigger] side[i]), "participantId"@))
                    <= int_or_zero(field(Some(#[trigger] side[j]), "participantId"@))
            &&& forall|i: int|
                0 <= i < side.len() ==> parts.contains(#[trigger] side[i]) && int_or_zero(
                    field(Some(side[i]), "teamId"@),
                ) == team
            &&& forall|k: int|
                0 <= k < parts.len() && int_or_zero(field(Some(parts[k]), "teamId"@)) == team ==> side.contains(
                    #[trigger] parts[k],
                )
        }),
{
    let pred = |p: JsonValue| team_of(p) == team;
    let members = side_of(parts, team);
    parts.lemma_filter_len(pred);
    let keys = pid_keys(members);
    lemma_stable_order_exists(keys);
    let ord = the_stable_order(keys);
    let side = side_in_floor_order(parts, team);
    assert(is_stable_order(keys, ord));
    assert forall|i: int, j: int| 0 <= i < j < side.len() implies int_or_zero(field(Some(#[trigger] side[i]), "participantId"@))
        <= int_or_zero(field(Some(#[trigger] side[j]), "participantId"@)) by {
        assert(crate::order::key_index_less(keys, ord[i] as int, ord[j] as int));
        assert(side[i] == members[ord[i] as int]);
        assert(side[j] == members[ord[j] as int]);
    }
    assert forall|i: int| 0 <= i < side.len() implies parts.contains(#[trigger] side[i]) && int_or_zero(
        field(Some(side[i]), "teamId"@),
    ) == team by {
        let x = members[ord[i] as int];
        assert(side[i] == x);
        parts.lemma_filter_pred(pred, ord[i] as int);
        assert(members.contains(x));
        parts.lemma_filter_contains_rev(pred, x);
    }
    assert forall|k: int| 0 <= k < parts.len() && int_or_zero(field(Some(parts[k]), "teamId"@)) == team implies side.contains(
        #[trigger] parts[k],
    ) by {
        parts.lemma_filter_contains(pred, k);
        let r = choose|r: int| 0 <= r < members.len() && members[r] == parts[k];
        assert(ord.contains(r as usize));
        let q = choose|q: int| 0 <= q < ord.len() && ord[q] == r as usize;
        assert(side[q] == parts[k]);
    }
}

/// The players of a result stand on floors 1, 2, ... and each has the
/// champion of the participant at its place in participant id order.
pub proof fn lemma_outcome_players(
    details: JsonValue,
    me: Seq<char>,
    friends: Seq<Seq<char>>,
    parts: Seq<JsonValue>,
    ids: Seq<JsonValue>,
    pid: i64,
    team: i64,
)
    requires
        as_items(field(Some(details), "participants"@)) == Some(parts),
        as_items(field(Some(details), "participantIdentities"@)) == Some(ids),
        pid_of_puuid(ids, ids, me) == Some(pid),
        team_of_pid(parts, pid) == Some(team),
        parts.len() < usize::MAX,
    ensures
        game_outcome(details, me, friends) matches Ok(g) && g.all_players.len() == side_in_floor_order(parts, team).len()
            && forall|i: int|
            0 <= i < g.all_players.len() ==> (#[trigger] g.all_players[i]).floor == i + 1
                && g.all_players[i].champion_id == int_or_zero(
                field(Some(side_in_floor_order(parts, team)[i]), "championId"@),
            ),
{
    lemma_side_players(parts, team, ids, me, friends);
}

/// The id of the latest game is the `gameId` of the first game the match
/// history lists; a history without games has none.
pub proof fn lemma_latest_game_is_first(history: JsonValue)
    ensures
        field(field(Some(history), "games"@), "games"@) matches Some(JsonValue::Array(items)) ==> (items@.len() > 0
            ==> (as_int(field(Some(items@[0]), "gameId"@)) matches Some(g) ==> latest_game(history) == Some(g))),
        field(field(Some(history), "games"@), "games"@) matches Some(JsonValue::Array(items)) ==> (items@.len() == 0
            ==> latest_game(history) is None),
{
}

/// The display name is the `displayName` member when it is a string,
/// whatever else the reply holds, and "未知" otherwise.
pub proof fn lemma_display_name(summoner: JsonValue)
    ensures
        as_text(field(Some(summoner), "displayName"@)) matches Some(n) ==> display_name(summoner) == n,
        as_text(field(Some(summoner), "displayName"@)) is None ==> display_name(summoner) == "未知"@,
{
}

/// The game flow phase is the reply when it is a string, and "None"
/// otherwise.
pub proof fn lemma_phase_name(reply: JsonValue)
    ensures
        reply matches JsonValue::Str(t) ==> phase_name(reply) == t@,
        !(reply is Str) ==> phase_name(reply) == "None"@,
{
}

/// The PUUID on record for a participant id comes from the last identity
/// with that id: a later identity replaces an earlier one.
pub proof fn lemma_last_with_pid(ids: Seq<JsonValue>, pid: i64)
    ensures
        last_with_pid(ids, pid) matches Some(x) ==> exists|i: int|
            0 <= i < ids.len() && ids[i] == x && int_or_zero(field(Some(x), "participantId"@)) == pid && forall|j: int|
                i < j < ids.len() ==> int_or_zero(field(Some(#[trigger] ids[j]), "participantId"@)) != pid,
        last_with_pid(ids, pid) is None ==> forall|j: int|
            0 <= j < ids.len() ==> int_or_zero(field(Some(#[trigger] ids[j]), "participantId"@)) != pid,
    decreases ids.len(),
{
    if ids.len() > 0 {
        let front = ids.drop_last();
        lemma_last_with_pid(front, pid);
        if participant_id(ids.last()) == pid {
            assert(ids[ids.len() - 1] == ids.last());
        } else if let Some(x) = last_with_pid(front, pid) {
            let i = choose|i: int|
                0 <= i < front.len() && front[i] == x && int_or_zero(field(Some(x), "participantId"@)) == pid && forall|j: int|
                    i < j < front.len() ==> int_or_zero(field(Some(#[trigger] front[j]), "participantId"@)) != pid;
            assert(ids[i] == x);
            assert forall|j: int| i < j < ids.len() implies int_or_zero(field(Some(#[trigger] ids[j]), "participantId"@)) != pid by {
                if j < front.len() {
                    assert(ids[j] == front[j]);
                }
            }
        } else {
            assert forall|j: int| 0 <= j < ids.len() implies int_or_zero(field(Some(#[trigger] ids[j]), "participantId"@)) != pid by {
                if j < front.len() {
                    assert(ids[j] == front[j]);
                }
            }
        }
    }
}

/// The current summoner's participant id is the id of an identity whose
/// PUUID on record is the summoner's; there is none exactly when no
/// identity's PUUID on record is the summoner's.
pub proof fn lemma_pid_of_puuid(rest: Seq<JsonValue>, ids: Seq<JsonValue>, me: Seq<char>)
    ensures
        pid_of_puuid(rest, ids, me) matches Some(pid) ==> recorded_puuid(ids, pid) == me && exists|i: int|
            0 <= i < rest.len() && int_or_zero(field(Some(#[trigger] rest[i]), "participantId"@)) == pid,
        pid_of_puuid(rest, ids, me) is None ==> forall|i: int|
            0 <= i < rest.len() ==> recorded_puuid(ids, int_or_zero(field(Some(#[trigger] rest[i]), "participantId"@))) != me,
    decreases rest.len(),
{
    if rest.len() > 0 {
        let tail = rest.drop_first();
        lemma_pid_of_puuid(tail, ids, me);
        if recorded_puuid(ids, participant_id(rest[0])) == me {
            assert(int_or_zero(field(Some(rest[0]), "participantId"@)) == participant_id(rest[0]));
        } else if let Some(pid) = pid_of_puuid(tail, ids, me) {
            let i = choose|i: int| 0 <= i < tail.len() && int_or_zero(field(Some(#[trigger] tail[i]), "participantId"@)) == pid;
            assert(rest[i + 1] == tail[i]);
        } else {
            assert forall|i: int| 0 <= i < rest.len() implies recorded_puuid(ids, int_or_zero(field(Some(#[trigger] rest[i]), "participantId"@))) != me by {
                if i > 0 {
                    assert(rest[i] == tail[i - 1]);
                }
            }
        }
    }
}

/// The team of the current summoner is the `teamId` of the first
/// participant with its participant id.
pub proof fn lemma_team_of_pid(parts: Seq<JsonValue>, pid: i64)
    ensures
        team_of_pid(parts, pid) matches Some(team) ==> exists|k: int|
            0 <= k < parts.len() && int_or_zero(field(Some(parts[k]), "participantId"@)) == pid && as_int(
                field(Some(parts[k]), "teamId"@),
            ) == Some(team) && forall|j: int|
                0 <= j < k ==> int_or_zero(field(Some(#[trigger] parts[j]), "participantId"@)) != pid,
    decreases parts.len(),
{
    if parts.len() > 0 && participant_id(parts[0]) != pid {
        let tail = parts.drop_first();
        lemma_team_of_pid(tail, pid);
        if let Some(team) = team_of_pid(tail, pid) {
            let k = choose|k: int|
                0 <= k < tail.len() && int_or_zero(field(Some(tail[k]), "participantId"@)) == pid && as_int(
                    field(Some(tail[k]), "teamId"@),
                ) == Some(team) && forall|j: int|
                    0 <= j < k ==> int_or_zero(field(Some(#[trigger] tail[j]), "participantId"@)) != pid;
            assert(parts[k + 1] == tail[k]);
            assert forall|j: int| 0 <= j < k + 1 implies int_or_zero(field(Some(#[trigger] parts[j]), "participantId"@)) != pid by {
                if j > 0 {
                    assert(parts[j] == tail[j - 1]);
                }
            }
        }
    }
}

/// Who is a friend: a player is a friend exactly when the PUUID on record
/// for its participant id is the current summoner's or one of the friends'.
pub proof fn lemma_player_is_friend(
    p: JsonValue,
    floor: usize,
    ids: Seq<JsonValue>,
    me: Seq<char>,
    friends: Seq<Seq<char>>,
)
    ensures
        player_from(p, floor, ids, me, friends).is_friend <==> ({
            let puuid = recorded_puuid(ids, int_or_zero(field(Some(p), "participantId"@)));
            puuid == me || exists|i: int| 0 <= i < friends.len() && friends[i] == puuid
        }),
        player_from(p, floor, ids, me, friends).floor == floor,
{
}

/// The fetch carries what it learnt: the match history keeps the summoner
/// and the friends for the details, the details give the result of those
/// details for that summoner and those friends, and a failed request at
/// any stage but the friend list ends the fetch with its error.
pub proof fn lemma_fetch_carries(stage: FetchStage, reply: Result<JsonValue, LcuError>, step: FetchStep)
    requires
        fetch_step(stage, reply, step),
    ensures
        stage matches FetchStage::History { puuid: p, friends: f } ==> (reply is Ok ==> (step matches FetchStep::Request {
            next: FetchStage::Details { puuid, friends },
            ..
        } ==> puuid@ == p@ && texts(friends@) == texts(f@))),
        stage matches FetchStage::Details { puuid: p, friends: f } ==> (reply matches Ok(d) ==> (step matches FetchStep::Done(
            r,
        ) && outcome_view(r) == game_outcome(d, p@, texts(f@)))),
        !(stage is Friends) ==> (reply matches Err(e) ==> step == FetchStep::Done(Err(e))),
{
}

} // verus!
