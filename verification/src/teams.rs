//! Players of one side of a match, and their grouping into competing teams
//! for a red packet game.

use vstd::prelude::*;
use vstd::string::*;

use crate::order::{is_stable_order, key_index_less, lemma_stable_order_exists, lemma_stable_order_unique, stable_order};
use crate::text::{decimal, u64_to_decimal};

verus! {

/// One player of the side of the current summoner, on floor `floor`
/// (1 for the first pick of the side). Its score is its damage dealt to
/// champions plus half the damage it took: `double_score` gives twice it.
pub struct PlayerDamage {
    pub summoner_name: String,
    pub champion_id: i64,
    pub damage: i64,
    pub damage_taken: i64,
    pub kills: i64,
    pub deaths: i64,
    pub assists: i64,
    pub floor: usize,
    pub is_friend: bool,
}

/// A team of the grouping: its name, its players, twice its score, and
/// whether it is the team that lost.
pub struct TeamResult {
    pub name: String,
    pub players: Vec<PlayerDamage>,
    pub double_score: i128,
    pub is_loser: bool,
}

/// The plain values of a `PlayerDamage`.
pub struct PlayerView {
    pub summoner_name: Seq<char>,
    pub champion_id: i64,
    pub damage: i64,
    pub damage_taken: i64,
    pub kills: i64,
    pub deaths: i64,
    pub assists: i64,
    pub floor: usize,
    pub is_friend: bool,
}

/// The plain values of a `TeamResult`.
pub struct TeamView {
    pub name: Seq<char>,
    pub players: Seq<PlayerView>,
    pub double_score: int,
    pub is_loser: bool,
}

impl View for PlayerDamage {
    type V = PlayerView;

    open spec fn view(&self) -> PlayerView {
        PlayerView {
            summoner_name: self.summoner_name@,
            champion_id: self.champion_id,
            damage: self.damage,
            damage_taken: self.damage_taken,
            kills: self.kills,
            deaths: self.deaths,
            assists: self.assists,
            floor: self.floor,
            is_friend: self.is_friend,
        }
    }
}

/// The views of a sequence of players.
pub open spec fn players_view(players: Seq<PlayerDamage>) -> Seq<PlayerView> {
    players.map_values(|p: PlayerDamage| p@)
}

impl View for TeamResult {
    type V = TeamView;

    open spec fn view(&self) -> TeamView {
        TeamView {
            name: self.name@,
            players: players_view(self.players@),
            double_score: self.double_score as int,
            is_loser: self.is_loser,
        }
    }
}

/// The views of a sequence of teams.
pub open spec fn teams_view(teams: Seq<TeamResult>) -> Seq<TeamView> {
    teams.map_values(|t: TeamResult| t@)
}

/// Twice the score of a player: twice its damage plus the damage it took.
pub open spec fn player_double_score(p: PlayerView) -> int {
    2 * p.damage + p.damage_taken
}

impl PlayerDamage {
    /// Twice the score of this player (`damage + damage_taken / 2`),
    /// exact in integers.
    pub fn double_score(&self) -> (r: i128)
        ensures
            r == player_double_score(self@),
    {
        2 * (self.damage as i128) + (self.damage_taken as i128)
    }

    /// A copy of this player.
    pub fn duplicate(&self) -> (r: PlayerDamage)
        ensures
            r@ == self@,
    {
        PlayerDamage {
            summoner_name: self.summoner_name.clone(),
            champion_id: self.champion_id,
            damage: self.damage,
            damage_taken: self.damage_taken,
            kills: self.kills,
            deaths: self.deaths,
            assists: self.assists,
            floor: self.floor,
            is_friend: self.is_friend,
        }
    }
}

/// The floors of the players, as sort keys.
pub open spec fn floor_keys(players: Seq<PlayerView>) -> Seq<i128> {
    players.map_values(|p: PlayerView| p.floor as i128)
}

/// The stable order of `keys` (there is exactly one, see
/// `lemma_stable_order_unique`).
pub open spec fn the_stable_order(keys: Seq<i128>) -> Seq<usize> {
    choose|ord: Seq<usize>| is_stable_order(keys, ord)
}

/// The items of `items` taken in the order `ord`.
pub open spec fn reorder<T>(items: Seq<T>, ord: Seq<usize>) -> Seq<T> {
    ord.map_values(|i: usize| items[i as int])
}

/// The players sorted by floor, players on the same floor kept in their order.
pub open spec fn by_floor(players: Seq<PlayerView>) -> Seq<PlayerView> {
    reorder(players, the_stable_order(floor_keys(players)))
}

/// The team of one player, named after its floor and summoner name.
pub open spec fn solo_team(p: PlayerView) -> TeamView {
    TeamView {
        name: decimal(p.floor as nat) + "楼 "@ + p.summoner_name,
        players: seq![p],
        double_score: player_double_score(p),
        is_loser: false,
    }
}

/// The team of two players on consecutive floors, named after both floors.
pub open spec fn pair_team(a: PlayerView, b: PlayerView) -> TeamView {
    TeamView {
        name: decimal(a.floor as nat) + "+"@ + decimal(b.floor as nat) + "楼"@,
        players: seq![a, b],
        double_score: player_double_score(a) + player_double_score(b),
        is_loser: false,
    }
}

/// The team of the middle player of five, who plays alone and counts for
/// two: its damage counts twice and its damage taken once.
pub open spec fn doubled_team(p: PlayerView) -> TeamView {
    TeamView {
        name: decimal(p.floor as nat) + "楼(×2)"@,
        players: seq![p],
        double_score: 4 * p.damage + 2 * p.damage_taken,
        is_loser: false,
    }
}

/// The teams formed from the players sorted by floor, before the loser is
/// marked: two or three friends play one each, four play the first two
/// against the last two, five play the first two, the middle one doubled,
/// and the last two; any other count forms no team.
pub open spec fn formed_teams(sorted: Seq<PlayerView>, count: nat) -> Seq<TeamView> {
    if count == 2 || count == 3 {
        sorted.map_values(|p: PlayerView| solo_team(p))
    } else if count == 4 {
        seq![pair_team(sorted[0], sorted[1]), pair_team(sorted[2], sorted[3])]
    } else if count == 5 {
        seq![pair_team(sorted[0], sorted[1]), doubled_team(sorted[2]), pair_team(sorted[3], sorted[4])]
    } else {
        Seq::empty()
    }
}

/// The first position of a smallest value (0 for an empty sequence).
pub open spec fn first_min_index(s: Seq<int>) -> int
    decreases s.len(),
{
    if s.len() <= 1 {
        0
    } else {
        let m = first_min_index(s.drop_last());
        if s.last() < s[m] {
            s.len() - 1
        } else {
            m
        }
    }
}

/// The scores of the teams.
pub open spec fn team_scores(teams: Seq<TeamView>) -> Seq<int> {
    teams.map_values(|t: TeamView| t.double_score)
}

/// The teams with exactly the first team of lowest score marked as loser.
pub open spec fn mark_loser(teams: Seq<TeamView>) -> Seq<TeamView> {
    let loser = first_min_index(team_scores(teams));
    teams.map(
        |i: int, t: TeamView|
            TeamView { name: t.name, players: t.players, double_score: t.double_score, is_loser: i == loser },
    )
}

/// The grouping of `friends`, `count` of them, into teams.
pub open spec fn grouped_teams(friends: Seq<PlayerView>, count: nat) -> Seq<TeamView> {
    mark_loser(formed_teams(by_floor(friends), count))
}

proof fn lemma_first_min_index(s: Seq<int>)
    requires
        s.len() > 0,
    ensures
        0 <= first_min_index(s) < s.len(),
        forall|j: int| 0 <= j < s.len() ==> s[first_min_index(s)] <= #[trigger] s[j],
        forall|j: int| 0 <= j < first_min_index(s) ==> s[first_min_index(s)] < #[trigger] s[j],
    decreases s.len(),
{
    if s.len() > 1 {
        let t = s.drop_last();
        lemma_first_min_index(t);
        let m = first_min_index(t);
        assert(t[m] == s[m]);
        assert forall|j: int| 0 <= j < s.len() implies s[first_min_index(s)] <= #[trigger] s[j] by {
            if j < t.len() {
                assert(t[j] == s[j]);
            }
        }
        assert forall|j: int| 0 <= j < first_min_index(s) implies s[first_min_index(s)] < #[trigger] s[j] by {
            if j < t.len() {
                assert(t[j] == s[j]);
            }
        }
    }
}

/// The position of the first smallest score.
fn first_min_position(scores: &Vec<i128>) -> (r: usize)
    requires
        scores@.len() > 0,
    ensures
        r == first_min_index(scores@.map_values(|x: i128| x as int)),
        r < scores@.len(),
{
    let ghost s = scores@.map_values(|x: i128| x as int);
    let mut best: usize = 0;
    let mut i: usize = 1;
    assert(s.take(1).len() == 1);
    while i < scores.len()
        invariant
            1 <= i <= scores@.len(),
            s == scores@.map_values(|x: i128| x as int),
            best < i,
            best == first_min_index(s.take(i as int)),
        decreases scores@.len() - i,
    {
        assert(s.take(i + 1).drop_last() =~= s.take(i as int));
        if scores[i] < scores[best] {
            best = i;
        }
        i = i + 1;
    }
    assert(s.take(i as int) =~= s);
    best
}

/// The friends sorted by floor, players on the same floor kept in order.
fn sort_by_floor(friends: &Vec<PlayerDamage>) -> (sorted: Vec<PlayerDamage>)
    ensures
        sorted@.len() == friends@.len(),
        players_view(sorted@) == by_floor(players_view(friends@)),
{
    let ghost fv = players_view(friends@);
    let mut keys: Vec<i128> = Vec::new();
    let mut i: usize = 0;
    while i < friends.len()
        invariant
            i <= friends@.len(),
            fv == players_view(friends@),
            keys@ =~= floor_keys(fv).take(i as int),
        decreases friends@.len() - i,
    {
        keys.push(friends[i].floor as i128);
        i = i + 1;
    }
    assert(keys@ =~= floor_keys(fv));
    let ord = stable_order(&keys);
    proof {
        let o = the_stable_order(keys@);
        assert(is_stable_order(keys@, o));
        lemma_stable_order_unique(keys@, ord@, o);
    }
    let mut sorted: Vec<PlayerDamage> = Vec::new();
    let mut j: usize = 0;
    while j < ord.len()
        invariant
            j <= ord@.len(),
            ord@.len() == friends@.len(),
            fv == players_view(friends@),
            forall|p: int| 0 <= p < ord@.len() ==> #[trigger] ord@[p] < friends@.len(),
            sorted@.len() == j,
            players_view(sorted@) =~= reorder(fv, ord@).take(j as int),
        decreases ord@.len() - j,
    {
        let p = friends[ord[j]].duplicate();
        sorted.push(p);
        j = j + 1;
    }
    assert(players_view(sorted@) =~= reorder(fv, ord@));
    sorted
}

fn solo_team_of(p: &PlayerDamage, is_loser: bool) -> (t: TeamResult)
    ensures
        t@ == (TeamView { is_loser: is_loser, ..solo_team(p@) }),
{
    let mut name = u64_to_decimal(p.floor as u64);
    name.append("楼 ");
    name.append(p.summoner_name.as_str());
    let mut players: Vec<PlayerDamage> = Vec::new();
    players.push(p.duplicate());
    assert(players_view(players@) =~= seq![p@]);
    TeamResult { name, players, double_score: p.double_score(), is_loser }
}

fn pair_team_of(a: &PlayerDamage, b: &PlayerDamage, is_loser: bool) -> (t: TeamResult)
    ensures
        t@ == (TeamView { is_loser: is_loser, ..pair_team(a@, b@) }),
{
    let mut name = u64_to_decimal(a.floor as u64);
    name.append("+");
    let second = u64_to_decimal(b.floor as u64);
    name.append(second.as_str());
    name.append("楼");
    let mut players: Vec<PlayerDamage> = Vec::new();
    players.push(a.duplicate());
    players.push(b.duplicate());
    assert(players_view(players@) =~= seq![a@, b@]);
    TeamResult { name, players, double_score: a.double_score() + b.double_score(), is_loser }
}

fn doubled_team_of(p: &PlayerDamage, is_loser: bool) -> (t: TeamResult)
    ensures
        t@ == (TeamView { is_loser: is_loser, ..doubled_team(p@) }),
{
    let mut name = u64_to_decimal(p.floor as u64);
    name.append("楼(×2)");
    let mut players: Vec<PlayerDamage> = Vec::new();
    players.push(p.duplicate());
    assert(players_view(players@) =~= seq![p@]);
    let score = 4 * (p.damage as i128) + 2 * (p.damage_taken as i128);
    TeamResult { name, players, double_score: score, is_loser }
}

/// Groups the friends of a match into teams by their count and floors, as
/// `grouped_teams` states, and marks the first team of lowest score as the
/// loser.
pub fn group_into_teams(friends: &Vec<PlayerDamage>, count: usize) -> (teams: Vec<TeamResult>)
    requires
        count == 4 ==> friends@.len() >= 4,
        count == 5 ==> friends@.len() >= 5,
    ensures
        teams_view(teams@) == grouped_teams(players_view(friends@), count as nat),
{
    let sorted = sort_by_floor(friends);
    let ghost sv = by_floor(players_view(friends@));
    let ghost formed = formed_teams(sv, count as nat);
    let ghost loser = first_min_index(team_scores(formed));
    assert(sv == players_view(sorted@));
    if count == 2 || count == 3 {
        let n = sorted.len();
        assert(formed =~= sorted@.map_values(|p: PlayerDamage| solo_team(p@)));
        if n == 0 {
            let teams: Vec<TeamResult> = Vec::new();
            assert(teams_view(teams@) =~= mark_loser(formed));
            return teams;
        }
        let mut scores: Vec<i128> = Vec::new();
        let mut i: usize = 0;
        while i < n
            invariant
                i <= n,
                n == sorted@.len(),
                scores@.len() == i,
                scores@.map_values(|x: i128| x as int) =~= team_scores(formed).take(i as int),
                formed == sorted@.map_values(|p: PlayerDamage| solo_team(p@)),
            decreases n - i,
        {
            scores.push(sorted[i].double_score());
            i = i + 1;
        }
        assert(scores@.map_values(|x: i128| x as int) =~= team_scores(formed));
        let loser_pos = first_min_position(&scores);
        let mut teams: Vec<TeamResult> = Vec::new();
        let mut k: usize = 0;
        while k < n
            invariant
                k <= n,
                n == sorted@.len(),
                teams@.len() == k,
                loser_pos == loser,
                loser == first_min_index(team_scores(formed)),
                formed == sorted@.map_values(|p: PlayerDamage| solo_team(p@)),
                teams_view(teams@) =~= mark_loser(formed).take(k as int),
            decreases n - k,
        {
            let t = solo_team_of(&sorted[k], k == loser_pos);
            assert(formed[k as int] == solo_team(sorted@[k as int]@));
            assert(mark_loser(formed)[k as int] == t@);
            teams.push(t);
            k = k + 1;
        }
        assert(teams_view(teams@) =~= mark_loser(formed));
        teams
    } else if count == 4 {
        let s1 = sorted[0].double_score() + sorted[1].double_score();
        let s2 = sorted[2].double_score() + sorted[3].double_score();
        let first_loses = s1 <= s2;
        let mut teams: Vec<TeamResult> = Vec::new();
        teams.push(pair_team_of(&sorted[0], &sorted[1], first_loses));
        teams.push(pair_team_of(&sorted[2], &sorted[3], !first_loses));
        proof {
            reveal_with_fuel(first_min_index, 3);
            assert(team_scores(formed) =~= seq![s1 as int, s2 as int]);
        }
        assert(teams_view(teams@) =~= mark_loser(formed));
        teams
    } else if count == 5 {
        let s1 = sorted[0].double_score() + sorted[1].double_score();
        let s2 = 4 * (sorted[2].damage as i128) + 2 * (sorted[2].damage_taken as i128);
        let s3 = sorted[3].double_score() + sorted[4].double_score();
        let mut scores: Vec<i128> = Vec::new();
        scores.push(s1);
        scores.push(s2);
        scores.push(s3);
        proof {
            assert(team_scores(formed) =~= scores@.map_values(|x: i128| x as int));
        }
        let loser_pos = first_min_position(&scores);
        let mut teams: Vec<TeamResult> = Vec::new();
        teams.push(pair_team_of(&sorted[0], &sorted[1], loser_pos == 0));
        teams.push(doubled_team_of(&sorted[2], loser_pos == 1));
        teams.push(pair_team_of(&sorted[3], &sorted[4], loser_pos == 2));
        assert(teams_view(teams@) =~= mark_loser(formed));
        teams
    } else {
        let teams: Vec<TeamResult> = Vec::new();
        assert(teams_view(teams@) =~= mark_loser(formed));
        teams
    }
}

/// The number of teams `count` friends form: one each for two or three,
/// two for four, three for five, none otherwise.
pub open spec fn team_count(players: nat, count: nat) -> nat {
    if count == 2 || count == 3 {
        players
    } else if count == 4 {
        2
    } else if count == 5 {
        3
    } else {
        0
    }
}

/// The players of the teams, team after team.
pub open spec fn team_members(teams: Seq<TeamView>) -> Seq<PlayerView> {
    teams.map_values(|t: TeamView| t.players).flatten()
}

/// The sum of twice the scores of players.
pub open spec fn total_double_score(players: Seq<PlayerView>) -> int
    decreases players.len(),
{
    if players.len() == 0 {
        0
    } else {
        total_double_score(players.drop_last()) + player_double_score(players.last())
    }
}

/// Sorting by floor: the players sorted by floor are a stable rearrangement
/// of the players, as many as they are, in nondecreasing order of floor.
pub proof fn lemma_by_floor(friends: Seq<PlayerView>)
    requires
        friends.len() <= usize::MAX,
    ensures
        is_stable_order(floor_keys(friends), the_stable_order(floor_keys(friends))),
        by_floor(friends).len() == friends.len(),
        forall|i: int, j: int|
            0 <= i < j < friends.len() ==> (#[trigger] by_floor(friends)[i]).floor <= (#[trigger] by_floor(friends)[j]).floor,
{
    let keys = floor_keys(friends);
    lemma_stable_order_exists(keys);
    let ord = the_stable_order(keys);
    assert forall|i: int, j: int| 0 <= i < j < friends.len() implies (#[trigger] by_floor(friends)[i]).floor
        <= (#[trigger] by_floor(friends)[j]).floor by {
        assert(key_index_less(keys, ord[i] as int, ord[j] as int));
        assert(by_floor(friends)[i] == friends[ord[i] as int]);
        assert(by_floor(friends)[j] == friends[ord[j] as int]);
    }
}

/// The loser: when there are teams, exactly one is marked as loser; its
/// score is the lowest, and every team before it scores strictly more;
/// marking changes nothing else.
pub proof fn lemma_mark_loser(teams: Seq<TeamView>)
    ensures
        mark_loser(teams).len() == teams.len(),
        forall|i: int|
            0 <= i < teams.len() ==> (#[trigger] mark_loser(teams)[i]).name == teams[i].name
                && mark_loser(teams)[i].players == teams[i].players && mark_loser(teams)[i].double_score
                == teams[i].double_score,
        teams.len() > 0 ==> exists|i: int| 0 <= i < teams.len() && (#[trigger] mark_loser(teams)[i]).is_loser,
        forall|i: int, j: int|
            0 <= i < teams.len() && 0 <= j < teams.len() && (#[trigger] mark_loser(teams)[i]).is_loser
                && (#[trigger] mark_loser(teams)[j]).is_loser ==> i == j,
        forall|i: int, j: int|
            0 <= i < teams.len() && 0 <= j < teams.len() && (#[trigger] mark_loser(teams)[i]).is_loser
                ==> teams[i].double_score <= (#[trigger] teams[j]).double_score,
        forall|i: int, j: int|
            0 <= j < i < teams.len() && (#[trigger] mark_loser(teams)[i]).is_loser
                ==> teams[i].double_score < (#[trigger] teams[j]).double_score,
{
    let scores = team_scores(teams);
    if teams.len() > 0 {
        lemma_first_min_index(scores);
        let m = first_min_index(scores);
        assert(mark_loser(teams)[m].is_loser);
        assert forall|i: int, j: int|
            0 <= i < teams.len() && 0 <= j < teams.len() && (#[trigger] mark_loser(teams)[i]).is_loser
                implies teams[i].double_score <= (#[trigger] teams[j]).double_score by {
            assert(scores[j] == teams[j].double_score);
        }
        assert forall|i: int, j: int|
            0 <= j < i < teams.len() && (#[trigger] mark_loser(teams)[i]).is_loser
                implies teams[i].double_score < (#[trigger] teams[j]).double_score by {
            assert(scores[j] == teams[j].double_score);
        }
    }
}

proof fn lemma_solo_members(sorted: Seq<PlayerView>)
    ensures
        team_members(sorted.map_values(|p: PlayerView| solo_team(p))) == sorted,
    decreases sorted.len(),
{
    let teams = sorted.map_values(|p: PlayerView| solo_team(p));
    let groups = teams.map_values(|t: TeamView| t.players);
    if sorted.len() == 0 {
        assert(groups =~= Seq::<Seq<PlayerView>>::empty());
        assert(team_members(teams) =~= sorted);
    } else {
        let rest = sorted.drop_first();
        lemma_solo_members(rest);
        let rest_teams = rest.map_values(|p: PlayerView| solo_team(p));
        assert(groups.drop_first() =~= rest_teams.map_values(|t: TeamView| t.players));
        assert(groups[0] == seq![sorted[0]]);
        assert(groups.flatten() == groups[0] + groups.drop_first().flatten());
        assert(team_members(teams) =~= sorted);
    }
}

/// The teams by count: `count` friends form `team_count` teams; their
/// players, team after team, are the friends sorted by floor (the first
/// four or five of them for four or five friends); a team's score is the
/// sum of its players' scores, but for the middle team of five, which counts
/// its player twice.
pub proof fn lemma_grouped_teams(friends: Seq<PlayerView>, count: nat)
    requires
        friends.len() <= usize::MAX,
        count == 4 ==> friends.len() >= 4,
        count == 5 ==> friends.len() >= 5,
    ensures
        grouped_teams(friends, count).len() == team_count(friends.len(), count),
        (count == 2 || count == 3) ==> team_members(grouped_teams(friends, count)) == by_floor(friends),
        count == 4 ==> team_members(grouped_teams(friends, count)) == by_floor(friends).take(4),
        count == 5 ==> team_members(grouped_teams(friends, count)) == by_floor(friends).take(5),
        forall|i: int|
            0 <= i < grouped_teams(friends, count).len() && !(count == 5 && i == 1) ==> (#[trigger] grouped_teams(
                friends,
                count,
            )[i]).double_score == total_double_score(grouped_teams(friends, count)[i].players),
        count == 5 ==> grouped_teams(friends, count)[1].double_score == 2 * total_double_score(
            grouped_teams(friends, count)[1].players,
        ),
{
    lemma_by_floor(friends);
    let sorted = by_floor(friends);
    let formed = formed_teams(sorted, count);
    let teams = grouped_teams(friends, count);
    lemma_mark_loser(formed);
    assert forall|i: int| 0 <= i < teams.len() implies #[trigger] teams[i].players == formed[i].players by {}
    let groups = teams.map_values(|t: TeamView| t.players);
    assert(groups =~= formed.map_values(|t: TeamView| t.players));
    if count == 2 || count == 3 {
        lemma_solo_members(sorted);
    } else if count == 4 {
        assert(groups =~= seq![seq![sorted[0], sorted[1]], seq![sorted[2], sorted[3]]]);
        let g1 = groups.drop_first();
        let g2 = g1.drop_first();
        assert(g2 =~= Seq::<Seq<PlayerView>>::empty());
        assert(g1.flatten() == g1[0] + g2.flatten());
        assert(groups.flatten() == groups[0] + g1.flatten());
        assert(groups.flatten() =~= sorted.take(4));
    } else if count == 5 {
        assert(groups =~= seq![seq![sorted[0], sorted[1]], seq![sorted[2]], seq![sorted[3], sorted[4]]]);
        let g1 = groups.drop_first();
        let g2 = g1.drop_first();
        let g3 = g2.drop_first();
        assert(g3 =~= Seq::<Seq<PlayerView>>::empty());
        assert(g2.flatten() == g2[0] + g3.flatten());
        assert(g1.flatten() == g1[0] + g2.flatten());
        assert(groups.flatten() == groups[0] + g1.flatten());
        assert(groups.flatten() =~= sorted.take(5));
    }
    assert forall|i: int|
        0 <= i < teams.len() && !(count == 5 && i == 1) implies (#[trigger] teams[i]).double_score
        == total_double_score(teams[i].players) by {
        let ps = teams[i].players;
        assert(teams[i].double_score == formed[i].double_score);
        if count == 2 || count == 3 {
            assert(formed[i] == solo_team(sorted[i]));
            assert(ps.drop_last() =~= Seq::<PlayerView>::empty());
            assert(total_double_score(ps.drop_last()) == 0);
        } else {
            assert(ps.len() == 2);
            assert(ps.drop_last() =~= seq![ps[0]]);
            assert(ps.drop_last().drop_last() =~= Seq::<PlayerView>::empty());
            assert(total_double_score(ps.drop_last().drop_last()) == 0);
            assert(total_double_score(ps.drop_last()) == player_double_score(ps[0]));
        }
    }
    if count == 5 {
        let ps = teams[1].players;
        assert(teams[1].double_score == formed[1].double_score);
        assert(ps.drop_last() =~= Seq::<PlayerView>::empty());
        assert(total_double_score(ps.drop_last()) == 0);
        assert(ps.last() == sorted[2]);
    }
}

/// Players already in strictly increasing floor order stay in that order
/// when sorted by floor.
pub proof fn lemma_by_floor_of_sorted(players: Seq<PlayerView>)
    requires
        players.len() <= usize::MAX,
        forall|i: int, j: int| 0 <= i < j < players.len() ==> (#[trigger] players[i]).floor < (#[trigger] players[j]).floor,
    ensures
        by_floor(players) == players,
{
    let keys = floor_keys(players);
    let ord = Seq::new(players.len(), |i: int| i as usize);
    assert forall|k: usize| k < keys.len() implies #[trigger] ord.contains(k) by {
        assert(ord[k as int] == k);
    }
    assert forall|i: int, j: int| 0 <= i < j < ord.len() implies key_index_less(keys, #[trigger] ord[i] as int, #[trigger] ord[j] as int) by {
        assert(players[i].floor < players[j].floor);
    }
    assert(is_stable_order(keys, ord));
    let o = the_stable_order(keys);
    lemma_stable_order_unique(keys, ord, o);
    assert(by_floor(players) =~= players);
}

} // verus!
