# aram_helper

The verified core of a desktop helper for League of Legends ARAM "red packet"
games: it finds the running client's port and token, models the client's JSON
replies, puts the summoner's side of the last game in floor order, and groups
the friends on it into competing teams, marking the team with the lowest score
as the loser.

- `src/` is the library, verified with Verus: `text` (decimal rendering, search,
  trimming, splitting), `credentials` (command line, process listing and
  lockfile parsing), `connection` (authorization and request URLs), `json`
  (the reply model), `order` (stable sorting by key), `teams` (grouping and
  the loser), `game` (the result of a game and the fetch that leads to it),
  `error` (errors and their messages).
- `tests/` runs the library on concrete inputs.
- `app/` is the unverified shell: processes, files, HTTPS requests, and the
  serializable copies of the results with their float scores.
