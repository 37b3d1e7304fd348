# Wordsmith

The rules of Wordsmith, a Scrabble-style letter auction for bots, as a
verified library. Each round one letter is auctioned with sealed bids; the
winner pays (its bid, or the second bid in a Vickrey auction) and adds the
letter to its rack; words played from a rack earn their base score times a
length multiplier. A matchmaker starts matches among free bots, and a
tournament runs Swiss rounds and then a knock-out bracket.

## Layout

- `src/` — the library, verified by Verus. The game's tables are values of
  `db::Db`; every reducer is a function from the tables (and the caller's
  context) to new tables and a result, with a contract over `db::DbView`.
  - `letters`, `dictionary`, `text`: letter values, rewards, the word list
    and its lookups.
  - `auction`, `bidding`, `bag`, `matchplay`, `play`, `tick`: matches, from
    the first draw to the last auction.
  - `bots`, `matchmaker`, `tournament`, `stats`: bots, the matchmaker,
    tournaments and per-bot counters.
  - `rng`: random draws through `rand`'s `StdRng`, and the shuffle.
  - `sorting`, `db`: the stable sort and the table helpers the rest uses.
- `tests/` — tests of the library on concrete games.
- `app/` — the host side: reading the word list, the ELO rating update
  (floating point), the reducers' messages and logging.
