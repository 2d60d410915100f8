# rs_poker

Poker primitives with their behaviour stated as contracts and proved with
Verus: cards, bit sets of cards, hands, decks, five- and seven-card hand
ranking, holdem starting hands, hand range parsing ("AKs", "TT+",
"JT-67s", "KK+,A2s+"), Monte Carlo holdem, the betting state of a holdem
hand, a tournament (ICM) simulation, and combinations of cards.

Layout:

- `src/cards`: cards, card sets, decks, hands, ranking, and the proofs
  about ranking: real hands can always be ranked (`rank_defined`); on five
  cards the seven-card evaluation agrees with the five-card one
  (`rank_agree`); and on five to seven cards it gives the best five-card
  rank among them, no five ranking higher (`rank_best`) and some five
  ranking the same (`rank_reach`).
- `src/holdem`: starting hands, range parsing, Monte Carlo games.
- `src/arena`: the betting state of a hand and copies of it to explore.
- `src/utils`: sets of seats.
- `src/hand.rs`, `src/rank.rs`, `src/card_iter.rs`: hands as plain lists,
  their ranking by category, and every choice of cards from a list.
- `src/simulated_icm.rs`: one round at a time of a tournament simulation.
- Trusted contracts (the calls into outside code, believed rather than
  proved) stand in four files: `src/rng.rs` (`rand`: the seeded
  generator, shuffling, sampling, drawing), `src/strings.rs`
  (`String::push`), `src/rank.rs` (the `vec_map` maps of counts and of
  lists that rank a hand by category) and `src/simulated_icm.rs` (the
  `fixedbitset` set of players still in).
- `app/main.rs`: prints every starting hand; it also holds the loops that
  run a tournament to its end and estimate equity in floating point.
