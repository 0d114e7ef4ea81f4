# cardcrusher

A rules referee for a trading-card duel, verified with Verus. The engine knows
the rules and nothing about any particular card: each card's effects are
scripts, run by a script host, that record what they want done; the engine
checks and applies it.

Layout:

- `src/` — the verified library.
  - `duel/` — the whole game: the card arena and the table (`board`), battles
    (`battle`), effects, costs, the chain and events (`scripting`), the
    task driver that runs turns and menus (`driver`), and why it stops
    (`progress`).
  - `field` — where cards sit; `arena` — the generational card store (the
    `slotmap` crate, behind trusted wrappers); `ids`, `card`, `modifiers`,
    `effect`, `event`, `chain`, `processor`, `zone`, `position`, `reason`,
    `group`, `constants`.
  - `script` — the script-host interface the duel calls for effect stages.
- `app/` — the Lua script host (`mlua`) and card loading.
- `tests/` — scenario tests, including effects run through a script host
  written in Rust.

Every contract is stated over the duel's mathematical view (`DuelView`); the
soundness predicate `Duel::sound` (every card in player 0's or 1's zones,
stats that fold in `i32` with any of their modifiers removed, valid
registry indices) is kept by every rule.
The view also holds a ghost record of every call made into the script host
(`DuelView::calls`): the contracts of activation, costs, resolution, the
chain, event processing and queued rules say, for each answer the host gave,
what the duel did with it.

Laws stated as public proof functions include: drawing twice is drawing the
sum (`Field::lemma_draw_twice`); moves, additions and draws keep each pile
matching the cards located in it (`Field::piles_match`); removed ids are never
revived (`lemma_retired_stays_retired`); decoding undoes encoding
(`lemma_decode_encode`); and a run of the driver keeps the turns in order,
player 0 first and alternating, up to the turn limit (`lemma_run_keeps_turns`);
the same host answers give a step the same status, messages and turn record
(`lemma_step_fixed`); every driver step that runs on lowers the work left
before a player is next asked something, so `process` always stops with
`End` or `Awaiting` (`lemma_step_work`); a battle deals exactly its preview
(`lemma_preview_is_dealt`); and positions follow moves
(`lemma_position_after_move`).

The script verbs (`destroy`, `send`, `pay_lp`, `prompt_selection`,
`monster_zone`, `targets`) are verified functions in `effect`; the Lua host in
`app/` only converts Lua values and calls them.
