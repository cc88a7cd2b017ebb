# game_rules

Verified rules of an online role-playing game server, written in Verus.

`src/` is the library. Each module holds one part of the game's logic as
plain-value types and functions with `requires`/`ensures` contracts, and
its laws as public proof functions (`law_*`):

- `bag`, `bag_drop`, `gear`, `enchant`, `purse`: inventory stacking and drawing,
  all-or-nothing batch drops, equipping,
  enchant odds and scrolls, copper purses.
- `estate`, `fence`, `furniture`: estate chest transfers and placement, fence
  edits, furniture checkout.
- `combat`, `combat_audit`, `audit_files`, `debuff`, `abilities`, `bed`:
  attack gates and blows, the combat audit and its files, debuffs, ability
  cooldowns and buffs, bed rest.
- `chat`, `friends`, `consent`: chat commands and blocks, friend lists and
  requests, consent requests.
- `dungeon`, `interest`, `player_snapshot`, `movement`, `instrument`:
  dungeon doors, floors, chests and resets; area-of-interest subscriptions
  and player snapshots; goal-movement request order and lock timing; live
  instruments.
- `keyed`, `text`, `clock`, `chance`: small collections, string helpers,
  and the trusted wrappers around the clock, the `time` crate and `rand`.

`tests/` runs the library on concrete values. `app/` is the unverified
glue around it: the audit's files and serde records, shared locks, and
lock timing against the monotonic clock.
