# aw-combined

One day out of several devices.

Every device records what it shows. Where two of them were in use at once, only one activity counts:
the library picks it, or asks, and the answers of every device are merged so that all of them arrive
at the same day.

## Layout

- `src/` is the library, verified with Verus. Nothing in it reads a file, a clock or a network.
  - `normalise`, `segment`, `exclude`, `classify`, `apply`, `attribute`: the steps of a day, run by
    `pipeline`; `pattern`: which patterns a rule may use
  - `coalesce`, `smooth`: merging and rounding for drawing; `question`: what is left to ask
  - `decision`, `settings`, `records`, `shared_store`, `shared_pass`, `report`: what devices share,
    how it is merged, and what is said of it
  - `sync`, `remotes`, `sync_setup`: moving events through a shared folder
  - `timeline`, `tracks`, `requests`: the answer to a request for a day
  - `time`, `text`, `textmap`, `list`, `order`, `json`, `model`: what the others are written in
  - `determinism`, `decision_laws`, `smooth_laws`, `question_laws`: what holds of a whole day
- `tests/` run the library.
- `app/` is ordinary Rust around it: HTTP routes, JNI entry points, the shared folder on disk.

## Laws

What holds of every day stands in `src/` as public proof functions. Some of them:

- wherever anything was active exactly one activity counts, and the day covers what was active;
- merging and smoothing keep every millisecond, and doing either twice is doing it once;
- a question is never smoothed away, and an answer overrides every rule;
- the day does not depend on the order of buckets and of events;
- decisions apply, and lines merge, in any order, as long as an id is one decision's own;
- a second pass over the shared folder imports and publishes no decision;
- a setting that was agreed is not sent again, and a joining device accepts before it publishes;
- every event is copied once, unless a whole page of events shares one instant.

One thing does not hold: raising the smoothing threshold usually leaves fewer blocks, but not always.

What is taken on trust are calls into `serde_json`, `chrono`, `fancy-regex` and `toml`, and how std
quotes a text: each stands in a small function marked `external_body`, and says what it claims.
