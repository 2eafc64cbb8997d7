# ScreenUse

A personal ledger of computer time. It turns observations of the foreground window into sessions,
finds out which project and task they belong to, keeps the timeline tidy, learns from corrections,
and synchronises encrypted snapshots between devices.

`src/` is the library, verified with Verus. Every function states in its contract what it returns
or changes; what outside crates are trusted to do is marked `Trusted:` where they are called.

- `text`, `clock`, `json`, `score`, `labels`, `lists`, `ids`: texts, times, documents, ranks of
  numbers, labels.
- `models`, `settings`, `catalog`: rows, settings, the hierarchy of categories, projects and tasks.
- `collector`, `attribution`, `memory`, `rules`, `recall`, `context`: from observations to
  sessions, and how attribution is learned.
- `sessions`, `timeline`, `upkeep`, `journal`, `maintenance`: joining, splitting, repairing, what of
  it is written into the ledger, bounding.
- `corrections`, `amend`, `effects`, `undo`, `hierarchy`: what the user changes, and how it is
  undone.
- `sync`, `agreement`, `ledger`, `envelope`, `remote`: snapshots, merging, sealing, uploading.
- `jobs`, `plan`, `ics`, `ingest`, `export`, `pricing`, `sleep`, `trends`, `hotkeys`: reviews, plans,
  reports, documents, prices, sleep, sums of time.

Floating-point numbers are held by their ranks (see `score` and `pricing`).

`app/` is the program: the SQLite store, the network, the key store, and floating-point sums.
`tests/` holds the tests.
