# goby_bot

Discord bot for the "La poissonnerie" server, built as a library verified with
Verus and a thin program around it.

- `src/` holds the verified library: the reader of the card list files members
  attach (deck lists and ManaBox CSV exports, `mtg::card_list` and `mtg::csv`),
  the per member store of those lists and the search of the members holding
  wanted cards (`mtg::store`), the text of every answer the commands send
  (`mtg::commands`, `mtg::access`, `admin`), the plan and report of `/init`
  (`admin::init`), the role selection buttons (`admin::role_select`), and the
  message commands of the Archipelago and Magic channels (`archipelago`,
  `magic`). `text` gathers the character level helpers, `json` the serde_json
  calls the Archipelago catalogue check makes.
- `app/` is the program: it talks to Discord through poise and serenity,
  downloads attachments, creates roles and channels, and mirrors the store to
  `data/mtg_collections.json` (override the directory with `GOBY_DATA_DIR`).
  It reads `GOBY_TOKEN` from the environment or from `.env`.
- `tests/` runs the library on concrete inputs.
