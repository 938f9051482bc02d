# nave

Fleet-wide config management for a GitHub user's repositories: discover the
repositories and the config files they track, search them, distil templates
from what they share, validate them against schemas, and rewrite them in a
controlled "pen".

## Layout

- `src/` is the library, verified with Verus. Each module states its
  behaviour in `requires`/`ensures` over spec models (`Seq`, `Set`, `Map`,
  views of the library's types) and proves it:
  - `address`, `selector`, `match_pred`, `term`: the path, selector,
    predicate and search-term grammars, and navigation of JSON-like trees;
  - `antiunify`, `factor`, `fca`, `holes`, `report`, `fleet_build`:
    templates common to a fleet of files, their holes, factor groups and
    formal concept analysis;
  - `fleet`, `search`, `sources`, `order`: discovery, search and ordering;
  - `pen`, `rewrite`, `parse`, `validate`, `schemas`: rewrite staging,
    ledgers, format round trips and validation findings;
  - `json`, `text`, `paths`, `config`, `matcher`, `refs`: shared helpers.
  Calls into outside crates (`globset`, `odis`, `similar`, `toml`,
  `serde_norway`, `serde_json`) go through small trusted wrappers whose
  contracts say what those crates promise.
- `app/` is the command-line program: argument handling, GitHub and git
  I/O, the cache and pen on disk, and printing.
- `tests/` runs the library on concrete inputs.
