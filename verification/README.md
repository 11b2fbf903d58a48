# codey

A verified library for a local router that stands between the Codex client and
several model providers, and for what the desktop program around that router
decides: which route a request takes, what a provider's answer becomes, what a
session is doing, which account is logged in.

`src/` holds the library. Every function in it states in its contract what it
returns or changes, and Verus proves it. What only an outside crate can compute
(documents, digests, addresses, points in time) stands behind a few functions
whose contracts are believed; each says in its comment what it claims.

| Part | What it is about |
| --- | --- |
| `text`, `json`, `textmap`, `keymap`, `slots` | texts, documents and tables |
| `digest`, `encoding`, `ids`, `urls`, `dates` | what is taken from outside crates |
| `local_router` | routing, bindings, histories, streams, compaction, errors, headers, logs |
| `model_id`, `model_catalog`, `provider_models` | models and where they are listed |
| `plugin_routes`, `plugin_marketplace` | routes and plugins |
| `official_accounts`, `official_login` | accounts, their logins, and logging in |
| `pending_approval`, `message_delete`, `provider_lease` | sessions and their rollout files |
| `process_tree`, `process_cleanup`, `maintenance_lock` | other processes and the locks they leave |
| `pet_slim_patch`, `overlay_recovery`, `notifications` | what is left of the desktop |

`app/` is the program around it: it reads files and databases, listens and
sends. `tests/` runs the library from outside.
