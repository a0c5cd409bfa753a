# loki_to_slack_notification

Forwards error logs from Loki to chat webhooks. One run reads the LogQL queries from a
configuration file, asks Loki for the streams each query matched in the last 310
seconds, and posts every stream to every configured chat (Slack, Mattermost) as a
Markdown message.

- `src/` — the library, verified with Verus: reading the query configuration
  (`query`), collecting Loki's answers (`lib.rs`, `loki`), formatting notifications
  (`hook::format`, `slack`), the two kinds of chat (`hook::slack`, `hook::loop_hook`),
  and the character-level string operations they rest on (`text`).
- `app/` — the program around it: environment, files, the clock, HTTP requests to
  Loki and to the webhooks, and the JSON shapes of Loki's answers.
- `tests/` — tests of the library.
