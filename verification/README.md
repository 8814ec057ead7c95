# subscribe_hn

A Telegram bot that sends Hacker News stories about the topics a user
subscribes to (`/subscribe <topic>`, `/unsubscribe <topic>`, `/list`,
`/help`).

- `src/` is the verified library: the stores' file format (one entry per
  line) and what each store reads, keeps and writes; how titles and texts are
  cut into words and matched against topics; which new stories a round looks
  at and which get announced; the replies to the bot's commands; the API
  addresses. The proof functions named `law_*` and `lemma_read_*` state what
  the stores give back of what they wrote.
- `app/` is the program around it: the HTTP calls to the Hacker News API,
  the Telegram dispatcher, the file reads and writes, and the main loop.
