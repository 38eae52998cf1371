# mail_cli

A terminal mail client (IMAP for reading, SMTP for sending) whose logic is a
library verified with Verus.

- `src/` — the verified library:
  - `text.rs`: character-level helpers (search, replace, trim, numbers) with their
    specifications;
  - `html.rs`: turning HTML bodies into plain text;
  - `mime.rs`: the part tree of a message as mailparse reads it, header lookup;
  - `models.rs`: list entries and full messages, choosing the body to show,
    ordering lists newest first;
  - `order.rs`: the stable descending sort the lists use, with its laws;
  - `query.rs`: IMAP search criteria, message ranges and UID sets;
  - `config.rs`: account settings and known providers;
  - `connection.rs`: proxy tunnelling and the IMAP `ID` rule;
  - `smtp.rs`: building outgoing messages with lettre;
  - `ui.rs`: column fitting, menus and answers;
  - `session.rs`: command line, paging, replies and the compose flow.
- `app/` — the program: terminal, network and file I/O around the library.
- `tests/` — tests of the library on concrete values.
