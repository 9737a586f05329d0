# hop-ssh

A small SSH host manager (`hop add prod -H 192.168.1.1 -u root`, `hop prod`, …),
with its logic written in Verus and proved against its contracts.

- `src/` — the verified library:
  - `config.rs`: the saved hosts (a map from key to host, each key once) and every
    change the commands make to it — add, look up, edit in place, remove, rename,
    copy, tag, group, import — plus the sorted, filtered listing, the search and the
    list of groups;
  - `host.rs`: one host and the labels of its listing row;
  - `ssh.rs`: the argument lists given to `ssh` and `scp`;
  - `ports.rs`: reading a port and a `local:remote` pair;
  - `text.rs`: decimal rendering, substring search, ordering and joining of text;
  - `cli.rs`: the commands, and what a command line asks for;
  - `error.rs`: the errors and their messages;
  - `laws.rs`: properties that relate several operations.
- `app/` — the program around it: argument parsing, the configuration file
  (TOML under `~/.hop/`), running `ssh`/`scp`, and coloured output.
- `tests/` — tests of the library on concrete values.
