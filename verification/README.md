# route_proxy

The verified core of a forwarding proxy with a desktop front end.

- `src/route.rs`: forwarding rules and the rule table; which rule takes a
  request for a host and a path (host names ignore ASCII case, a rule without
  a port matches 80, 443 or no port, a rule with a port only that port, `*`
  matches every host; the first matching rule wins).
- `src/model.rs`: the editable rule table behind the rule rows, with ids from
  one program-wide source that stay stable while rows are deleted.
- `src/controller.rs`: the decisions behind the window's buttons (start/stop,
  save, theme, language) and the text keys of the labels.
- `src/sysproxy.rs`: the commands that point the system proxy (GNOME, macOS,
  Windows) at the daemon and put the user's settings back, and the backup
  formats in between, with proofs that a backup gives back what was backed up.
- `src/text.rs`: character-level primitives (case folding, trimming, line splitting).

`app/` runs what the library plans: the async rule-table lock, the id source, the settings
commands, the system theme query and the formatting of byte counts.
