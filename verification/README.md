# zoneinfo

The timezone registry of the AerynOS installer, verified with Verus.

- `src/text.rs`: lines and separator-split pieces of a text, as `str::lines`
  and `str::split` give them.
- `src/table.rs`: the grammar of `zone1970.tab` — which `(territory code,
  timezone)` rows a table text holds.
- `src/order.rs`: the code-point lexicographic order of names.
- `src/registry.rs`: `Registry` — every timezone, sorted and distinct, and the
  timezones of each territory in table order.
- `src/choice.rs`: the menus from which a timezone is picked, and what a pick
  means.
- `app/main.rs`: the command-line front end; it reads the table from
  `/usr/share/zoneinfo/zone1970.tab` and asks the questions.
