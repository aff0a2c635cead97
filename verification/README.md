# verseengine

The rules of a role-play engine for Discord servers, verified with Verus:
loot tables (their text format, the weighted draw, stock and rate limits),
recipes and item effects (their text formats), the craft, loot and travel
queues, travel steps, the server layout snapshot and rollback, character
sheets, item transfers and consumption, and the paging of long listings.

- `src/` is the verified library. Each public function states what it
  returns in its contract; the laws that relate several calls are public
  proof functions (`lemma_*`).
- `tests/` runs the library on concrete values.
- `app/` is the program around it: the database documents and their
  conversions, the timers that run the queues, and the floating-point
  stat arithmetic.

Drop chances are held in fixed point, in millionths of a percent, since
the library holds no floating-point numbers. A chance in a loot table's
text is read as a decimal number, with an optional exponent (`1e2`,
`1.5E-3`); what falls below a millionth of a percent is dropped, a
magnitude of 10^12 percent or more does not fit and is refused, and so are
`inf` and `NaN`.

Free limits: a user may hold up to `FREE_LIMIT_UNIVERSE` universes (a
count above it is refused), and a universe may take a new server while it
holds fewer than `FREE_LIMIT_SERVERS_PER_UNIVERSE`.
