# shortswing

Computes the largest Section 16(b) short-swing profit in an insider's trade
history, together with a dual certificate that proves no pairing of the trades
earns more. The library is written in Verus: every function in `src/` carries a
contract, and Verus proves the code meets it.

## Layout

- `src/date.rs`: calendar dates, day numbers, and the window rules (six
  calendar months with month-end clamping, or a plain day count).
- `src/trade.rs`: trades, matched pairs, validation, prices in integer ticks.
- `src/solver.rs`: the min-cost circulation solved by capacity-scaling
  successive shortest paths with Johnson potentials. When it returns a
  solution, the matching is feasible and on valid dates its certificate
  verifies; it may instead stop with an arithmetic-range error, which its
  contract names but does not rule out.
- `src/heap.rs`: the binary min-heap behind the shortest-path searches.
- `src/optimality.rs`: why the final network yields a verifying certificate,
  and why the final flow is a circulation.
- `src/verify.rs`: the independent checker of a matching and certificate.
- `src/duality.rs`: weak duality and the properties of the optimum (adding a
  trade, shifting prices, scaling shares).
- `src/liho.rs`: the lowest-in, highest-out baseline, and its optimality when
  every purchase may pair with every sale.
- `src/io.rs`, `src/text.rs`: CSV input, CSV and JSON output; what `write_csv`
  writes, `parse_csv` reads back.
- `src/generate.rs`: deterministic synthetic histories.
- `app/`: the command-line program around the library.
- `tests/`: scenario tests on concrete values.
