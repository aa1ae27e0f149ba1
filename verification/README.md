# rover_eval

An offline benchmark for a grid mover: how close its routes come to the fatigue optimum, how well
crowds and fleets of haulers flow, and which of two configurations is the better one.

`src/` is the verified library. It prices terrain and bodies, values movement intents, builds
scenarios and corpora, decides tick by tick what a walk, a crowd or a fleet asks of the movement
kernel, accounts for what came of it, and scores and ranks the results.

- `scalar`: the number type that weights and ratios are computed in, with a fixed-point instance
- `grid`, `body`, `terrain`, `text`: positions, bodies, tiles and strings
- `cost`, `oracle`, `metrics`: what tiles cost, and what a route was worth
- `value`, `annotate`: what moving a creep is worth, for economy roles and for squads
- `traverse`, `crowd`, `haul`, `bench`: runs as state machines, and their accounts
- `base_traffic`, `scenario`, `tuning`: layouts, scenarios, corpora and the tournament
- `stats`: weighted means, percentiles and bootstrap intervals

Numbers are a type parameter. Formulas fix the operations and their order; where a law holds only
without rounding, it is stated in exact arithmetic.

`app/` runs the movement kernel, reads and writes the captured layouts and prints reports. It brings
the floating-point number type.
