# Arbitrage arena

A trading contest: a server generates a market and a feed of price updates, contestants
look for loops of trades that gain, and an engine settles the routes that they submit.

- `src/` is the verified core. `generation` makes the market and the feed from a seed,
  `protocol` holds what goes over the wire, `engine` evaluates routes and drives the run,
  `net` decides what the servers answer, `cores` and `boot` prepare a run, and `bot` is a
  contestant's side of the protocol.
- `app/` is the program around it: command line, sockets, threads and logging.
- `tests/` exercises the core on concrete values, with the real random generator.

A market is laid out with USD as token 0 and one USD pair for every other token, followed
by cross pairs. It starts in equilibrium: a cross pair is priced as the USD pairs of its two
tokens are. Every mispricing in the feed moves the USD price of one token, shows on one of
its pairs at once and on the others a little later; once the feed is over, the market is in
equilibrium again.
