# route_optimizer

Finds the shortest order in which to visit a set of star systems: every pair
of systems is measured once (the distances come from a route-search web
page), then every order of the systems between the start and the optional
end is tried, and the orders of the smallest total length are kept.

- `src/` is the verified library: text helpers, labelled log lines,
  progress lines, route and system bookkeeping, the answer parser, and the
  shortest-order search, each with its contract.
- `app/` is the desktop program around it: a window that takes the
  arguments, the HTTP requests, the percentage shown in progress lines, and
  the display of the result.
- `tests/` runs the library on concrete inputs.
