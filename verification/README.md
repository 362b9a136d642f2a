# cfa

Plans a route through as many Chick-fil-A restaurants as possible. Sites are
fetched from the locator service, filtered, connected to the sites near them,
and weighted by the travel times that the distance service reports. The
library also holds the search for the k shortest paths between pairs of sites
(Yen's algorithm, from the `pathfinding` crate), but the program's `-run_yen`
step does not run it yet, and nothing yet picks the path with the most sites.

- `src/` is the library, verified with Verus:
  - `str_map.rs`: an ordered string-keyed map with distinct keys, viewed as a `Map`.
  - `locator.rs`: the site records and the site table keyed by identifier.
  - `utils.rs`: which sites are kept.
  - `graph_builder.rs`: connections between near sites, the questions put to the
    distance service, and the edges built from its answers.
  - `path_finder.rs`: successors, pairs of sites, and rounds of the path search.
  - `cli.rs`: the command line and the zip-code files.
- `app/` is the program: files, HTTP requests, threads, JSON, and the
  floating-point distance test that decides which sites are near.
- `tests/` runs the library on concrete data.
