# diskann_garnet

Filtered nearest-neighbor search over a graph index of vectors. A host stores the
vectors and evaluates the filter through callbacks; the library decides what to
expand, what to check, what to keep and when to stop.

- `src/` is the verified library.
  - `ordered_f32`, `candidate`, `heap`, `queue`, `bitvec`: distances as bit
    patterns, candidates, the queues that hold them, and the visited ids.
  - `record`: stored vectors with attributes behind them.
  - `filter`: checks on batches of candidates, and the bounded list of results.
  - `walk`, `two_queue`, `native`: the two-queue searches.
  - `paged`: the searches of pages; `page_laws`: what holds of whole searches.
  - `labels`: checks that remember their answers.
  - `hybrid`: filtering during traversal.
  - `output`, `report`, `plan`: handing results over, statistics, and the choice
    of a search.
- `app/` joins the library to the graph index, the store and the host.
- `tests/` runs the library on small graphs and pages.

Distances are floating point and are computed outside; the library compares
their bits as IEEE 754 defines it.

The host's callbacks, the graph and the paged search are closures. Each takes the
host as it is, a value of any type, and gives it back as the call left it; the
handing over of results passes the output along in the same way. So contracts
say which calls were made, in which order, and what followed from the answers,
whatever they were: a call more, less or elsewhere would leave another host.
