# road_graphs

Generators and analysis tools for large sparse graphs, in the shape of road
networks: adjacency-set graphs, breadth-first search, connected components
below a node separator, elimination trees of node orders, lowest common
ancestors, spanning forests, grid-like and nested-grid generators, thinning
towards a degree distribution, and the graph file formats
(adjacency arrays, edge lists, PACE, METIS, OpenStreetMap XML).

## Layout

- `src/` is the library, written in Verus: every function carries a
  `requires`/`ensures` contract that Verus proves. Calls into `hashbrown`,
  `rand`, `petgraph` and `quick-xml` go through small trusted wrappers whose
  contracts are stated next to them (`collections.rs`, `random.rs`, `mst.rs`,
  `osm_xml.rs`).
- `tests/` runs the library on concrete inputs.
- `app/` is the program around the library: file and process I/O, the KaHIP
  partitioner (a C library), the random loops that run until a draw succeeds,
  and everything that computes with floating-point coordinates (Delaunay and
  proximity graphs, Euclidean lengths, noise).

## Binary files

Graph and order files hold 32-bit integers back to back. The library reads
and writes them little-endian on every machine (`library::read_to_usize_vec`,
`library::encode_i32s`), which is the machine's own order on the
little-endian machines these files are made on. On a big-endian machine the
library still reads back what it wrote, but a file written there in the
machine's own order would not be read as the same numbers; the contracts
cannot speak of the machine's byte order, so they fix little-endian.
