# rushnsw

An approximate nearest neighbour index: a hierarchical navigable small world graph
with a sequential and a parallel builder, byte codes and product quantization for
the traversal, and exact reranking. The library is written in Verus, and what its
functions do is proved.

Of the parallel builder that means: whatever the threads do, the index is well formed,
every node reaches the level that its seed gives it, and, where lists have room and there
is a second node, none is left without neighbours. No thread ever holds two locks at once.
What one insertion reads and writes is told exactly, and where no other thread is at work
it is what an insertion on one thread does. Each list came to be from the empty one by
steps such as insertions take, and so did each list that these insertions read. No
insertion is lost: of every node but the first there is a whole insertion, from an entry
down to level 0, and on each level that both reach it is among these steps that the node
showed itself with what it chose among what it found, and that each node it chose linked
back to it; where there is room, these edges are all there in the end. To that end nodes
leave marks, beside their lists, of what they have joined; a node whose marks are not
complete in the end is inserted once more. Which lists an insertion read on its way
depends on how the threads interleave, and with them which neighbours a node ends up with:
where all threads start at once, each may find the first node alone.

## How floating point stays outside

The library never computes with floating-point numbers. It is generic in the element
type, and a caller hands in the functions that depend on it: one that measures two
vectors, one that turns random bits into a level, one that rounds an element to code
units, and so on. Contracts speak of these functions through their results. A distance
is a `u32` key whose order is the order of the distances; for a squared `f32` distance
that is its bit pattern.

## Layout

| module | what it holds |
| --- | --- |
| `cand`, `visited` | candidates and sorted lists of them; the set of nodes a search has met |
| `metric`, `dist`, `exact`, `rising` | distance functions and rows; the kernels and their choice; why lanes do not matter where adding is exact, and how little where it is not; sums that rise |
| `beam` | beam search on one layer: what it computes, local optimality, exhaustiveness |
| `select`, `graph`, `links`, `stats` | choosing neighbours; how a node joins a graph and what stays sound; the buffers; figures |
| `index`, `walk`, `hnsw`, `growth` | what an index is; walking and wiring; the index itself; what insertions do |
| `insertion`, `web` | one insertion; the lists that it works on, shared or not |
| `par`, `store`, `guard`, `settle` | the builder on many threads; what the threads share, behind sharded locks; the log of what a thread did; inserting once more who is still owed it |
| `trace`, `history` | what an insertion does, told by its log; how lists came to be, and who has come in |
| `replay`, `solo` | what an insertion comes to when no other thread is at work; a build during which none ever is |
| `q8`, `pq` | byte codes; product quantization |
| `seeding`, `kmeans`, `training` | where a codebook starts; Lloyd's algorithm; what its rounds do |
| `synth`, `level` | the random stream and synthetic corpora; levels |
| `truth` | exhaustive search and recall |

`law_...` functions state what holds of the library as a whole, and are proved.
`app/` is the benchmark program: it supplies the `f32` arithmetic and prints figures.

## What is trusted

Three functions call rayon, and Verus takes their contracts as given: `par_concat` and
`par_encode` in `pq`, and `insert_all` in `par`. Each says above its body what it takes
rayon to do.
