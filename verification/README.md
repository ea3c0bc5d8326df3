# tile3d

Slices triangle models into 3D Tiles. A model is cut by an octree into tiles of a
bounded size, each tile is written as a batched 3D model (`.b3dm`) with one primitive for
each texture, and a `tileset.json` and a `scenetree.json` tell where the tiles and the
components are.

`src/` is the library, written and proved in Verus. `app/` is the command line around it:
it reads FBX files, calls the mesh simplifier, prints and writes files.

## The library

| Modules | What they hold |
| --- | --- |
| `rounding`, `ieee`, `float`, `monotone`, `isotone`, `halving` | IEEE 754 arithmetic on bit patterns, rounded to nearest, how it keeps order, and how near midpoints come |
| `order`, `text`, `bytes` | sorting, digits, little-endian words and padding |
| `octree`, `tiles`, `lod`, `pipeline` | cells, the tiles of a single layer, levels of detail, and what is to be written |
| `model`, `ground_laws` | scale, ground, centres and the root cell, and how far the ground offset moves a model |
| `extract`, `mesh`, `merge`, `simplify`, `assemble` | from the meshes of a scene to the geometry of a tile |
| `texture` | size, translucency and encoding of textures |
| `json`, `gltf`, `gltf_writer`, `glb`, `b3dm` | the documents and files of a tile |
| `boxes`, `tileset`, `scenetree` | bounding volumes and the documents of the whole |
| `report` | what is reported of a model and of its tiles |
| `names` | names grouped and put in order, for the reports |
| `octree_laws`, `cell_laws`, `tile_laws`, `layer_laws` | what holds of every octree and of the tiles that are made of it |
| `drawing_laws`, `gltf_laws`, `texture_laws`, `volume_laws` | what holds of what a tile draws, of its document and textures, and of bounding volumes |

Numbers with a fraction are bit patterns (`F64`, `F32`): every operation is proved to
return the pattern that its definition gives, the IEEE 754 result rounded to nearest.
`tests/arithmetic.rs` holds samples of it against the machine's arithmetic, leaving out
the patterns of what is not a number. Where a document is written, the caller
hands in the numerals of the fractions that it holds (`json::collect_fractions` lists
them).

What the library takes from other crates stands behind functions marked
`external_body`, each with a doc comment that says what is relied on: `serde_json` writes
the documents, `image` decodes, scales and encodes textures, `meshopt` compacts
simplified meshes.

## What is proved

Besides the contract of every function, the `law_*` proof functions state what holds of
the whole, among others:

- each mesh is in exactly one tile, and every mesh that yields a triangle is in the table
  of exactly one written tile;
- merging small tiles loses nothing and overfills nothing;
- a leaf's cell holds the centres of its meshes;
- every part of the model that is not empty has a tile on its level, leaves are never
  simplified, coarser levels keep no larger share, and no node has smaller cells than one
  below it;
- a node has an entry in the document of the levels exactly where there is a tile in its
  subtree, and the entries are nested and ordered as the nodes are;
- the ground offset moves every vertex up by itself, in metres, up to rounding;
- joining meshes by texture draws the same triangles, and mirrored meshes are turned
  exactly once;
- a vertex leads to its component, and the component to its entry in the scene tree;
- files can be read back, and the runs of bytes in a tile do not overlap;
- bounding volumes hold what they bound, and with their margins parents hold their
  children up to rounding;
- geometric errors never grow from parent to child;
- the longest side of a scaled texture is 256.
