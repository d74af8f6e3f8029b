# voxircle

Voxelization of circles, squircles and lines onto square grids of blocks, and the combinatorics
used to analyse the result.

- `src/` is the verified library (Verus): grids of blocks and their boundary, interior,
  complement, bounds, center and symmetry type; stacks of layers (`ZVec`) and their 3D boundary;
  sparse shapes with their connected components, translates, normal form, labels and hashes;
  sparse graphs with longest paths and cycles; update control; expression field states; sample
  numbers per layer; and the text shown to the user.
- `tests/` exercises the library on concrete values.
- `app/` holds what works with floating point numbers (the voxelization algorithms, sample
  positions, colors) and the rhai expression engine, on top of the library.
