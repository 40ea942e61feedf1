# AMITEX-GUI

A desktop front end for AMITEX_FFTP, a spectral solver of mechanics on voxel grids. It computes the
elastic constants of a material from a map of its microstructure: it writes the loading files of
six unit strains, runs the solver once for each, reads the stresses, and finds the stiffness and
compliance matrices. It also shows the map of the materials as a mesh that can be turned.

The logic is a library that is verified with Verus; what it promises is stated in the contracts
of its functions and in its public proof functions.

## Layout

`src/` is the verified library.

- `double`, `single`, `arithmetic`, `formula`, `rounding`: floating-point numbers by their bit
  patterns, their arithmetic, the operations that formulas are stated over, and how far results are
  from the exact ones.
- `text`, `encoding`, `writing`, `sorting`, `clock`: texts, UTF-8, numbers as texts, sorting, time.
- `preproc`: the algorithm file, the material laws and their file, the numbering of materials and
  zones.
- `pipeline`: the load cases, the environment of the solver, the checks before a run, the course of
  a run, and the von Mises stress of a finished case.
- `postproc`: VTK files, the inverse of the stiffness and how exact it is, the elastic constants, and
  what is saved.
- `viewer`: the surface of the materials, its mesh and colours, the shaders.
- `gui`: what is shown of a run, and what has to be entered for one.

`app/` is the application around it: the window, the files, the processes and the drawing.
`tests/` holds the tests of the library, which also compare its arithmetic with the machine's.
