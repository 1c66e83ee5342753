# naga_glsl

The last step of a GLSL frontend, verified with Verus: given what the
parsing phases (signatures, then bodies) produced for a shader, it

- resets the frontend and records the shader's metadata (version, profile,
  stage, workgroup size, early fragment tests, extensions);
- sorts the module's functions into the depth-first post-order of the call
  graph, so that every function comes after the functions it calls, renumbering every function handle in bodies,
  expressions and declarations to match (a module whose calls form a cycle,
  or that is already in order, is left as it is);
- adds the entry point for the first overload of `main` that has a body
  and takes no parameters, or reports a missing entry point;
- hands out the module only where no error was reported.

Layout of `src/`:

- `ir.rs`: functions, statements, expressions and modules; the calls of a block.
- `ast.rs`: function declarations and overloads, global names.
- `callgraph.rs`: collecting calls, graphs, cycles, the depth-first search
  and its post-order as spec functions.
- `remap.rs`: renumbering the function handles of statements and expressions.
- `model.rs`: the content of blocks as sequences; renumbering laws (identity,
  round trip, determinism, calls kept matched with their results).
- `sort.rs`: sorting a module into call order, with its laws.
- `error.rs`: errors.
- `frontend.rs`: options, metadata, the frontend and `parse`.
