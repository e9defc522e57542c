# earp

The verified core of the earp compiler, written in Verus. Every function in
`src/` carries a contract that Verus proves, but for two small trusted
wrappers of std (`char::from_u32` and `String::push`), whose contracts
restate what std documents.

- `model`, `render`, `text`, `names`, `strings`: the data model of programs,
  its text forms, and string-literal unescaping.
- `position`, `source`: source positions and fixed program sources.
- `parsetree`, `preprocess`: parsed statements and the operator pass that
  turns infix and prefix operators into calls and takes flags out.
- `buildtree`, `buildtreebuilder`: the build tree and the builder that makes
  it from parsed statements, proved against an interpreter of the same
  statements written as spec functions.
- `toposort`: the incremental topological sorter (refuses exactly the arcs
  that would close a cycle; its order is topological, and a sort gives the
  order of Kahn's algorithm as `kahn_order` states it).
- `equiv`, `checking`, `reduce`, `culdesac`, `codeblocks`: register
  equivalence classes, size checking, copy elimination, dead-code removal and
  code-block selection on linearized code.
- `unbundleaux`, `bundlestack`, `buildunbundle`: bundle and variable-register
  bookkeeping, and the pass that finds which names each bundle carries
  across each argument and result boundary (`build_unbundle`), proved
  against a spec of the same walk.

`app/` holds what needs floating point: numbers as `f64` and the printed form
of the structures that carry them. `tests/` exercises the library.
