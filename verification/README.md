# dependent_optics

Dependent lenses, prisms and their relatives over finite sets, and the
machinery that stages a model built from lenses onto a cluster of CPUs and
GPUs. Every executable function of the library is verified with Verus.

- `src/theory/` holds the mathematical models: finite functions, spans,
  slices, optics, rationals, plans, byte formats. The laws of the library are
  proof functions whose names begin with `law_`.
- The other modules of `src/` compute with machine words. Their contracts say
  which values of the models they return.
  - Categories: `finset`, `span`, `slice`, `optic`, `dlens`, `dprism`, `mixed`,
    `functor_lens`, `bicat_optic`, `closed`, `tambara`, `comonoid`, `monoid`,
    `monoidal_structure`, `monoidal_optic`, `fibre`, `polynomial`, `vect`,
    `bimod`, `enriched`.
  - Differentiation and programs: `ad`, `kernel`, `mixtral`.
  - Staging: `cluster`, `planner`, `schedule`, and `sizes`, which tests at run
    time what staging asks of its inputs.
  - The control plane: `dist`.
- `app/` holds what is floating point, process or socket.
- `tests/` runs the library on concrete values.
