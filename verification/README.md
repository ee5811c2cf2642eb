# av1_grain

Film grain noise modelling for AV1: the difference between a source frame and its
denoised counterpart is modelled as an auto-regressive process whose strength depends
on the intensity, and the model is reported as a segment of a film grain table.

* `src/` is the library, verified with Verus. Numbers are any type that has the
  operations of `scalar::Scalar`. Contracts name the formula that a result is
  worked out by, so they say which operations are applied, to which operands and in
  which order, for every number type.
* `tests/` runs the library in double precision.
* `app/` puts the library on `v_frame` frames, in double precision and on all cores.

| Module | What it holds |
| --- | --- |
| `scalar`, `kernels` | number types, formulas, and the numeric routines the solver is built on |
| `matrix`, `equations` | linear equation systems |
| `strength`, `curve` | noise strength as a function of intensity, and its piecewise linear fit |
| `exact` | number types that calculate without rounding, and what formulas are worth in them |
| `strength_laws`, `measurement_laws`, `constant_laws`, `solution_laws` | what holds of interpolated, measured and solved strengths in such types |
| `plane`, `util` | frames, and their conversion to eight bits |
| `flat_blocks`, `flat_laws`, `plane_laws` | the search for blocks without texture, and what holds of it |
| `observations`, `measurements`, `noise_laws` | what the flat blocks show of the noise, and what holds of it |
| `state`, `model`, `update`, `update_laws`, `mark_laws` | the noise model, how it takes in a frame, and what holds of that |
| `steps`, `step_laws` | taking in a frame step by step, with the work on the blocks done by the caller, and that this is taking it in |
| `outcome_laws`, `repeat_laws` | number types whose operations have one outcome, and that taking in a frame then has one |
| `segment`, `grain`, `grain_laws` | the model as a segment of a film grain table, and where its scaling functions have their points |
| `profile` | how often the stages ran, and for how long |
