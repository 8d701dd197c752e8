# stwo_zk

Verified circle-STARK components with statistical zero-knowledge masking, over the Mersenne
prime field `M31` and its degree-4 extension `QM31`.

`src/` is the library, verified with Verus:

- `m31`, `qm31`, `qm31_algebra`: the fields and the ring laws of the extension.
- `circle`, `circle_group`, `domain`: the circle group, its cosets and canonic domains, and the
  facts the masking relies on (the trace-domain vanishing polynomial vanishes on the domain; the
  split multipliers vanish on a canonic domain at exactly one fold level).
- `poly`, `secure_poly`: circle polynomials in the circle-FFT basis, their evaluation, their
  splits and the recombination of the split values.
- `interpolation`: the polynomial that takes given values on a canonic circle domain.
- `stark_proof`, `stark_verifier`, `stark_prover`: the proof container, its size estimates, the
  reading of the composition's out-of-domain values and the checks the verifier and the prover
  make on them.
- `statistical_zk`, `statistical_zk_rank_check`: the opening budgets, the mask configuration, the
  masking of witness columns, the composition randomizer, the random draws and the rank
  computations of the masking argument.

`tests/` exercises the library; `app/` gives the error types their messages as
`std::error::Error`s.
