# ternary_inference

Inference from ternary negative spaces, verified with Verus. Each position of a decision
space is avoided, unknown or chosen; the library finds the maximal runs of avoided positions
(negative regions), the gaps between them, applies four inference rules (analogy,
interpolation, exclusion, boundary transition) and keeps the most confident deduction per
position. Confidences, similarities and accuracies are exact fractions (`Ratio`).

Layout:

- `src/ternary.rs`: the `Ternary` value.
- `src/ratio.rs`: exact fractions and their comparison.
- `src/space.rs`: `TernarySpace` and its model as a sequence of values.
- `src/regions.rs`: `AvoidanceMap`, `NegativeRegion`, `Gap`; maximal runs and gaps.
- `src/text.rs`: decimal formatting of positions in reasons.
- `src/inference.rs`: `Inference` and the four rules of `InferenceRule`.
- `src/deduction.rs`: `DeductionEngine`, the selection of the best deductions, and the laws
  about deductions.
- `src/feedback.rs`: `FeedbackValidator`.
- `app/lib.rs`: `f64` views of the fractions.
