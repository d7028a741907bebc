# s3_simulation

A verified library for the S3 social-network simulation (Gao et al. 2023):
LLM-driven propagation of emotion, attitude and behavior among agents on a
directed follow-graph, with classical diffusion baselines.

- `src/` is the library, proved with Verus: the follow-graph and message
  delivery, the per-agent contagion update, the prompts and the rule-based
  readers of the model's replies, the word sets behind the relevance score,
  the population counts, whole contagion rounds, and the runs of the
  Linear Threshold, Independent Cascade and Voter baselines.
- `app/` is the command line around it: argument handling, the socsim engine,
  networks and random draws, model calls, floating-point metrics and the
  DeGroot baseline, and recording with runvault.
- `tests/` runs the library on concrete cases.

Follow convention: an arc `a -> b` means "a follows b"; a post by `b` reaches
the followers of `b`.
