# aries (classical planning part)

A verified library for classical planning over boolean state variables.

- `planning::chronicles`: chronicle problems (state functions, chronicle
  instances and action templates over atoms of a context).
- `planning::classical`: lifting a chronicle problem into a classical problem
  (`from_chronicles`, with `is_readable` to test beforehand that the problem
  refers only to existing types and parameters), grounding its action schemas into operators
  (`grounded_problem`), and binding parameterized predicates.
- `planning::classical::state`: states, literals, operators and the world of
  state variables.
- `planning::classical::heuristics`: the h_add heuristic.
- `planning::classical::search`: best-first plan search (`plan_search`),
  plan replay (`step`, `h_step`) and causal links between the steps of a plan
  (`causalite`).
- `planning::utils`: enumeration of all combinations of candidate values.

Every function of `src/` carries a proved contract: for instance,
`plan_search` returns only plans that reach the goals, and returns `None` only
when no plan of at least one step does; the plan it returns is the one that
its expansion order leads to (`plan_search_result`), no shorter prefix of it
reaches the goals and it visits no state twice.

`app/` prints a plan, the history of the changes it makes and the causes of
one of its steps.
