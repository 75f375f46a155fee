# openclaw

Planning, dependency ordering and QA decisions for autonomous coding agents, verified
with Verus.

- `src/` is the verified library. A plan is made of tasks that name the tasks they
  depend on by title; the library turns a request (or a model's answer) into tasks,
  resolves their dependencies into edges and a run order, tracks the state of every
  task during a run, builds the prompts handed to the agents, detects a workspace's
  test command and decides what each test result means.
  - `planner`, `llm`, `context`, `dedup`, `dependency`, `planner_types`: making plans.
  - `dependency_graph`, `cycle`, `orchestrator`, `orchestrator_types`: running plans.
  - `qa_runner`, `qa_types`, `test_detector`: testing the agents' work.
  - `text`, `ids`: text and UUID helpers.
- `app/` is the service layer around it: SQLite storage, the HTTP call to the model,
  file-system probes, the test processes and the HTTP routes.
- `tests/` exercises the library.
