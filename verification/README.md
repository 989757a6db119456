# cable_bench

A Verus-verified core for `cable-bench`, the tool that measures how many
completion tokens the cable system prompt saves ("every word earns its place")
against a baseline, on Ollama nodes or an OpenAI-compatible chat API.

- `src/` is the verified library:
  - `text`: whitespace, substring search, prefixes, and the std text calls
    (`to_lowercase`, `String::push`) behind trusted wrappers;
  - `words`: `split_whitespace` words and `u64` parsing;
  - `think`: splitting a `<think>` block from the answer, token estimates;
  - `signal`: whether an answer keeps the prompt's keywords;
  - `reply`: request messages and the decision taken on each HTTP reply
    (wait and retry on 429, error message, parse), node health from a
    reply's status, the completion text, with `reqwest::StatusCode`
    behind trusted wrappers;
  - `plan`: model, nodes, API key, request delay, sharing prompts among
    nodes, health filtering, request pauses, output file name;
  - `tally`: ordering outcomes and the run's totals;
  - `compare`: the categories two runs share, in order, with their counts.
- `app/` is the command-line program: argument parsing, HTTP, threads, JSON
  files, printing, and the floating-point percentages.
- `tests/` exercises the library on concrete values.
