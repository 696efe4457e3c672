# quark

An interpreter for the Quark stack language, verified with Verus.

- `src/number.rs`: big integers and decimals as plain values (`BigNum`,
  `Decimal`); their arithmetic is done by `num` and `bigdecimal` behind
  trusted wrappers whose contracts state (or name) the results.
- `src/parse.rs`: program text to command ids (`unencoded_to_id`, `decode`,
  `decode_id`) and command ids to code pieces (`parse_to_executable`).
- `src/data.rs`: values, markers and the value stack.
- `src/exec.rs`: the executor, one verified `step` at a time; printing, input
  and float rounding come back to the caller as an `Action`.
- `src/format.rs`: the texts that the interpreter prints.
- `app/main.rs`: the command: reads the program file and the code page (a
  file named `codepage` holding the code page's characters in order), runs
  the steps and does their outside work.
