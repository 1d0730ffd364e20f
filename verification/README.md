# xl_fn

Spreadsheet functions whose logic is verified with Verus.

Each function has a module `func_*` under `src/`. The module states the result of a
call as a specification over the model of its arguments, and `eval` is proved to
return it. Functions whose results take floating-point arithmetic have `terms`
instead: it returns the error that the call results in, or exactly what the result is
computed from. The arithmetic itself stands in `app/`.

- `number` reads the bit patterns of finite doubles exactly, as whole multiples of the
  smallest one. Comparison, rounding down, whole parts and conversion from counts are
  proved against that reading.
- `value` and `model` hold the values and their coercions. What depends on a locale or
  on comparison rules is stated by the host as facts in a `ValueModel`. A text without
  a reading is no number; a call that needs another fact which is not there is refused.
- `args` is how functions see their arguments. The contract of a lazy function lets it
  evaluate only the arguments that decide its result, and that of a function over whole
  rows or columns lets it read only the cells that do.
- `search`, `order`, `aggregate`, `conditional`, `calendar`, `utf16`, `letters`,
  `grid` and `operands` are what several functions share.

Laws that relate several functions or calls are public proof functions named `law_*`,
beside the functions they are about.

`tests/` runs the library; `tests/numbers.rs` holds the exact reading of doubles
against the machine's own.
