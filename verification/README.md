# facet_deserialize

Deserialization of any type that `facet` describes, from any format.

A format implements `Format`: asked for a value, a key or an item, it says what it reads next, as an
`Outcome`. `deserialize` keeps a stack of instructions, carries them out one by one with what the
format reads, and builds the value with `facet_reflect::Partial`.

## Layout

- `src/` is the library, verified with Verus.
  - `driver` is the loop: it asks the format for what the next instruction calls for, and
    `NextData::carry_out` carries the instruction out with the answer.
  - `value`, `object`, `list`, `scalar_value` and `number_target` handle what is read; `pop` ends
    values and fills in defaults; `runner` holds the state.
  - `numeric` converts numbers, `scalar`, `span`, `error` and `instruction` are the data.
  - `partial` and `shape` are the only modules that call `facet_reflect` and `facet_core`. Each
    call stands in a function whose contract is believed, and whose doc comment says what that
    contract claims.
  - `stack_laws`, `laws` and `reading_laws` state what holds of the whole.
- `app/` is the generic entry point for Rust types. It stores floating-point numbers, which the
  library hands out, and has the `Display` implementations.
- `tests/` runs the library with `facet_core` and `facet_reflect`.

## How contracts read

A `Partial` is modelled by the calls made on it, each with how it came back (`partial::calls`). What
can be read from a `Partial` is a function of those calls. A contract says which calls a function
makes, in which order, up to the first that fails, and what it returns. Of a finished value it says
from which calls it was built (`partial::built_from`).

What a call does to what can be read is `partial::effect`. How most calls come back follows from the
calls before them, or from the type (`partial::refusal`). Where it also rests on the code of the type
that is built or on memory, a contract goes by the record of the calls themselves
(`runner::Attempt`).
