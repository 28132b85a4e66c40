# exact

An arbitrary-precision calculator: numbers are exact fractions, entered in
decimal notation and displayed in decimal with a limited number of digits
after the point (rounded half away from zero and marked with `~` when the
display is not exact).

- `src/` is the library, verified with Verus:
  - `number`: integers of any size and fractions in lowest terms (the
    arithmetic is done by the `num` crate);
  - `text`: trimming and searching characters;
  - `engine`: operators, the calculator's state machine and the parsing of
    decimal numbers;
  - `format`: the decimal display of fractions;
  - `repl`: what one line of input does and what the calculator answers;
  - `laws`: properties proved over the specifications above (exact
    arithmetic, repeated equals, read-back and rounding of displays, ...).
- `app/` is the command-line program: arguments, reading lines and printing
  the answers that `repl::respond` gives.
- `tests/` runs the library on concrete values.
