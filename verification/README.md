# Kerbal Kalculator

A calculator of rocket stages for Kerbal Space Program: given a payload, a
target delta-v and a thrust-to-weight window, it searches the engines and
fuel tanks a player has unlocked for stages that meet the target.

## Layout

- `src/` is the library, verified with Verus:
  - `modules/tanks/tanks.rs`: tanks (masses in whole kilograms), tank stacks,
    their masses and names, and the catalog of stack configurations;
  - `modules/engines/`: which engine variants each tech-tree node unlocks, and
    engine names;
  - `modules/calculator.rs`: the selection rules of a search: unlocked techs
    and fuselages given as comma-separated lists, the engines that take part,
    the order in which fuselages are visited;
  - `modules/input.rs`: how the interactive session reads answers;
  - `modules/mod.rs`, `size.rs`, `fuel_type.rs`: errors, size classes and fuel
    types.
- `app/` is the program around it: the interactive session, the functions
  the web front end calls, and the stage model (tank heights, masses,
  thrust-to-weight ratios, delta-v), which works on floating point.
- `tests/` exercises the library.
