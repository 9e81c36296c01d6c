# atom01_fw

Firmware core of the Atom01 humanoid robot: 23 DAMIAO motors on CAN, a policy
that runs at 50 Hz, a control loop at 250 Hz, and a console on USB. The core is a
Verus library. Every function in `src/` has a contract that Verus proves, but for
twelve wrappers around `heapless::Vec`, whose contracts are believed.

- `src/` is the library: frame layouts, ankle kinematics, observation history,
  inference and control step, console state machine, in-memory hardware.
- `app/` is the program around it: clock tree, USB driver, tasks, and the
  floating-point unit.
- `tests/` runs the library on concrete values.

Real numbers are single precision bit patterns in `u32`. Their order and sign are
decided and proved on the patterns (`binary32`). Sums, products and conversions
are asked of a function that the caller hands in (`arithmetic`), so the contracts
say which operations are performed on which numbers, for whatever unit performs
them.

The wrappers stand in `src/hal/mock.rs`, which the in-memory hardware is built on:
each states what one method of the vector does.
