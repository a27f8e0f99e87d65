# rocketsim

The decision-making parts of a car-football physics engine, written in Verus and proved.

- `src/single.rs`, `src/rounding.rs`, `src/math.rs`: single precision numbers as bit patterns, with
  every operation proved to round once and to nearest, and vectors over them.
- `src/single_laws.rs`, `src/single_errors.rs`, `src/math_errors.rs`: what holds of all those numbers,
  and how far off sums, products, roots and unit vectors are.
- `src/bullet/`: collision algorithms, the contact solver, the step of a world of rigid bodies, and
  vehicles on rays.
- `src/sim/`: the extra impulse of a hit, arenas and what they keep track of.
- `src/recording/`: brings recorded games onto the simulation's terms.
- `src/bridge/`: the flat structures and functions that other languages call.
- `app/`: the C++ interface around the library.

What the library does not compute itself (shapes, row arithmetic, wheel mechanics) comes in through
traits whose methods promise nothing: the contracts say what is asked of them, with which arguments,
and what is made of every answer. In two places a contract asks for more: the step of a world wants
only manifolds that the solver can take (`sound`), and the rays of a vehicle must hit only bodies that
are there (`rays_sound`).
