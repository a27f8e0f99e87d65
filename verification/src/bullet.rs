//! Rigid bodies: what they touch, and what that does to them.
pub mod body;
pub mod box_contact_laws;
pub mod box_distance_laws;
pub mod broadphase;
pub mod collision_world;
pub mod contact_solver_info;
pub mod discrete_dynamics_step;
pub mod discrete_dynamics_world;
pub mod flight_laws;
pub mod geometry;
pub mod manifold;
pub mod mesh_contact_laws;
pub mod mesh_outcome_laws;
pub mod motion;
pub mod pair_laws;
pub mod raycaster;
pub mod report_laws;
pub mod rim_laws;
pub mod round_laws;
pub mod row_source_laws;
pub mod seq_impulse_constraint_solver;
pub mod setup_laws;
pub mod solver_body;
pub mod solver_constraint;
pub mod solver_finish;
pub mod solver_iterations;
pub mod solver_laws;
pub mod special_average_laws;
pub mod special_contact;
pub mod special_contact_laws;
pub mod sphere_concave_collision_alg;
pub mod sphere_obb_collision_alg;
pub mod step_laws;
pub mod sweep_laws;
pub mod vehicle_laws;
pub mod vehicle_rl;
pub mod world_laws;
