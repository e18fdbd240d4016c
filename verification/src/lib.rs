//! IronGolem: evolutionary graph optimisation, with its graph model,
//! structural algorithms and genetic operators verified by Verus.
pub mod adapter;
pub mod api;
pub mod dag;
pub mod logging;
pub mod optimisers;
pub mod utilities;
