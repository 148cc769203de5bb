//! Compile-time dependency injection: from the registered components of a
//! request handler to its call graph, and from the call graph to the source of
//! a handler function whose dependencies are wired ahead of time.
//!
//! The way through the modules: [`language`], [`computation`] and
//! [`component`] hold what is registered; [`builder`] makes the
//! [`call_graph`] of a handler from it, over the [`shape`] of the graph;
//! [`codegen`] generates the handler from the graph, held to what
//! [`emission`] says is generated. [`well_formed`], [`wiring`] and [`laws`]
//! prove what holds of every graph that is built and of everything that is
//! generated; [`reach`] holds what they need of reachability, [`arms`] why
//! graphs with forks get their code, [`handled`] why the graphs that are
//! built do where error handlers take the error alone, and [`bodies`] what
//! holds of the text of a body.
//! [`blueprint`], [`request`] and [`examples`] are what the author of an
//! application registers with.

pub mod language;
pub mod computation;
pub mod component;

pub mod shape;
pub mod call_graph;
pub mod reach;
pub mod builder;
pub mod well_formed;
pub mod wiring;

pub mod text;
pub mod codegen_utils;
pub mod emission;
pub mod codegen;
pub mod arms;
pub mod bodies;
pub mod handled;
pub mod laws;

pub mod blueprint;
pub mod request;
pub mod examples;
