//! Production planning for a farming game: the goods list and its recipe grammar, the
//! goods registry, scenario selection, the dependency graph, the integer program that
//! plans production, the jobs of a plan and the program that schedules them.

pub mod domain;
pub mod text;
pub mod parsers;
pub mod scenario;
pub mod registry;
pub mod petgraph_specs;
pub mod dependency_graph;
pub mod scheduler;
pub mod planner;
pub mod goods_table;
