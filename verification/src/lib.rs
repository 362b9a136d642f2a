//! Route planning between restaurant sites: the site data, the filters and
//! connection rules that turn it into a weighted graph, and the search for
//! paths through that graph.

pub mod cli;
pub mod graph_builder;
pub mod locator;
pub mod path_finder;
pub mod str_map;
pub mod utils;
