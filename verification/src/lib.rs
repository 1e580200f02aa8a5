//! Scrambling of FiveM resource event names.
pub mod argument_laws;
pub mod calls;
pub mod cli;
pub mod events;
pub mod function_laws;
pub mod gathering_laws;
pub mod listing_laws;
pub mod manifest;
pub mod manifest_laws;
pub mod name_laws;
pub mod names;
pub mod output;
pub mod output_laws;
pub mod passes;
pub mod path_laws;
pub mod path_order;
pub mod paths;
pub mod place_laws;
pub mod replacement;
pub mod rewrite;
pub mod rewrite_laws;
pub mod run_laws;
pub mod sandbox;
pub mod scrambler;
pub mod scrambling_laws;
pub mod script_laws;
pub mod scripts;
pub mod selection;
pub mod shared_laws;
pub mod sorting;
pub mod state;
pub mod text;
pub mod text_laws;
pub mod timer;
pub mod uuids;
pub mod writer;
