pub mod actors;
pub mod bytes;
pub mod collector;
pub mod comparator;
pub mod digest;
pub mod discovery_laws;
pub mod file_discovery_actors;
pub mod file_selector;
pub mod full_hash;
pub mod gate;
pub mod group_laws;
pub mod hard_linker;
pub mod hashing_laws;
pub mod json_dump;
pub mod maps;
pub mod partial_hash;
pub mod path;
pub mod path_laws;
pub mod path_order;
pub mod pipeline_laws;
pub mod search_laws;
pub mod selector_laws;
pub mod seqs;
pub mod size_arg;
pub mod status;
pub mod text;
pub mod text_order;
pub mod walk_laws;
