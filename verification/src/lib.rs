pub mod strs;
pub mod num;
pub mod notes;
pub mod link;
pub mod fragment;
pub mod paths;
pub mod order;
pub mod scan;
pub mod extract;
pub mod model;
pub mod nodes;
pub mod chunker;
pub mod large_markdown;
pub mod line_scan;
pub mod agentic_output;
pub mod metadata_renderer;
pub mod page_registry;
pub mod regular_page_plan;
pub mod input_classifier;
pub mod pattern;
pub mod render;
pub mod budget;
pub mod search_gate;
pub mod schema;
pub mod context_pack;
pub mod agent_catalog;
pub mod term_index;
pub mod fixture;
pub mod types;
pub mod analyzer;
pub mod generator;
pub mod llm;
pub mod relations;
pub mod output_plan;
