pub mod entrypoint;
pub mod symbols;
pub mod tech_stack;
pub mod test_layout;
