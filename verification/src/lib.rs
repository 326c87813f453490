pub mod condense;
pub mod sbh_assembler;
pub mod utils;
