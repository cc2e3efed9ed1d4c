pub mod frontmatter;
pub mod headings;
pub mod ingest;
