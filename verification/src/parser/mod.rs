pub mod frontmatter;
pub mod markdown;
