//! Fetch-and-extract pipeline for a single product page: a policy-driven
//! redirect decision procedure, an HTML title extractor with a sentinel
//! fallback, and a JSON archiver whose serialized records can be read
//! back losslessly.

pub mod archiver;
pub mod decimal;
pub mod escape;
pub mod fetcher;
pub mod models;
pub mod parser;

pub use fetcher::get_product_url;
pub use models::Product;
