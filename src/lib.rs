//! A line-oriented file differ that emits unified-diff hunks, with selectors
//! that project lines before comparison and intra-line renderers for context
//! lines that compare equal under the selector but differ in their bytes.
pub mod conf;
pub mod driver;
pub mod edit;
pub mod hunked;
pub mod select;
pub mod wdiff;
