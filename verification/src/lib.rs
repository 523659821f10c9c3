//! Cross-source strain-review aggregation.
//!
//! Review sources hand the library uniform [`listing::Listing`] records
//! (source name, strain name, rating, review count).  The library groups
//! them by normalized strain name and, for every strain corroborated by
//! two or more distinct sources, synthesizes a review-count-weighted
//! meta-average record.  Ratings are carried in thousandths of a rating
//! point so that the averages are exact integer arithmetic.

pub mod aggregate;
pub mod listing;
pub mod text;
