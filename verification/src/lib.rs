//! Builds the list of customers to invite: one JSON record per line is decoded,
//! paired with its measured distance from the Dublin office, filtered by a
//! range in kilometres and optionally ordered by user id.
pub mod customer;
pub mod customer_data;
pub mod json;
pub mod lines;
pub mod number_text;
pub mod invite_list;
