//! Generation of random passwords made of alphanumeric sequences joined by a
//! separator, with a chosen number of digits and uppercase letters.
pub mod options;
pub mod password;
pub mod positions;
pub mod random;
