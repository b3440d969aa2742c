pub mod freq;
pub mod imap;
pub mod laws;
pub mod pairs;
pub mod rank;
pub mod score;
pub mod words;
