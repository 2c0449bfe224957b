pub mod progression;
pub mod resolve;
