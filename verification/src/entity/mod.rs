pub mod gliner;
pub mod regex;
pub mod resolution;
pub mod gradient;
