pub mod anagram;
pub mod bills;
pub mod calendar;
pub mod converter;
pub mod distinct;
pub mod factor;
pub mod fibonacci;
pub mod goldbach;
pub mod modular;
pub mod primality;
pub mod provinces;
mod random;
pub mod retirement;
pub mod rho;
pub mod text;
