pub mod primality;
pub mod sieve;
