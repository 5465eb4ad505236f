pub mod aes;
pub mod codebook;
pub mod detect;
pub mod errors;
pub mod freq;
pub mod oracle;
pub mod recover;
pub mod xor;
