pub mod field;
pub mod hashing;
pub mod kernel;
pub mod text;
pub mod proof_envelope;
pub mod edia;
pub mod anchor;
pub mod deep_ali;
pub mod algebra;
pub mod poly;
pub mod quotient;
pub mod matrix;
pub mod fft;
pub mod dft;
pub mod oracle;
pub mod folded;
pub mod transcript;
pub mod lagrange;
pub mod deep_verifier;
pub mod fri;
pub mod merkle;
pub mod fri_protocol;
pub mod fri_query;
pub mod multilinear;
pub mod constraint;
pub mod combination;
pub mod constraint_oracle;
pub mod trace_provider;
pub mod adversarial;
pub mod telemetry;
pub mod debugger;
pub mod api;
pub mod poly_ir;
pub mod backends;
pub mod cli;
pub mod sumcheck;
