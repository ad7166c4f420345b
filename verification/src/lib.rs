//! Device-flow OAuth2 token lifecycle: a verified core for obtaining,
//! caching and refreshing access tokens, one credential per named profile.
//!
//! The crate holds the pure logic of the tool: the credential record and
//! its expiry policy, the on-disk JSON codec, the request bodies and
//! endpoint URLs of the two OAuth exchanges, and the decisions of the
//! device-code poll loop and of the lifecycle orchestrator. The
//! surrounding process — argument parsing, HTTP, the filesystem — hands
//! these functions plain values and carries their answers out.

pub mod codec;
pub mod config;
pub mod errors;
pub mod lifecycle;
pub mod request;
pub mod token;

pub use config::AppConfig;
pub use errors::AuthError;
pub use lifecycle::Cli;
pub use token::TokenResponse;
pub use token::token_valid;
