//! Onion routing: the verified core of a small onion-routing system.
pub mod text;
pub mod directory;
pub mod keys;
pub mod onion;
pub mod authority;
pub mod mock_stream;
pub mod node;
