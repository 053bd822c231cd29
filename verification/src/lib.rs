//! Start-up support for a freestanding process: decoding of the initial stack
//! image, of the NUL-terminated argument strings it points to, and the rule
//! that turns the way a process ends into its exit status.
//!
//! The library reads no memory by itself. Its caller hands it the words of
//! the stack image and the bytes behind each argument pointer as plain values.

pub mod args;
pub mod exit;
pub mod layout;
pub mod text;
