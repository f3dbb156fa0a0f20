//! Boot protocols the loader can hand a kernel off to. Only the 64-bit
//! stivale2 protocol is implemented.

pub mod stivale2;
