//! Hardening passes for WebAssembly modules.
//!
//! - `wasm`: the module model the passes read and rewrite.
//! - `scanner`, `resolver`: the static addresses that hold function pointers, found from the
//!   indirect calls and closed under the copies between such addresses.
//! - `encryption`, `pointer_hardening`: those pointers XOR-encrypted at rest with a per-run
//!   canary and decrypted right before each indirect call.
//! - `whitelist`, `write_protection`, `guard_semantics`: stores outside the functions reachable
//!   from start routed through guards that trap on writes into a protected range, and the
//!   proof that the guards do so.
//! - `monitor_inst`: experimental logging of stores; `options`: hook names; `errors`: the
//!   error the command line reports for an input it cannot take.
pub mod wasm;
pub mod address_set;
pub mod scanner;
pub mod resolver;
pub mod encryption;
pub mod pointer_hardening;
pub mod whitelist;
pub mod write_protection;
pub mod guard_semantics;
pub mod monitor_inst;
pub mod options;
pub mod errors;
