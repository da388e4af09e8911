//! A handheld game console built around WebAssembly games: the `.cart`
//! container games ship in, the SDK games draw and read input with, the
//! host and kernel runtimes that run them, the kernel's debugging shell and
//! devices, and the games that come with it.
//!
//! Everything here works on plain values: a game's memory is a
//! [`sdk::GuestMemory`], and whatever talks to hardware, windows or the
//! WebAssembly engine hands the library bytes and takes bytes back.
use vstd::prelude::*;

pub mod cart;
pub mod sdk;
pub mod shell;
pub mod input;
pub mod runtime;
pub mod ramfb;
pub mod laws;
pub mod snake;
pub mod launcher;
pub mod hello;

verus! {
}
