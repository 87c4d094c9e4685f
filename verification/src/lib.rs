//! An embedded, append-only fact database.
//!
//! Facts are stored in the diary, a byte log that only grows. Two indexes,
//! persistent hash tries whose frames lie in the diary too, lead from an
//! object to its rings and from a ring to its objects. Every commit appends
//! the roots of both indexes to the roots log, so a version is a pair of
//! roots, and an old version stays readable for as long as its roots are
//! kept.
//!
//! The library works on bytes that it is handed and hands back: it opens no
//! file and starts no thread.

pub mod bits;
pub mod codec;
pub mod diary;
pub mod echo;
pub mod error;
pub mod fact;
pub mod frame;
pub mod hamt;
pub mod index;
pub mod names;
pub mod roots_log;
pub mod scan;
pub mod slot;
pub mod slot_index;
pub mod write_scope;

pub use crate::diary::{Diary, Pos, Reader, SayPos, Writer};
pub use crate::echo::{Chamber, Echo};
pub use crate::error::Error;
pub use crate::fact::{ObjectId, Point, Ring, Say, Sayer, Speech, Target, Writable};
pub use crate::hamt::{Hamt, Root, ROOT_LEN};
pub use crate::roots_log::RootsLog;
pub use crate::slot::Slot;
pub use crate::slot_index::SlotIndex;
pub use crate::write_scope::WriteScope;
