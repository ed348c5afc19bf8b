//! An archived hash table in the style of SwissTable, laid out in a flat byte
//! archive and proved correct with Verus.
//!
//! A table is written once and then only read, so it is laid out tightly:
//!
//! - The number of buckets follows from the number of entries and a load factor. It
//!   need not be a power of two.
//! - There are as many control bytes as buckets, and 15 more. The additional ones
//!   repeat the first few, so that a window of 16 control bytes can start at every
//!   bucket.
//! - Probing moves from window to window by the triangular numbers, modulo a power
//!   of two, and simply skips positions at which there is no bucket.
//! - A window is read in groups that are smaller than itself. Their width makes no
//!   difference.
//!
//! The modules, from the bottom up:
//!
//! - [`group`]: groups of control bytes and masks over their lanes.
//! - [`triangle`], [`probe`]: triangular numbers, the parts of a hash, and the order
//!   in which windows are examined.
//! - [`controls`]: the control bytes as a whole, what a lookup finds in them, and
//!   where entries are placed.
//! - [`archive`], [`ser`], [`values`]: values in a byte archive, and writing them.
//! - [`sizes`]: how many buckets there are, and how they lie in memory.
//! - [`table`], [`iter`], [`verify`]: reading a table, iterating over it, and
//!   checking it first.
//! - [`serialize`]: writing a table.
//! - [`hash_table`]: archiving a `hashbrown` hash table.
//! - [`laws`], [`coverage`], [`widths`], [`roundtrip`]: what holds of tables as a whole.
//! - [`observed`], [`written`], [`calls`]: what tables and calls on them come to, told by
//!   bytes, numbers and answers alone.

pub mod archive;
pub mod calls;
pub mod controls;
pub mod coverage;
pub mod error;
pub mod group;
pub mod hash_table;
pub mod iter;
pub mod laws;
pub mod observed;
pub mod probe;
pub mod roundtrip;
pub mod ser;
pub mod serialize;
pub mod sizes;
pub mod table;
pub mod triangle;
pub mod values;
pub mod verify;
pub mod widths;
pub mod written;
