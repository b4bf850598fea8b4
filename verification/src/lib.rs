//! An addressable-object protocol: descriptors that name one leaf or
//! sub-structure inside an arbitrarily nested data shape, together with
//! the engines that resolve, print, parse, encode and decode them.
//!
//! A shape is described at run time by [`shape::Shape`]; a live object is a
//! [`instance::Instance`] conforming to that shape.  A [`descriptor::Getter`]
//! or [`descriptor::Setter`] names exactly one path through the shape.  The
//! access engine ([`access`]) reads or writes the addressed value, the binary
//! codec ([`codec`]) turns leaf values into little-endian bytes and back, and
//! the textual layer ([`text`], [`fields`]) prints, parses and introspects
//! canonical path strings such as `.d.a`, `.e::B.a` or `.f[1]`.

pub mod leaf;
pub mod shape;
pub mod descriptor;
pub mod instance;
pub mod value;
pub mod access;
pub mod codec;
pub mod text;
pub mod fields;
