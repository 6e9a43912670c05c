//! Conversion of manga pages into the byte-exact `.xtch` container read by the
//! XTEink X4/X3 e-readers: the container codec, the page-layout rules and the
//! image steps that have an exact statement.

pub mod le;
pub mod xtch;
pub mod input;
pub mod parts;
pub mod layout;
pub mod gray;
