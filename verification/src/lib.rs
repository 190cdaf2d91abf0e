//! Recursion guards that let a recursive-descent parser handle left recursion:
//! a registry that numbers the guarded rules, a bit vector of the rules that
//! are being evaluated at the current input position, the traits by which an
//! input cursor carries that bit vector, and the guarded call, which finds a
//! rule that is entered again at the same position and grows its result from
//! a seed.

pub mod flags;
pub mod registry;
pub mod cursor;
pub mod guard;

pub use cursor::HasRecursiveInfo;
pub use cursor::HasRecursiveType;
pub use flags::RecursiveInfo;
pub use flags::RECURSIVE_FLAG_BITS;
pub use flags::RECURSIVE_FLAG_WORDS;
pub use registry::CapacityExceeded;
pub use registry::RecursiveIndexes;
