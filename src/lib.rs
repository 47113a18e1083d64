//! Compile-time rewrites of function bodies. The verified part is the
//! fallthrough rewriter: it gives a `match` the fallthrough of a C `switch`,
//! where entering an arm also runs every arm below it, up to an arm that
//! ends in an explicit `break`.
pub mod syntax;
pub mod fallthrough;
