//! Disk usage of a directory tree.
//!
//! A [`scanner::Scanner`] walks a tree depth-first and builds a tree of
//! [`node::Node`]s bottom-up: a file counts its length, a directory the sum of
//! the entries it keeps, and an entry is kept only if it reaches the
//! threshold. The scanner never touches the filesystem itself. It tells its
//! host what to read next, the host answers, and with each answer the scanner
//! moves one step. When a directory is completed the scanner may hand out its
//! kept children as a progress report, at most once per interval.
//!
//! [`model`] states each step on mathematical values, [`walk`] states what a
//! whole scan computes and proves that the steps compute it, and [`order`]
//! proves that the order of a listing only decides the order of the children.

pub mod model;
pub mod node;
pub mod order;
pub mod scanner;
pub mod throttle;
pub mod walk;
