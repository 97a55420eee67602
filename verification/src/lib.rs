//! A verified Lindenmayer-system (L-system) interpreter.
//!
//! An L-system grammar (an initiator string, production rules, a step length,
//! an angle increment and a recursion-depth ceiling) is expanded by
//! turtle-graphics interpretation into a sequence of 2-D line segments
//! together with their axis-aligned bounding box.
//!
//! All geometry in this crate is exact: coordinates and angles are signed
//! integers in caller-chosen units (for instance fixed-point world
//! coordinates and millidegrees).  The one transcendental step of turtle
//! graphics, turning a heading into a unit direction, is left to the
//! caller: a first verified pass ([`interpreter::LSystem::headings`])
//! reports the exact heading of every forward move, the caller evaluates
//! a direction vector for each, and a second verified pass
//! ([`interpreter::LSystem::draw`]) consumes those directions and builds
//! the segments and the bounding box.  Every statement proved here holds
//! for arbitrary direction vectors, so it holds in particular for the
//! trigonometric ones.

pub mod geometry;
pub mod interpreter;
