//! Articulated 2-D chains of rigid links that follow a moving target.
//!
//! The crate models points in fixed-point integer coordinates and provides
//! two solvers over a shared joint/chain data model:
//!
//! * a two-pass reaching solver (`fabrik`) that drags a chain so that its
//!   head tracks a target point exactly while every link keeps its length,
//! * a constrained-follow solver (`follow`) that advances a head joint under
//!   external control and pulls the trailing joints behind it, limiting how
//!   fast a joint's heading may deviate from its predecessor's heading,
//!
//! plus a contour extractor (`contour`) that turns a chain pose into the
//! ordered outline points a spline renderer consumes.
//!
//! All geometry is exact integer arithmetic: directions are normalised with
//! an integer square root at a fixed sub-unit scale, and every public
//! operation carries a contract that pins down the resulting coordinates.

pub mod chain;
pub mod contour;
pub mod fabrik;
pub mod follow;
pub mod joint;
pub mod norm;
pub mod num;
pub mod vec2;
