//! Bookkeeping for work that is retained from frame to frame: which parts of a user
//! interface have to be laid out and placed again, and which shadow cascades have to be
//! built and baked again.
//!
//! The layout side starts from [`frame::Frame`], the state of the UI nodes and what changed
//! about them. [`frame::Frame::plan`] finds the dirty layout roots, and
//! [`system::ui_layout_system`] says, step by step, what is to be done about them. What
//! decides is in the modules that it draws on: [`roots`] and [`hierarchy`] for the layout
//! root of a node, [`tree`] and [`sync`] for the children to write, [`geometry`] and [`node`]
//! for placing nodes, [`independent`] and [`placement`] for the layout roots that have a
//! parent. What the steps of a pass and a whole pass come to is stated in [`trace`] and
//! [`outcome`].
//!
//! The shadow side starts from [`shadow_config`], the split of a view into slices.
//! [`cascade`] puts the projection of a slice together, or keeps the retained one, and
//! [`lights`] does so for every light and view.
//!
//! Numbers are held by their bits ([`scalar`], [`math`]) and compared exactly; arithmetic on
//! them is passed in by the callers.
pub mod cascade;
pub mod context;
pub mod entity;
pub mod frame;
pub mod geometry;
pub mod hierarchy;
pub mod independent;
pub mod lights;
pub mod math;
pub mod node;
pub mod outcome;
pub mod placement;
pub mod roots;
pub mod scalar;
pub mod shadow_config;
pub mod sync;
pub mod system;
pub mod trace;
pub mod tree;
