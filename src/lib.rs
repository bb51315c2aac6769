//! A Petri-net firing engine: places hold token counts, transitions consume
//! and produce tokens, inhibitory arcs guard without consuming, and timed
//! transitions stay in flight until their completion is reported.

pub mod marking;
pub mod transition;
pub mod net;
mod select;
pub mod laws;
