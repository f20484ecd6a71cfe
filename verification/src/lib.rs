//! Opening trainer core: a movetext tokenizer, a tree of move variations
//! built from it, a replaying cursor over one line of that tree, and the
//! state machine of a training session.

pub mod components;
pub mod pgn;
pub mod rules;
pub mod trainer;
