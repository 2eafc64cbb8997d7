//! What the library promises as a whole, said of inputs and results.
pub mod attribution;
pub mod beginnings;
pub mod collection;
pub mod compacting;
pub mod configuration;
pub mod correcting;
pub mod deletions;
pub mod editing;
pub mod hierarchy;
pub mod intake;
pub mod learning;
pub mod lookup;
pub mod merging;
pub mod output;
pub mod queue;
pub mod recording;
pub mod remembering;
pub mod retention;
pub mod sealing;
pub mod spreading;
pub mod synchronisation;
pub mod tidying;
pub mod times;
