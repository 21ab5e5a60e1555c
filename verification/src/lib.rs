pub mod actions;
pub mod client;
pub mod clock;
pub mod codec;
pub mod content;
pub mod endpoint;
pub mod gate;
pub mod harness;
pub mod history;
pub mod laws;
pub mod links;
pub mod matcher;
pub mod memory;
pub mod moves;
pub mod needs;
pub mod ordmap;
pub mod outbox;
pub mod pulse;
pub mod queue;
pub mod realm;
pub mod rows;
pub mod runs;
pub mod scenarios;
pub mod script;
pub mod subs;
pub mod tally;
pub mod text;
pub mod view;
pub mod wire;
pub mod world;
pub mod zones;
