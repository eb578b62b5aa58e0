//! Availability distribution: the gossip state machine that spreads erasure
//! chunks of candidate blocks among validators.
//!
//! Every external collaborator (runtime queries, the availability store, the
//! network bridge, erasure coding) is kept at the edge: the functions here take
//! the answers of those collaborators as plain values and return the actions
//! to perform.
pub mod ancestry;
pub mod assoc;
pub mod gossip;
pub mod ingress;
pub mod laws;
pub mod peers;
pub mod resolver;
pub mod state;
pub mod types;
pub mod view;
