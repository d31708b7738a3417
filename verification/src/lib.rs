//! An operation-based, causally consistent replicated state machine.
//!
//! Replicas hold a copy of a conflict-free replicated data type (CRDT),
//! accept local commands that generate events, persist those events in a
//! per-replica log, and pull events from peers to converge.

pub mod causal_console;
pub mod causal_core;
pub mod causal_impl;
pub mod causal_lseq;
pub mod causal_or_set;
pub mod causal_rga;
pub mod causal_time;
pub mod causal_utils;

pub use causal_core::CRDT;
pub use causal_core::Event;
pub use causal_core::EventStore;
pub use causal_core::ObservedMap;
pub use causal_core::ReplicaId;
pub use causal_core::ReplicaState;
pub use causal_core::SeqNr;
pub use causal_core::VTime;
pub use causal_impl::Counter;
pub use causal_impl::CounterCommand;
pub use causal_console::InputField;
pub use causal_console::InputKey;
pub use causal_console::InputReceiver;
pub use causal_lseq::LSeq;
pub use causal_lseq::LSeqCommand;
pub use causal_lseq::LSeqOperation;
pub use causal_lseq::LSeqPtr;
pub use causal_lseq::LSeqReceiver;
pub use causal_or_set::BinarySet;
pub use causal_or_set::ORSet;
pub use causal_or_set::SetCommand;
pub use causal_or_set::SetOperation;
pub use causal_rga::RGA;
pub use causal_rga::RGACommand;
pub use causal_rga::RGAOperation;
pub use causal_rga::RGAPtr;
pub use causal_rga::RGAReceiver;
pub use causal_utils::InMemory;
pub use causal_time::ClockComparison;
pub use causal_time::VectorClock;
