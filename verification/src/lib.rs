//! A supervision runtime for long-running, fault-tolerant services inside
//! one process.
//!
//! Every supervised unit implements a five-operation lifecycle contract —
//! `init`, `main`, `repeat`, `catch`, `abort` — and a reactor drives it
//! through a fixed run-loop state machine: `init` runs once, failures of
//! `main` or `repeat` are offered to `catch`, an unrecovered failure ends
//! the loop, and `abort` runs exactly once on every path out. Reactors keep
//! a registry from service id to live unit, remove each unit exactly once
//! as it terminates, and emit one completion notification per termination,
//! carrying whether that removal left the registry empty — which is how a
//! caller detects full drain-out.
//!
//! Isolated units are owned exclusively by their reactor; shared units are
//! reachable from outside through non-owning observer handles that stop
//! resolving once the unit is gone. Alongside the reactors sit the
//! boundary pieces a service may use on its transport: length-prefixed
//! message framing with a keep-alive sentinel, and a byte-level cipher.
//!
//! The lifecycle machine, the registries, the notification discipline, the
//! framing and the cipher are all specified by contracts and verified;
//! the laws each module states are proved where they are declared.

pub mod capitan;
pub mod encryption;
pub mod errors;
pub mod events;
pub mod frame;
pub mod isolated;
pub mod lifecycle;
pub mod notify;
pub mod reactor;
pub mod registry;
pub mod service;
pub mod shared;
