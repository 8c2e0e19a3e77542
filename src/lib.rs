//! Replication core of a peer-to-peer code-collaboration network: namespaced
//! reference names, a transactional reference database with fast-forward and
//! type-change policies, the staged fetch protocol (clone, verification
//! refs, data) and the decisions of an exchange between them, plus the
//! request parsing and tracking decisions of the node that serves them.
//!
//! `oid`, `bytes`: plain values and byte-string helpers.
//! `refs`: reading and writing `refs/namespaces/<key>/...` names.
//! `update`, `refdb`, `odb`, `mem`: staged updates, the reference database
//! and its transactions, the object facts it decides fast-forwards by, and
//! the in-memory shadow of staged updates.
//! `transport`, `stage`, `state`, `protocol`: wants and haves, the three
//! stages, the state carried across them, and the exchange's own steps.
//! `pktline`, `worker`, `ui`: packet lines and upload-pack headers, worker
//! requests and tracking decisions, and the text of list views.
use vstd::prelude::*;

pub mod bytes;
pub mod mem;
pub mod odb;
pub mod oid;
pub mod pktline;
pub mod protocol;
pub mod refdb;
pub mod refs;
pub mod stage;
pub mod state;
pub mod transport;
pub mod ui;
pub mod update;
pub mod worker;

verus! {

} // verus!
