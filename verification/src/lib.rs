//! A single-threaded game kernel: entities, sparse pools, ordered tasks and
//! server-authoritative replication.

pub mod aabb;
pub mod apply;
pub mod blend;
pub mod bvh;
pub mod camera;
pub mod channel;
pub mod converge;
pub mod deliver;
pub mod delta;
pub mod dial;
pub mod door;
pub mod flight;
pub mod frame;
pub mod handle;
pub mod history;
pub mod id;
pub mod intake;
pub mod kernel;
pub mod link;
pub mod modload;
pub mod net;
pub mod netmod;
pub mod order;
pub mod pace;
pub mod paged;
pub mod pool;
pub mod params;
pub mod predict;
pub mod reg;
pub mod schedule;
pub mod schema;
pub mod sending;
pub mod serve;
pub mod session;
pub mod smooth;
pub mod snapshot;
pub mod sort;
pub mod spatial;
pub mod text;
pub mod timer;
pub mod util;
pub mod wire;
