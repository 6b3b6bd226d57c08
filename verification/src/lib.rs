//! Verified cores of a family of small TCP wire-protocol servers: a
//! speed-daemon that detects speeding vehicles from camera sightings and
//! issues at most one ticket per plate per calendar day, a priority job
//! queue with per-client leases, and a position-dependent streaming byte
//! cipher, together with the smaller codecs and stores that accompany them.
pub mod chat_user;
pub mod cipher;
pub mod cipher_codec;
pub mod cipher_ops;
pub mod jobs;
pub mod jobs_proto;
pub mod numfmt;
pub mod primes;
pub mod road_camera;
pub mod road_codec;
pub mod road_conn;
pub mod road_dispatch;
pub mod road_plate;
pub mod ticket;
pub mod toys;
pub mod vcs_codec;
pub mod vcs_store;
