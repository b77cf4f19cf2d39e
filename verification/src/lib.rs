//! A verified CRDT core: identities, the op codec, mergeable containers,
//! authorization, schema migration and the replica that ties them together.
//!
//! Pure logic: no I/O, no direct time or entropy. Platform effects are injected
//! through the [`Host`](host::Host) trait.

pub mod acl;
pub mod acl_laws;
pub mod anchor;
pub mod annot;
pub mod authored;
pub mod authority;
pub mod bytes;
pub mod changes;
pub mod cli;
pub mod client;
pub mod clientid;
pub mod codec;
pub mod commute;
pub mod converge;
pub mod counter;
pub mod cursor;
pub mod deliver;
pub mod diff;
pub mod diff_laws;
pub mod doc;
pub mod edits;
pub mod element;
pub mod elementid;
pub mod floor;
pub mod fold;
pub mod format;
pub mod gist;
pub mod grown;
pub mod host;
pub mod identity;
pub mod ids;
pub mod inverse;
pub mod json;
pub mod json_laws;
pub mod keep_laws;
pub mod landing;
pub mod list;
pub mod list_laws;
pub mod list_state;
pub mod lived;
pub mod load;
pub mod many;
pub mod map;
pub mod map_laws;
pub mod map_state;
pub mod marks;
pub mod merge;
pub mod migrate;
pub mod migrate_laws;
pub mod migration;
pub mod mint;
pub mod move_laws;
pub mod once_laws;
pub mod op;
pub mod order;
pub mod path;
pub mod project;
pub mod project_laws;
pub mod protocol;
pub mod purge;
pub mod ranged;
pub mod reads;
pub mod ready;
pub mod rebuild;
pub mod record_laws;
pub mod register;
pub mod registry;
pub mod render;
pub mod reorder;
pub mod replay;
pub mod restore;
pub mod restore_laws;
pub mod reverted;
pub mod roundtrip;
pub mod scalar;
pub mod schema;
pub mod scope;
pub mod sequence;
pub mod session;
pub mod settle_laws;
pub mod shown;
pub mod snapshot;
pub mod snapshot_laws;
pub mod stamp;
pub mod state;
pub mod state_laws;
pub mod survive;
pub mod table;
pub mod text;
pub mod text_out;
pub mod told;
pub mod tree;
pub mod treemove;
pub mod truncate_laws;
pub mod undo;
pub mod undo_laws;
pub mod undone;
pub mod walk;
pub mod whole;
pub mod wire;
pub mod xml;
