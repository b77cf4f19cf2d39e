# crdtsync_core

The core of a local-first sync engine: a replicated document (maps, lists, text, counters,
registers, XML trees, annotations and access grants) that replicas edit on their own and
bring together by exchanging ops. The library is written in Verus: every function carries a
contract, and the properties that hold of the library as a whole are proved beside it.

What is proved of convergence: replicas that fold the same ops, in any order and with
repeats, end up the same, movable XML nodes and their moves among what they hold
(`law_delivery_order_does_not_show`), and a replica that makes edits of its own ends up as
one that receives them (`law_authors_and_receivers_agree`). The ops are those that replicas
author: what a replica publishes next has an id and stamps of its own
(`law_emitted_ops_are_authored`), and the names that ops derive are told apart, as UUIDs
are. Ops that reveal a node, which no edit makes, are left out.

What is proved of snapshots: whatever a replica has lived through, ops that arrived, edits
of its own and transactions, its bytes load, and encode again as they were
(`law_a_replica_survives_its_snapshot`). Of any replica at all: what it holds that its bytes
can carry reads back from them (`law_a_snapshot_reads_back`).

## Layout

`src/` is the library.

- Values and bytes: `wire`, `bytes`, `ids`, `clientid`, `elementid`, `element`, `stamp`,
  `scalar`, `anchor`, `ranged`, `op`, `format`, `codec`, `many`, `path`, `json`, `text_out`.
- Containers: `table`, `registry`, `counter`, `register`, `map`, `list`, `order`,
  `sequence`, `text`, `xml`, `treemove`, `annot`, with their state forms in `map_state` and
  `list_state`.
- The document: `tree`, `fold`, `identity`, `ready`, `doc`, `mint`, `cursor`, `reads`,
  `marks`, `walk`.
- Undo: `undo`, `inverse`, `replay`.
- Snapshots: `state`, `load`, `restore`, `rebuild`, `floor`, `snapshot`.
- What a reader may see, and what a schema change does: `acl`, `authority`, `schema`,
  `project`, `scope`, `purge`, `migration`, `migrate`.
- Bringing two replicas' containers together: `merge`.
- Differences between replicas: `changes`, `diff`, `render`.
- Clients: `protocol`, `client`, `session`, `host`.
- The command line's decisions: `cli`.

The laws stand in proof functions named `law_...`: beside the type they are about, or in
`acl_laws`, `authored`, `commute`, `converge`, `deliver`, `diff_laws`, `gist`, `grown`,
`keep_laws`, `list_laws`, `lived`, `map_laws`, `migrate_laws`, `move_laws`, `once_laws`,
`project_laws`, `record_laws`, `reorder`, `restore_laws`, `roundtrip`, `settle_laws`,
`shown`, `snapshot_laws`, `state_laws`, `survive`, `told`, `truncate_laws`, `undo_laws` and
`whole`.

`tests/` runs the library. `app/` is the command line around it.

## What is taken on trust

The identifiers of the `uuid` crate, and a few functions of the standard library on strings
and characters. Each stands behind one item with a contract, in `ids`, `bytes`, `json` and
`render`.
