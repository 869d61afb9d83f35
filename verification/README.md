# fiducia-brain

The control plane of a sharded coordination cluster, with its logic verified by Verus. It tracks
which nodes are alive, decides which of them host which shards, restores lost replicas, keeps
leadership where it is wanted, and replicates its own decisions among its members.

## Layout

- `src/` is the verified library.
  - `text`, `ids`, `shards`, `decimal`, `json`: strings, ordered maps and sets, numbers, documents.
  - `model`, `config`, `internal_auth`, `api`: shared types, settings, and the rules behind the
    HTTP routes.
  - `membership`, `oracle`: failure detection by silence and by what Kubernetes says.
  - `plan`, `leadership`, `placement`, `scheduler`: replica placement, choice of leaders, the
    shard map, and the reconciler; `scheduler_model` says what the reconciler computes.
  - `cluster`: the replicated commands and what they do.
  - `raft`, `raft_store`, `raft_driver`: the consensus engine as a pure state machine, what it
    keeps on disk, and the order in which side effects leave a member; `raft_model` and
    `raft_group` say what one member and a whole group do.
  - `composition`: how placements are published, staged, fenced and served, end to end.
  - `harness`, `replay`: the replay of recorded model traces against the scheduler.
  - `*_laws`, `scheduler_stability`, `scheduler_spread`, `raft_safety`: what holds of all of this,
    as proof functions.
- `app/` is the process around the library: settings, files, HTTP, timers.
- `tests/` runs the library on concrete values.

## What is proved

Every public function of the library states exactly what it returns or changes, and does not panic
where its preconditions hold. Beyond that, the proof functions state laws. Some of them:

- No two members of a group ever hand out different commands for the same index, through crashes,
  restarts and lost, repeated or reordered messages (`raft_safety::one_command_per_index`), and no
  term has two leaders (`raft_safety::one_leader_per_term`). A proposal that was acknowledged
  stands (`raft_safety::acknowledged_commands_stand`).
- Nothing leaves a member before it is saved (`raft_driver::nothing_leaves_before_it_is_saved`),
  no compaction takes anything back (`raft_driver::drains_take_nothing_back`),
  what is saved is recovered (`raft_store::save_then_reopen`), and recovery never loses a committed
  entry (`raft_store::committed_entries_are_never_lost`).
- Lost capacity never shrinks an assignment (`scheduler_laws::published_sets_never_shrink`), a
  dead replica is replaced once there is room
  (`scheduler_stability::enough_workers_restore_the_factor`), and reconciling one shard again
  changes nothing (`scheduler_stability::one_shard_settles`).
- Each replica that is added stands in a failure domain of its own, until every domain the workers
  offer has one (`scheduler_spread::published_replicas_are_spread`).
- A node that is running is not declared dead for being silent
  (`membership_laws::running_is_not_dead`).

What the library takes from elsewhere without proof is marked as such where it is declared: four
string functions of the standard library, the constant-time comparison of `subtle`, the way `Debug`
quotes a string, and the JSON parser of `serde_json`, of which only that its result depends on
nothing but the bytes is taken.
