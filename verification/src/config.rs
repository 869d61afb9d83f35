//! Cluster-wide configuration.
//!
//! Shard count is fixed at cluster creation; node count is elastic. Which shard a key belongs to
//! never changes as nodes come and go; only the placement of shards on nodes does.

use crate::decimal;
use crate::decimal::parse_unsigned;
use crate::model::ScalePlan;
use crate::text;
use crate::text::{from_chars, to_chars};
use vstd::prelude::*;

verus! {

/// The replication factor of the multi-cloud baseline: one voter per cluster.
pub const SUPPORTED_REPLICATION_FACTOR: u32 = 3;

/// Cluster-wide configuration.
#[derive(Debug, Clone)]
pub struct ClusterConfig {
    /// Stable identifier of this cluster.
    pub cluster_id: String,
    /// Number of shards, fixed at creation.
    pub shard_count: u32,
    /// Replicas per shard.
    pub replication_factor: u32,
    /// Name of the local Kubernetes cluster.
    pub local_cluster: Option<String>,
    /// Cloud provider of the local member.
    pub cloud_provider: Option<String>,
    /// Region of the local member.
    pub region: Option<String>,
    /// The other members of the control plane.
    pub brain_peers: Vec<String>,
}

/// The settings a configuration is made from, as they were given.
#[derive(Debug)]
pub struct Settings {
    pub cluster_id: Option<String>,
    pub shard_count: Option<String>,
    pub cluster: Option<String>,
    pub cloud_provider: Option<String>,
    pub platform: Option<String>,
    pub region: Option<String>,
    pub brain_peers: Option<String>,
}

/// A setting without surrounding white space, unless that leaves nothing.
pub open spec fn non_empty(setting: Option<Seq<char>>) -> Option<Seq<char>> {
    match setting {
        Some(s) => if text::trimmed(s).len() > 0 {
            Some(text::trimmed(s))
        } else {
            None
        },
        None => None,
    }
}

/// The first of two settings that is given.
pub open spec fn first_given(a: Option<Seq<char>>, b: Option<Seq<char>>) -> Option<Seq<char>> {
    if a is Some {
        a
    } else {
        b
    }
}

/// A setting that reads as a positive number of 32 bits, or the default.
pub open spec fn positive_u32_of(setting: Option<Seq<char>>, default: u32) -> u32 {
    match setting {
        Some(s) => match decimal::unsigned_of(s) {
            Some(n) => if 0 < n <= u32::MAX {
                n as u32
            } else {
                default
            },
            None => default,
        },
        None => default,
    }
}

/// The parts of a text between commas.
pub open spec fn comma_parts(s: Seq<char>) -> Seq<Seq<char>>
    decreases s.len(),
{
    if s.len() == 0 {
        seq![Seq::empty()]
    } else {
        let before = comma_parts(s.drop_last());
        if s.last() == ',' {
            before.push(Seq::empty())
        } else {
            before.update(before.len() - 1, before.last().push(s.last()))
        }
    }
}

/// The parts without surrounding white space, but for those that are then empty.
pub open spec fn trimmed_parts(parts: Seq<Seq<char>>) -> Seq<Seq<char>>
    decreases parts.len(),
{
    if parts.len() == 0 {
        Seq::empty()
    } else {
        let before = trimmed_parts(parts.drop_last());
        let part = text::trimmed(parts.last());
        if part.len() > 0 {
            before.push(part)
        } else {
            before
        }
    }
}

/// The entries of a comma-separated list.
pub open spec fn csv_of(s: Seq<char>) -> Seq<Seq<char>> {
    trimmed_parts(comma_parts(s))
}

fn non_empty_setting(setting: &Option<String>) -> (r: Option<String>)
    ensures
        r.deep_view() == non_empty(setting.deep_view()),
{
    match setting {
        Some(s) => {
            let t = s.as_str().trim();
            if t.is_empty() {
                None
            } else {
                Some(t.to_owned())
            }
        },
        None => None,
    }
}

fn positive_u32(setting: &Option<String>, default: u32) -> (r: u32)
    ensures
        r == positive_u32_of(setting.deep_view(), default),
{
    match setting {
        Some(s) => match parse_unsigned(s.as_str()) {
            Some(n) => if n > 0 && n <= 4294967295 {
                n as u32
            } else {
                default
            },
            None => default,
        },
        None => default,
    }
}

fn push_part(parts: &mut Vec<String>, part: &Vec<char>)
    ensures
        final(parts).deep_view() == if text::trimmed(part@).len() > 0 {
            old(parts).deep_view().push(text::trimmed(part@))
        } else {
            old(parts).deep_view()
        },
{
    let ghost before = parts.deep_view();
    let whole = from_chars(part);
    let t = whole.as_str().trim();
    if !t.is_empty() {
        let owned = t.to_owned();
        parts.push(owned);
        assert(parts.deep_view() =~= before.push(text::trimmed(part@)));
    }
}

/// The entries of a comma-separated list, without surrounding white space and without empty ones.
pub fn parse_csv(value: &str) -> (r: Vec<String>)
    ensures
        r.deep_view() == csv_of(value@),
{
    let chars = to_chars(value);
    let ghost s = value@;
    let mut done: Vec<String> = Vec::new();
    let ghost mut full: Seq<Seq<char>> = Seq::empty();
    let mut part: Vec<char> = Vec::new();
    let mut i: usize = 0;
    assert(full.push(part@) =~= comma_parts(s.take(0)));
    assert(done.deep_view() =~= trimmed_parts(full));
    while i < chars.len()
        invariant
            i <= chars.len(),
            chars@ == s,
            full.push(part@) == comma_parts(s.take(i as int)),
            done.deep_view() == trimmed_parts(full),
        decreases chars.len() - i,
    {
        assert(s.take(i + 1).drop_last() =~= s.take(i as int));
        let ghost before = comma_parts(s.take(i as int));
        let ghost p = part@;
        if chars[i] == ',' {
            push_part(&mut done, &part);
            part = Vec::new();
            proof {
                assert(full.push(p).drop_last() =~= full);
                full = full.push(p);
                assert(full.push(part@) =~= before.push(Seq::empty()));
            }
        } else {
            part.push(chars[i]);
            assert(full.push(part@) =~= before.update(
                before.len() - 1,
                before.last().push(s[i as int]),
            ));
        }
        i += 1;
    }
    assert(s.take(s.len() as int) =~= s);
    push_part(&mut done, &part);
    assert(full.push(part@).drop_last() =~= full);
    done
}

impl ClusterConfig {
    /// The configuration that settings stand for. The replication factor is fixed.
    pub fn from_settings(s: &Settings) -> (r: Self)
        ensures
            s.cluster_id is Some ==> r.cluster_id@ == s.cluster_id->0@,
            s.cluster_id is None ==> r.cluster_id@ == "fiducia-local"@,
            r.shard_count == positive_u32_of(s.shard_count.deep_view(), 16),
            r.shard_count > 0,
            r.replication_factor == SUPPORTED_REPLICATION_FACTOR,
            r.local_cluster.deep_view() == non_empty(s.cluster.deep_view()),
            r.cloud_provider.deep_view() == first_given(
                first_given(
                    non_empty(s.cloud_provider.deep_view()),
                    non_empty(s.platform.deep_view()),
                ),
                non_empty(s.cluster.deep_view()),
            ),
            r.region.deep_view() == non_empty(s.region.deep_view()),
            r.brain_peers.deep_view() == match s.brain_peers {
                Some(p) => csv_of(p@),
                None => Seq::empty(),
            },
    {
        let cluster_id: String = match &s.cluster_id {
            Some(id) => id.clone(),
            None => "fiducia-local".to_owned(),
        };
        let mut cloud_provider = non_empty_setting(&s.cloud_provider);
        if cloud_provider.is_none() {
            cloud_provider = non_empty_setting(&s.platform);
        }
        if cloud_provider.is_none() {
            cloud_provider = non_empty_setting(&s.cluster);
        }
        let brain_peers: Vec<String> = match &s.brain_peers {
            Some(p) => parse_csv(p.as_str()),
            None => {
                let none: Vec<String> = Vec::new();
                assert(none.deep_view() =~= Seq::empty());
                none
            },
        };
        ClusterConfig {
            cluster_id,
            shard_count: positive_u32(&s.shard_count, 16),
            replication_factor: SUPPORTED_REPLICATION_FACTOR,
            local_cluster: non_empty_setting(&s.cluster),
            cloud_provider,
            region: non_empty_setting(&s.region),
            brain_peers,
        }
    }

    /// The number of shards keys are spread over: at least one, however the configuration was
    /// made.
    pub fn routing_shards(&self) -> (r: u32)
        ensures
            r == if self.shard_count >= 1 {
                self.shard_count
            } else {
                1
            },
    {
        if self.shard_count >= 1 {
            self.shard_count
        } else {
            1
        }
    }

    /// The scale plan to start with: the configured number of nodes, or three, but never fewer
    /// than the replication factor.
    pub fn initial_plan(&self, target_nodes: &Option<String>) -> (r: ScalePlan)
        ensures
            r.replication_factor == self.replication_factor,
            r.target_nodes == ({
                let wanted = match target_nodes.deep_view() {
                    Some(s) => match decimal::unsigned_of(s) {
                        Some(n) => if n <= u32::MAX {
                            n as u32
                        } else {
                            3
                        },
                        None => 3,
                    },
                    None => 3,
                };
                if wanted >= self.replication_factor {
                    wanted
                } else {
                    self.replication_factor
                }
            }),
    {
        let wanted: u32 = match target_nodes {
            Some(s) => match parse_unsigned(s.as_str()) {
                Some(n) => if n <= 4294967295 {
                    n as u32
                } else {
                    3
                },
                None => 3,
            },
            None => 3,
        };
        ScalePlan {
            target_nodes: if wanted >= self.replication_factor {
                wanted
            } else {
                self.replication_factor
            },
            replication_factor: self.replication_factor,
        }
    }
}


/// The parts of a text hold no comma, and make it up again with a comma between each two.
pub proof fn parts_make_up_the_text(s: Seq<char>)
    ensures
        comma_parts(s).len() > 0,
        forall|i: int, j: int|
            0 <= i < comma_parts(s).len() && 0 <= j < comma_parts(s)[i].len()
                ==> #[trigger] comma_parts(s)[i][j] != ',',
        comma_parts(s).drop_last().map_values(|p: Seq<char>| p.push(',')).flatten()
            + comma_parts(s).last() == s,
    decreases s.len(),
{
    let f = |p: Seq<char>| p.push(',');
    let here = comma_parts(s);
    here.drop_last().map_values(f).lemma_flatten_and_flatten_alt_are_equivalent();
    if s.len() == 0 {
        assert(here.drop_last().map_values(f) =~= Seq::empty());
        assert(here.drop_last().map_values(f).flatten() + here.last() =~= s);
    } else {
        let rest = s.drop_last();
        parts_make_up_the_text(rest);
        let before = comma_parts(rest);
        before.drop_last().map_values(f).lemma_flatten_and_flatten_alt_are_equivalent();
        assert(rest.push(s.last()) =~= s);
        if s.last() == ',' {
            assert(here.drop_last() =~= before);
            let all = before.map_values(f);
            assert(all.drop_last() =~= before.drop_last().map_values(f));
            assert(all.flatten_alt() =~= all.drop_last().flatten_alt() + all.last());
            assert(all.flatten() + here.last() =~= s);
        } else {
            assert(here.drop_last() =~= before.drop_last());
            assert(here.drop_last().map_values(f).flatten() + here.last() =~= s);
            assert forall|i: int, j: int|
                0 <= i < here.len() && 0 <= j < here[i].len() implies #[trigger] here[i][j]
                != ',' by {
                if i < here.len() - 1 || j < before.last().len() {
                    assert(here[i][j] == before[i][j]);
                }
            }
        }
    }
}

/// The entries of a list are its parts without surrounding white space, in order, but for those
/// that hold nothing else.
pub proof fn entries_are_the_parts(s: Seq<char>)
    ensures
        csv_of(s) == comma_parts(s).map_values(|p: Seq<char>| text::trimmed(p)).filter(
            |p: Seq<char>| p.len() > 0,
        ),
{
    trimmed_parts_are_filtered(comma_parts(s));
}

proof fn trimmed_parts_are_filtered(parts: Seq<Seq<char>>)
    ensures
        trimmed_parts(parts) == parts.map_values(|p: Seq<char>| text::trimmed(p)).filter(
            |p: Seq<char>| p.len() > 0,
        ),
    decreases parts.len(),
{
    reveal(Seq::filter);
    let f = |p: Seq<char>| text::trimmed(p);
    let all = parts.map_values(f);
    if parts.len() > 0 {
        trimmed_parts_are_filtered(parts.drop_last());
        assert(all.drop_last() =~= parts.drop_last().map_values(f));
        assert(all.last() == text::trimmed(parts.last()));
    } else {
        assert(all =~= Seq::empty());
    }
}

/// A setting counts without the white space around it, and only if something is left; of several
/// settings the first that counts is taken.
pub proof fn blank_settings_count_as_unset(a: Option<Seq<char>>, b: Option<Seq<char>>)
    ensures
        a is None ==> non_empty(a) is None,
        a is Some && text::trimmed(a->0).len() == 0 ==> non_empty(a) is None,
        a is Some && text::trimmed(a->0).len() != 0 ==> non_empty(a) == Some(text::trimmed(a->0)),
        non_empty(a) is Some ==> first_given(non_empty(a), non_empty(b)) == non_empty(a),
        non_empty(a) is None ==> first_given(non_empty(a), non_empty(b)) == non_empty(b),
{
}

/// A number of shards counts when it reads as a number other than zero that fits 32 bits, and the
/// default counts otherwise.
pub proof fn shard_counts_are_positive(setting: Option<Seq<char>>, default: u32)
    ensures
        ({
            let n: int = if setting is Some && decimal::unsigned_of(setting->0) is Some {
                decimal::unsigned_of(setting->0)->0 as int
            } else {
                0
            };
            &&& 1 <= n < 0x1_0000_0000 ==> positive_u32_of(setting, default) == n
            &&& n == 0 || n >= 0x1_0000_0000 ==> positive_u32_of(setting, default) == default
        }),
{
}

} // verus!
