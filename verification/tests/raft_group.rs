use fiducia_brain::cluster::Command;
use fiducia_brain::model::{NodeId, ScalePlan};
use fiducia_brain::raft::{Addressed, Persisted, Raft, RaftConfig};
use std::collections::HashMap;

/// A reproducible source of choices.
struct Dice(u64);

impl Dice {
    fn roll(&mut self, n: usize) -> usize {
        self.0 = self
            .0
            .wrapping_mul(6364136223846793005)
            .wrapping_add(1442695040888963407);
        ((self.0 >> 33) as usize) % n
    }
}

struct Member {
    raft: Raft,
    saved: Persisted,
}

struct Group {
    ids: Vec<NodeId>,
    members: Vec<Member>,
    sent: Vec<(NodeId, Addressed)>,
    /// What was handed out at each index, by whichever member did first.
    handed: HashMap<u64, u32>,
    /// Who led each term.
    led: HashMap<u64, NodeId>,
    /// Proposals that a leader took in, by member.
    proposals: Vec<Proposal>,
    /// The command each acknowledged proposal put at its index.
    acknowledged: HashMap<u64, u32>,
    hand_outs: usize,
}

struct Proposal {
    member: usize,
    term: u64,
    index: u64,
    plan: u32,
    saved: bool,
}

fn start(ids: &[NodeId], k: usize, seed: u64, saved: Persisted) -> Raft {
    let peers: Vec<NodeId> = ids.iter().filter(|p| **p != ids[k]).cloned().collect();
    let cfg = RaftConfig {
        heartbeat_ticks: 1,
        election_min_ticks: 4,
        election_max_ticks: 9,
    };
    Raft::new(ids[k].clone(), peers, cfg, seed, saved)
}

impl Group {
    fn new(n: usize) -> Self {
        let ids: Vec<NodeId> = (0..n).map(|i| format!("brain-{i}")).collect();
        let members = (0..n)
            .map(|k| Member {
                raft: start(&ids, k, k as u64 + 1, Persisted::default()),
                saved: Persisted::default(),
            })
            .collect();
        Group {
            ids,
            members,
            sent: Vec::new(),
            handed: HashMap::new(),
            led: HashMap::new(),
            proposals: Vec::new(),
            acknowledged: HashMap::new(),
            hand_outs: 0,
        }
    }

    fn drain(&mut self, k: usize) {
        let ready = self.members[k].raft.ready();
        if let Some(p) = ready.persist {
            self.members[k].saved = p;
        }
        for (index, command) in ready.committed {
            let n = match command {
                Command::SetScalePlan(p) => p.target_nodes,
                _ => unreachable!("only plans are proposed"),
            };
            self.hand_outs += 1;
            assert_eq!(*self.handed.entry(index).or_insert(n), n, "index {index}");
        }
        let raft = &self.members[k].raft;
        for p in self.proposals.iter_mut().filter(|p| p.member == k) {
            if p.saved && raft.term() == p.term && raft.commit_index() >= p.index {
                self.acknowledged.insert(p.index, p.plan);
            }
            p.saved = true;
        }
        for (index, n) in &self.acknowledged {
            assert_eq!(*self.handed.get(index).unwrap_or(n), *n, "acknowledged {index}");
        }
        for m in ready.messages {
            self.sent.push((self.ids[k].clone(), m));
        }
    }

    fn watch(&mut self) {
        for k in 0..self.members.len() {
            let raft = &self.members[k].raft;
            if raft.is_leader() {
                let leader = self
                    .led
                    .entry(raft.term())
                    .or_insert_with(|| self.ids[k].clone());
                assert_eq!(*leader, self.ids[k], "term {}", raft.term());
            }
        }
    }

    /// What the logs have in common right now.
    fn compare(&self) {
        let states: Vec<Persisted> = self
            .members
            .iter()
            .map(|m| m.raft.persisted_snapshot())
            .collect();
        let entry = |p: &Persisted, i: u64| -> Option<(u64, String)> {
            if i <= p.base_index {
                return None;
            }
            p.log
                .get((i - p.base_index - 1) as usize)
                .map(|e| (e.term, format!("{:?}", e.command)))
        };
        for (a, x) in states.iter().enumerate() {
            for (b, y) in states.iter().enumerate() {
                let last = x.base_index + x.log.len() as u64;
                let mut matching = false;
                for i in (1..=last).rev() {
                    let (p, q) = (entry(x, i), entry(y, i));
                    if let (Some(p), Some(q)) = (&p, &q) {
                        // Equal terms at one index make everything before it equal.
                        matching = matching || p.0 == q.0;
                        if matching {
                            assert_eq!(p, q, "{a} and {b} at {i}");
                        }
                        if i <= x.commit_index && i <= y.commit_index {
                            assert_eq!(p, q, "committed by {a} and {b} at {i}");
                        }
                    }
                    let leads = self.members[b].raft.is_leader();
                    if i <= x.commit_index && leads && y.current_term >= x.current_term {
                        assert!(i <= y.base_index || p.is_none() || p == q, "leader {b} at {i}");
                    }
                }
            }
        }
    }

    /// Ticks, proposals, lost, repeated and reordered messages, crashes and compactions, in an
    /// order the dice choose.
    fn run(&mut self, dice: &mut Dice, steps: usize) {
        let n = self.members.len();
        for step in 0..steps {
            let k = dice.roll(n);
            match dice.roll(24) {
                0..=4 => self.members[k].raft.tick(),
                5..=6 => {
                    let command = Command::SetScalePlan(ScalePlan {
                        target_nodes: step as u32,
                        replication_factor: 3,
                    });
                    if let Ok(index) = self.members[k].raft.propose(command) {
                        let term = self.members[k].raft.term();
                        self.proposals.push(Proposal {
                            member: k,
                            term,
                            index,
                            plan: step as u32,
                            saved: false,
                        });
                    }
                }
                7..=16 => {
                    if !self.sent.is_empty() {
                        let at = dice.roll(self.sent.len());
                        let (from, m) = if dice.roll(4) == 0 {
                            self.sent[at].clone()
                        } else {
                            self.sent.swap_remove(at)
                        };
                        let to = self.ids.iter().position(|id| *id == m.to).unwrap();
                        self.members[to].raft.step(from, m.msg);
                    }
                }
                17 => {
                    if !self.sent.is_empty() {
                        let at = dice.roll(self.sent.len());
                        self.sent.swap_remove(at);
                    }
                }
                18 => {
                    if dice.roll(8) == 0 {
                        let saved = self.members[k].saved.clone();
                        self.members[k].raft = start(&self.ids, k, step as u64, saved);
                        self.proposals.retain(|p| p.member != k || p.saved);
                    }
                }
                19 => {
                    let index = self.members[k].raft.commit_index();
                    if dice.roll(4) == 0 {
                        self.members[k].raft.compact(index, vec![1]);
                    }
                }
                _ => self.drain(k),
            }
            self.watch();
            if step % 97 == 0 {
                self.compare();
            }
        }
    }
}

#[test]
fn no_two_commands_are_handed_out_for_one_index() {
    for seed in 1..9u64 {
        let mut group = Group::new(3);
        group.run(&mut Dice(seed), 12_000);
        assert!(group.hand_outs > 0, "seed {seed} handed something out");
        assert!(group.led.len() > 0, "seed {seed} elected somebody");
        assert!(!group.acknowledged.is_empty(), "seed {seed} acknowledged something");
    }
}

#[test]
fn five_members_stay_consistent_too() {
    let mut group = Group::new(5);
    group.run(&mut Dice(77), 30_000);
    assert!(group.hand_outs > 0);
    assert!(group.handed.len() <= group.hand_outs);
}
