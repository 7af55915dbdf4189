//! The in-memory process tree.
//!
//! Everything forks, and almost nothing that forks ever touches a file. So
//! the tree lives here, cheaply, and a process is written to storage only
//! once it, or a descendant, produces a write worth attributing.
//!
//! Two invariants carry this. Where a process is stored, so is every known
//! ancestor of it: the climb from a writer stops at the first stored one. And
//! an exit marks a process instead of removing it: a write of it can still be
//! queued when the exit is reported, so entries linger for a grace window.
use crate::text::{lex_le, lex_lt, lex_total, opt_text, text_lt};
use std::collections::HashMap;
use vstd::prelude::*;

verus! {

broadcast use vstd::std_specs::hash::group_hash_axioms;

/// Identity as captured at exec time, when the process is known to be alive.
#[derive(Clone, Debug, PartialEq, Eq)]
pub struct ProcInfo {
    pub exe: String,
    pub comm: String,
    pub cmdline: String,
    pub uid: u32,
}

/// The plain values of a [`ProcInfo`].
#[verifier::ext_equal]
pub struct InfoModel {
    pub exe: Seq<char>,
    pub comm: Seq<char>,
    pub cmdline: Seq<char>,
    pub uid: u32,
}

impl View for ProcInfo {
    type V = InfoModel;

    open spec fn view(&self) -> InfoModel {
        InfoModel {
            exe: self.exe@,
            comm: self.comm@,
            cmdline: self.cmdline@,
            uid: self.uid,
        }
    }
}

/// The identity of a process that has not been seen to exec.
pub open spec fn unknown_info() -> InfoModel {
    InfoModel { exe: ""@, comm: ""@, cmdline: ""@, uid: 0 }
}

impl Default for ProcInfo {
    fn default() -> (r: ProcInfo)
        ensures
            r@ == unknown_info(),
    {
        ProcInfo {
            exe: "".to_string(),
            comm: "".to_string(),
            cmdline: "".to_string(),
            uid: 0,
        }
    }
}

/// One process of the tree.
#[derive(Clone, Debug)]
pub struct ProcNode {
    pub ppid: Option<i32>,
    pub start_ts: String,
    pub info: ProcInfo,
    /// Set on exit; the entry survives until [`ProcTree::evict_stale`].
    pub exited: Option<String>,
    pub persisted: bool,
}

/// The plain values of a [`ProcNode`].
#[verifier::ext_equal]
pub struct NodeModel {
    pub ppid: Option<i32>,
    pub start_ts: Seq<char>,
    pub info: InfoModel,
    pub exited: Option<Seq<char>>,
    pub persisted: bool,
}

impl View for ProcNode {
    type V = NodeModel;

    open spec fn view(&self) -> NodeModel {
        NodeModel {
            ppid: self.ppid,
            start_ts: self.start_ts@,
            info: self.info@,
            exited: opt_text(self.exited),
            persisted: self.persisted,
        }
    }
}

/// How many processes a chain holds at most: a bound on the walk along a
/// malformed or cyclic parent chain. Real chains are a handful deep.
pub const MAX_CHAIN: usize = 64;

/// The processes known, by pid.
pub struct ProcTree {
    procs: HashMap<i32, ProcNode>,
}

impl View for ProcTree {
    type V = Map<i32, NodeModel>;

    closed spec fn view(&self) -> Map<i32, NodeModel> {
        self.procs@.map_values(|n: ProcNode| n@)
    }
}

/// A process that has just been noticed.
pub open spec fn new_node(ppid: Option<i32>, info: InfoModel, ts: Seq<char>) -> NodeModel {
    NodeModel { ppid, start_ts: ts, info, exited: None, persisted: false }
}

/// Did the process exit before the cutoff?
pub open spec fn is_stale(n: NodeModel, cutoff_ts: Seq<char>) -> bool {
    match n.exited {
        Some(e) => lex_lt(e, cutoff_ts),
        None => false,
    }
}

/// The tree without the processes that exited before the cutoff.
pub open spec fn evicted(tree: Map<i32, NodeModel>, cutoff_ts: Seq<char>) -> Map<i32, NodeModel> {
    tree.restrict(Set::new(|pid: i32| tree.contains_key(pid) && !is_stale(tree[pid], cutoff_ts)))
}

/// The climb from `pid` along the parents, nearest first, over at most
/// `steps` processes that are known and not stored. It ends at a process
/// without a parent or with itself as parent.
pub open spec fn climb(tree: Map<i32, NodeModel>, pid: i32, steps: nat) -> Seq<(i32, NodeModel)>
    decreases steps,
{
    if steps == 0 || !tree.contains_key(pid) || tree[pid].persisted {
        Seq::empty()
    } else {
        seq![(pid, tree[pid])] + match tree[pid].ppid {
            Some(p) => if p != pid {
                climb(tree, p, (steps - 1) as nat)
            } else {
                Seq::empty()
            },
            None => Seq::empty(),
        }
    }
}

/// The chain to store before events of `pid` can be attributed, root first.
pub open spec fn chain_of(tree: Map<i32, NodeModel>, pid: i32) -> Seq<(i32, NodeModel)> {
    climb(tree, pid, MAX_CHAIN as nat).reverse()
}

/// The plain values of a chain.
pub open spec fn chain_models(list: Seq<(i32, ProcNode)>) -> Seq<(i32, NodeModel)> {
    Seq::new(list.len(), |i: int| (list[i].0, list[i].1@))
}

/// The tree with one process marked as stored.
pub open spec fn marked(tree: Map<i32, NodeModel>, pid: i32) -> Map<i32, NodeModel> {
    if tree.contains_key(pid) {
        tree.insert(pid, NodeModel { persisted: true, ..tree[pid] })
    } else {
        tree
    }
}

fn copy_info(info: &ProcInfo) -> (r: ProcInfo)
    ensures
        r@ == info@,
{
    ProcInfo {
        exe: info.exe.clone(),
        comm: info.comm.clone(),
        cmdline: info.cmdline.clone(),
        uid: info.uid,
    }
}

fn copy_node(n: &ProcNode) -> (r: ProcNode)
    ensures
        r@ == n@,
{
    ProcNode {
        ppid: n.ppid,
        start_ts: n.start_ts.clone(),
        info: copy_info(&n.info),
        exited: match &n.exited {
            Some(e) => Some(e.clone()),
            None => None,
        },
        persisted: n.persisted,
    }
}

impl ProcTree {
    /// A tree that knows nothing.
    pub fn new() -> (t: Self)
        ensures
            t@ == Map::<i32, NodeModel>::empty(),
    {
        let t = ProcTree { procs: HashMap::new() };
        assert(t@ =~= Map::<i32, NodeModel>::empty());
        t
    }

    /// How many processes are known.
    pub fn len(&self) -> (n: usize)
        ensures
            n == self@.dom().len(),
            self@.dom().finite(),
    {
        assert(self@.dom() =~= self.procs@.dom());
        self.procs.len()
    }

    /// Is no process known?
    pub fn is_empty(&self) -> (r: bool)
        ensures
            r == (self@ == Map::<i32, NodeModel>::empty()),
    {
        let r = self.procs.len() == 0;
        proof {
            assert(self@.dom() =~= self.procs@.dom());
            if r {
                assert(self.procs@.dom() =~= Set::empty());
                assert(self@ =~= Map::<i32, NodeModel>::empty());
            } else {
                assert(self.procs@.dom().len() != Set::<i32>::empty().len());
            }
        }
        r
    }

    /// What is known of a process.
    pub fn get(&self, pid: i32) -> (r: Option<&ProcNode>)
        ensures
            match r {
                Some(n) => self@.contains_key(pid) && n@ == self@[pid],
                None => !self@.contains_key(pid),
            },
    {
        self.procs.get(&pid)
    }

    /// The identity of a process.
    pub fn info(&self, pid: i32) -> (r: Option<ProcInfo>)
        ensures
            match r {
                Some(info) => self@.contains_key(pid) && info@ == self@[pid].info,
                None => !self@.contains_key(pid),
            },
    {
        match self.procs.get(&pid) {
            Some(n) => Some(copy_info(&n.info)),
            None => None,
        }
    }

    /// When a process started.
    pub fn start_ts(&self, pid: i32) -> (r: Option<String>)
        ensures
            match r {
                Some(ts) => self@.contains_key(pid) && ts@ == self@[pid].start_ts,
                None => !self@.contains_key(pid),
            },
    {
        match self.procs.get(&pid) {
            Some(n) => Some(n.start_ts.clone()),
            None => None,
        }
    }

    fn put(&mut self, pid: i32, node: ProcNode)
        ensures
            final(self)@ == old(self)@.insert(pid, node@),
    {
        let ghost before = self@;
        self.procs.insert(pid, node);
        assert(self@ =~= before.insert(pid, node@));
    }

    /// Notes a process that was not watched starting. `start_ts` is the
    /// watch's own start: that the process existed then is all that is
    /// claimed.
    pub fn seed(&mut self, pid: i32, ppid: Option<i32>, info: ProcInfo, start_ts: &str)
        ensures
            final(self)@ == old(self)@.insert(pid, new_node(ppid, info@, start_ts@)),
    {
        self.put(
            pid,
            ProcNode {
                ppid,
                start_ts: start_ts.to_string(),
                info,
                exited: None,
                persisted: false,
            },
        );
    }

    /// Notes a fork. Whatever the child's pid stood for before is gone.
    pub fn on_fork(&mut self, parent: i32, child: i32, ts: &str)
        ensures
            final(self)@ == old(self)@.insert(
                child,
                new_node(Some(parent), unknown_info(), ts@),
            ),
    {
        self.put(
            child,
            ProcNode {
                ppid: Some(parent),
                start_ts: ts.to_string(),
                info: ProcInfo::default(),
                exited: None,
                persisted: false,
            },
        );
    }

    /// Notes an exec. It replaces the image of a process, not the process, so
    /// the parent and the start that the fork recorded stay.
    pub fn on_exec(&mut self, pid: i32, info: ProcInfo, ppid_if_new: Option<i32>, ts: &str)
        ensures
            final(self)@ == old(self)@.insert(
                pid,
                if old(self)@.contains_key(pid) {
                    NodeModel { info: info@, ..old(self)@[pid] }
                } else {
                    new_node(ppid_if_new, info@, ts@)
                },
            ),
            final(self)@.dom().len() == old(self)@.dom().len() + if old(self)@.contains_key(pid) {
                0int
            } else {
                1int
            },
    {
        let ghost before = self@;
        proof {
            a_tree_is_finite(self);
            if before.contains_key(pid) {
                assert(before.dom().insert(pid) =~= before.dom());
            }
        }
        match self.procs.remove(&pid) {
            Some(node) => {
                let mut node = node;
                node.info = info;
                self.procs.insert(pid, node);
                assert(self@ =~= before.insert(pid, node@));
            },
            None => {
                assert(self@ =~= before);
                self.put(
                    pid,
                    ProcNode {
                        ppid: ppid_if_new,
                        start_ts: ts.to_string(),
                        info,
                        exited: None,
                        persisted: false,
                    },
                );
            },
        }
    }

    /// Notes an exit. Gives the start of a process that is stored already, so
    /// that its exit can be stored too.
    pub fn on_exit(&mut self, pid: i32, ts: &str) -> (r: Option<String>)
        ensures
            final(self)@ == if old(self)@.contains_key(pid) {
                old(self)@.insert(pid, NodeModel { exited: Some(ts@), ..old(self)@[pid] })
            } else {
                old(self)@
            },
            opt_text(r) == if old(self)@.contains_key(pid) && old(self)@[pid].persisted {
                Some(old(self)@[pid].start_ts)
            } else {
                None
            },
    {
        let ghost before = self@;
        match self.procs.remove(&pid) {
            Some(node) => {
                let mut node = node;
                node.exited = Some(ts.to_string());
                let stored = if node.persisted {
                    Some(node.start_ts.clone())
                } else {
                    None
                };
                self.procs.insert(pid, node);
                assert(self@ =~= before.insert(pid, node@));
                stored
            },
            None => {
                assert(self@ =~= before);
                None
            },
        }
    }

    /// The chain to store before events of `pid` can be attributed, root
    /// first, so that parents exist before the children that refer to them.
    /// It stops at the first ancestor that is stored already.
    pub fn unpersisted_chain(&self, pid: i32) -> (r: Vec<(i32, ProcNode)>)
        ensures
            chain_models(r@) == chain_of(self@, pid),
    {
        let mut chain: Vec<(i32, ProcNode)> = Vec::new();
        let mut cur: i32 = pid;
        let mut left: usize = MAX_CHAIN;
        let mut more = true;
        let ghost all = climb(self@, pid, MAX_CHAIN as nat);
        assert(chain_models(chain@).reverse() + climb(self@, cur, left as nat) =~= all);
        while more && left > 0
            invariant
                left <= MAX_CHAIN,
                chain_models(chain@).reverse() + (if more {
                    climb(self@, cur, left as nat)
                } else {
                    Seq::empty()
                }) == all,
            decreases left, (if more { 1int } else { 0int }),
        {
            let ghost before = chain@;
            match self.procs.get(&cur) {
                Some(node) => {
                    if node.persisted {
                        more = false;
                    } else {
                        let copy = copy_node(node);
                        chain.insert(0, (cur, copy));
                        left -= 1;
                        proof {
                            assert(chain_models(chain@) =~= chain_models(before).insert(
                                0,
                                (cur, copy@),
                            ));
                            assert(chain_models(chain@).reverse() =~= chain_models(before).reverse().push(
                                (cur, copy@),
                            ));
                        }
                        match node.ppid {
                            Some(p) => {
                                if p != cur {
                                    cur = p;
                                } else {
                                    more = false;
                                }
                            },
                            None => {
                                more = false;
                            },
                        }
                        assert(chain_models(chain@).reverse() + (if more {
                            climb(self@, cur, left as nat)
                        } else {
                            Seq::empty()
                        }) =~= all);
                    }
                },
                None => {
                    more = false;
                },
            }
        }
        assert(chain_models(chain@).reverse() =~= all);
        assert(chain_models(chain@) =~= all.reverse());
        chain
    }

    /// Notes that a process is stored.
    pub fn mark_persisted(&mut self, pid: i32)
        ensures
            final(self)@ == marked(old(self)@, pid),
    {
        let ghost before = self@;
        match self.procs.remove(&pid) {
            Some(node) => {
                let mut node = node;
                node.persisted = true;
                self.procs.insert(pid, node);
                assert(self@ =~= before.insert(pid, node@));
            },
            None => {
                assert(self@ =~= before);
            },
        }
    }

    /// Forgets the processes that exited before the cutoff, and says how many
    /// went. Stored ones are safe to forget: a later descendant still refers
    /// to them by their stored pid.
    pub fn evict_stale(&mut self, cutoff_ts: &str) -> (r: usize)
        ensures
            final(self)@ == evicted(old(self)@, cutoff_ts@),
            r == old(self)@.dom().len() - final(self)@.dom().len(),
    {
        let ghost before = self@;
        let mut stale: Vec<i32> = Vec::new();
        let count = self.procs.len();
        assert(self@.dom() =~= self.procs@.dom());
        for entry in it: self.procs.iter()
            invariant
                *self == *old(self),
                before == self@,
                forall|k: int|
                    0 <= k < stale@.len() ==> before.contains_key(#[trigger] stale@[k]) && is_stale(
                        before[stale@[k]],
                        cutoff_ts@,
                    ),
                forall|i: int|
                    0 <= i < it.index() && is_stale((#[trigger] it.seq()[i]).1@, cutoff_ts@)
                        ==> stale@.contains(*it.seq()[i].0),
                forall|i: int|
                    0 <= i < it.seq().len() ==> self.procs@.contains_key(*(#[trigger] it.seq()[i]).0)
                        && self.procs@[*it.seq()[i].0] == *it.seq()[i].1,
                forall|k: i32| #[trigger]
                    self.procs@.contains_key(k) ==> it.seq().contains((&k, &self.procs@[k])),
        {
            let (pid, node) = entry;
            let ghost i0 = it.index();
            let ghost had = stale@;
            let gone = match &node.exited {
                Some(e) => text_lt(e.as_str(), cutoff_ts),
                None => false,
            };
            if gone {
                stale.push(*pid);
                assert(stale@[had.len() as int] == *pid);
            }
            assert forall|i: int|
                0 <= i < i0 + 1 && is_stale((#[trigger] it.seq()[i]).1@, cutoff_ts@) implies stale@.contains(
                *it.seq()[i].0,
            ) by {
                if i < i0 {
                    assert(had.contains(*it.seq()[i].0));
                    let k = choose|k: int| 0 <= k < had.len() && had[k] == *it.seq()[i].0;
                    assert(stale@[k] == *it.seq()[i].0);
                }
            }
        }
        assert forall|pid: i32|
            before.contains_key(pid) && is_stale(before[pid], cutoff_ts@) implies stale@.contains(
            pid,
        ) by {
            assert(self.procs@.contains_key(pid));
        }
        let mut k: usize = 0;
        while k < stale.len()
            invariant
                k <= stale@.len(),
                forall|pid: i32|
                    #![trigger self@.contains_key(pid)]
                    self@.contains_key(pid) <==> before.contains_key(pid) && !stale@.take(
                        k as int,
                    ).contains(pid),
                forall|pid: i32| #[trigger] self@.contains_key(pid) ==> self@[pid] == before[pid],
            decreases stale@.len() - k,
        {
            let ghost mid = self@;
            let pid = stale[k];
            self.procs.remove(&pid);
            proof {
                assert(self@ =~= mid.remove(pid));
                let t0 = stale@.take(k as int);
                let t1 = stale@.take(k + 1);
                assert(t1 =~= t0.push(pid));
                assert forall|q: i32| #[trigger] t1.contains(q) <==> t0.contains(q) || q == pid by {
                    if t0.contains(q) {
                        let i = choose|i: int| 0 <= i < t0.len() && t0[i] == q;
                        assert(t1[i] == q);
                    }
                    assert(t1[k as int] == pid);
                }
            }
            k += 1;
        }
        proof {
            assert(stale@.take(stale@.len() as int) =~= stale@);
            assert(self@ =~= evicted(before, cutoff_ts@));
            assert(self@.dom() =~= self.procs@.dom());
            vstd::set_lib::lemma_len_subset(self@.dom(), before.dom());
        }
        count - self.procs.len()
    }
}

/// A tree knows finitely many processes.
pub proof fn a_tree_is_finite(t: &ProcTree)
    ensures
        t@.dom().finite(),
{
    assert(t@.dom() =~= t.procs@.dom());
}

// ---------------------------------------------------------------------
// Laws
// ---------------------------------------------------------------------
/// Where a process is stored, so is its parent, if that is known.
pub open spec fn stored_with_parents(tree: Map<i32, NodeModel>) -> bool {
    forall|pid: i32| #[trigger]
        tree.contains_key(pid) && tree[pid].persisted ==> match tree[pid].ppid {
            Some(p) => tree.contains_key(p) ==> tree[p].persisted,
            None => true,
        }
}

/// The tree with every process of a chain marked as stored.
pub open spec fn all_marked(tree: Map<i32, NodeModel>, chain: Seq<(i32, NodeModel)>) -> Map<
    i32,
    NodeModel,
>
    decreases chain.len(),
{
    if chain.len() == 0 {
        tree
    } else {
        marked(all_marked(tree, chain.drop_last()), chain.last().0)
    }
}

/// Marking a chain stores its members and nothing else.
pub proof fn marking_stores_the_chain(
    tree: Map<i32, NodeModel>,
    chain: Seq<(i32, NodeModel)>,
    pid: i32,
)
    ensures
        all_marked(tree, chain).dom() == tree.dom(),
        tree.contains_key(pid) ==> all_marked(tree, chain)[pid] == (NodeModel {
            persisted: tree[pid].persisted || is_member(chain, pid),
            ..tree[pid]
        }),
    decreases chain.len(),
{
    if chain.len() > 0 {
        let front = chain.drop_last();
        marking_stores_the_chain(tree, front, pid);
        assert(all_marked(tree, chain).dom() =~= tree.dom());
        assert(is_member(chain, pid) <==> is_member(front, pid) || chain.last().0 == pid) by {
            if is_member(front, pid) {
                let i = choose|i: int| 0 <= i < front.len() && (#[trigger] front[i]).0 == pid;
                assert(chain[i].0 == pid);
            }
            if is_member(chain, pid) {
                let i = choose|i: int| 0 <= i < chain.len() && (#[trigger] chain[i]).0 == pid;
                if i < front.len() {
                    assert(front[i].0 == pid);
                }
            }
            assert(chain[chain.len() - 1] == chain.last());
        }
    }
}

/// Is `pid` in the chain?
pub open spec fn is_member(chain: Seq<(i32, NodeModel)>, pid: i32) -> bool {
    exists|i: int| 0 <= i < chain.len() && (#[trigger] chain[i]).0 == pid
}

/// What a climb visits: known processes that are not stored, each the parent
/// of the one before. A climb that the bound did not cut off ends where there
/// is no further parent to store.
proof fn lemma_climb(tree: Map<i32, NodeModel>, pid: i32, steps: nat)
    ensures
        ({
            let c = climb(tree, pid, steps);
            &&& c.len() <= steps
            &&& c.len() > 0 ==> c[0].0 == pid
            &&& c.len() == 0 && steps > 0 ==> !tree.contains_key(pid) || tree[pid].persisted
            &&& forall|i: int|
                0 <= i < c.len() ==> tree.contains_key((#[trigger] c[i]).0) && c[i].1
                    == tree[c[i].0] && !c[i].1.persisted
            &&& forall|i: int|
                #![trigger c[i]]
                0 < i < c.len() ==> c[i - 1].1.ppid == Some(c[i].0)
            &&& 0 < c.len() < steps ==> match c.last().1.ppid {
                Some(p) => p == c.last().0 || !tree.contains_key(p) || tree[p].persisted,
                None => true,
            }
        }),
    decreases steps,
{
    let c = climb(tree, pid, steps);
    if c.len() > 0 {
        match tree[pid].ppid {
            Some(p) => {
                if p != pid {
                    let rest = climb(tree, p, (steps - 1) as nat);
                    lemma_climb(tree, p, (steps - 1) as nat);
                    assert(c =~= seq![(pid, tree[pid])] + rest);
                    assert forall|i: int| 0 <= i < c.len() implies tree.contains_key(
                        (#[trigger] c[i]).0,
                    ) && c[i].1 == tree[c[i].0] && !c[i].1.persisted by {
                        if i > 0 {
                            assert(c[i] == rest[i - 1]);
                        }
                    }
                    assert forall|i: int|
                        #![trigger c[i]]
                        0 < i < c.len() implies c[i - 1].1.ppid == Some(c[i].0) by {
                        assert(c[i] == rest[i - 1]);
                        if i > 1 {
                            assert(c[i - 1] == rest[i - 2]);
                        }
                    }
                    if rest.len() > 0 {
                        assert(c.last() == rest.last());
                    }
                }
            },
            None => {},
        }
    }
}

/// A chain lists processes that are known and not stored, root first, each
/// the parent of the next, and ends with the process asked for. It is empty
/// only where that is unknown or stored.
pub proof fn a_chain_is_root_first(tree: Map<i32, NodeModel>, pid: i32)
    ensures
        ({
            let c = chain_of(tree, pid);
            &&& c.len() <= MAX_CHAIN
            &&& c.len() == 0 <==> !tree.contains_key(pid) || tree[pid].persisted
            &&& c.len() > 0 ==> c.last() == (pid, tree[pid])
            &&& forall|i: int|
                0 <= i < c.len() ==> tree.contains_key((#[trigger] c[i]).0) && c[i].1
                    == tree[c[i].0] && !c[i].1.persisted
            &&& forall|i: int|
                #![trigger c[i]]
                0 < i < c.len() ==> c[i].1.ppid == Some(c[i - 1].0)
        }),
{
    let up = climb(tree, pid, MAX_CHAIN as nat);
    let c = chain_of(tree, pid);
    lemma_climb(tree, pid, MAX_CHAIN as nat);
    assert forall|i: int| 0 <= i < c.len() implies tree.contains_key((#[trigger] c[i]).0) && c[i].1
        == tree[c[i].0] && !c[i].1.persisted by {
        assert(c[i] == up[up.len() - 1 - i]);
    }
    assert forall|i: int|
        #![trigger c[i]]
        0 < i < c.len() implies c[i].1.ppid == Some(c[i - 1].0) by {
        assert(c[i] == up[up.len() - 1 - i]);
        assert(c[i - 1] == up[up.len() - i]);
        assert(up[up.len() - i - 1].1.ppid == Some(up[up.len() - i].0));
    }
    if c.len() > 0 {
        assert(c.last() == up[0]);
    }
}

/// Does the chain reach as far as there is something to store: has its root
/// no parent that is known, not stored, and not in the chain itself?
pub open spec fn is_whole(tree: Map<i32, NodeModel>, chain: Seq<(i32, NodeModel)>) -> bool {
    chain.len() > 0 ==> match chain[0].1.ppid {
        Some(p) => !tree.contains_key(p) || tree[p].persisted || is_member(chain, p),
        None => true,
    }
}

/// A chain that is shorter than the bound is whole.
pub proof fn a_short_chain_is_whole(tree: Map<i32, NodeModel>, pid: i32)
    requires
        chain_of(tree, pid).len() < MAX_CHAIN,
    ensures
        is_whole(tree, chain_of(tree, pid)),
{
    let up = climb(tree, pid, MAX_CHAIN as nat);
    let c = chain_of(tree, pid);
    lemma_climb(tree, pid, MAX_CHAIN as nat);
    if c.len() > 0 {
        assert(c[0] == up.last());
        assert(is_member(c, c[0].0));
    }
}

/// Storing the whole chain of a process keeps the invariant: where a process
/// is stored, so is its parent. It also stores the process, if that is known.
pub proof fn storing_a_chain_keeps_parents_stored(tree: Map<i32, NodeModel>, pid: i32)
    requires
        stored_with_parents(tree),
        is_whole(tree, chain_of(tree, pid)),
    ensures
        stored_with_parents(all_marked(tree, chain_of(tree, pid))),
        tree.contains_key(pid) ==> all_marked(tree, chain_of(tree, pid))[pid].persisted,
{
    let c = chain_of(tree, pid);
    let after = all_marked(tree, c);
    a_chain_is_root_first(tree, pid);
    marking_stores_the_chain(tree, c, pid);
    assert forall|q: i32| #[trigger] after.contains_key(q) && after[q].persisted implies match after[q].ppid {
        Some(p) => after.contains_key(p) ==> after[p].persisted,
        None => true,
    } by {
        marking_stores_the_chain(tree, c, q);
        assert(tree.contains_key(q));
        match tree[q].ppid {
            Some(p) => {
                marking_stores_the_chain(tree, c, p);
                if tree.contains_key(p) && !tree[q].persisted {
                    let i = choose|i: int| 0 <= i < c.len() && (#[trigger] c[i]).0 == q;
                    if i > 0 {
                        assert(c[i].1.ppid == Some(c[i - 1].0));
                        assert(is_member(c, p));
                    }
                }
            },
            None => {},
        }
    }
    if tree.contains_key(pid) && !tree[pid].persisted {
        assert(c[c.len() - 1].0 == pid);
        assert(is_member(c, pid));
    }
}

/// News of a known process, an exec or an exit, keeps the invariant: neither
/// changes its parent, nor whether it is stored.
pub proof fn news_keeps_parents_stored(tree: Map<i32, NodeModel>, pid: i32, node: NodeModel)
    requires
        stored_with_parents(tree),
        tree.contains_key(pid),
        node.ppid == tree[pid].ppid,
        node.persisted == tree[pid].persisted,
    ensures
        stored_with_parents(tree.insert(pid, node)),
{
    let after = tree.insert(pid, node);
    assert forall|q: i32| #[trigger] after.contains_key(q) && after[q].persisted implies match after[q].ppid {
        Some(p) => after.contains_key(p) ==> after[p].persisted,
        None => true,
    } by {
        assert(tree.contains_key(q));
    }
}

/// Noting a new process keeps the invariant, unless a stored process names
/// the pid as its parent: then the pid has been recycled.
pub proof fn a_new_process_keeps_parents_stored(
    tree: Map<i32, NodeModel>,
    pid: i32,
    node: NodeModel,
)
    requires
        stored_with_parents(tree),
        !node.persisted,
        forall|q: i32| #[trigger]
            tree.contains_key(q) && tree[q].persisted && q != pid ==> tree[q].ppid != Some(pid),
    ensures
        stored_with_parents(tree.insert(pid, node)),
{
    let after = tree.insert(pid, node);
    assert forall|q: i32| #[trigger] after.contains_key(q) && after[q].persisted implies match after[q].ppid {
        Some(p) => after.contains_key(p) ==> after[p].persisted,
        None => true,
    } by {
        assert(tree.contains_key(q));
    }
}

/// Forgetting exited processes keeps the invariant.
pub proof fn eviction_keeps_parents_stored(tree: Map<i32, NodeModel>, cutoff_ts: Seq<char>)
    requires
        stored_with_parents(tree),
    ensures
        stored_with_parents(evicted(tree, cutoff_ts)),
{
    let after = evicted(tree, cutoff_ts);
    assert forall|q: i32| #[trigger] after.contains_key(q) && after[q].persisted implies match after[q].ppid {
        Some(p) => after.contains_key(p) ==> after[p].persisted,
        None => true,
    } by {
        assert(tree.contains_key(q));
    }
}

/// A process that has not exited is never forgotten, nor one that exited at
/// the cutoff or after it.
pub proof fn eviction_spares_the_living(tree: Map<i32, NodeModel>, cutoff_ts: Seq<char>, pid: i32)
    requires
        tree.contains_key(pid),
    ensures
        evicted(tree, cutoff_ts).contains_key(pid) <==> match tree[pid].exited {
            Some(e) => lex_le(cutoff_ts, e),
            None => true,
        },
        evicted(tree, cutoff_ts).contains_key(pid) ==> evicted(tree, cutoff_ts)[pid] == tree[pid],
{
    match tree[pid].exited {
        Some(e) => {
            lex_total(e, cutoff_ts);
        },
        None => {},
    }
}

} // verus!
