use vstd::prelude::*;
use vstd::std_specs::hash::*;

use std::collections::HashMap;

use crate::process::{cleaned_cmdline, ProcessData};
use crate::tree::{self, NodeId, NodeModel, Tree};

verus! {

broadcast use group_hash_axioms;

pub type ProcessTree = Tree<ProcessData>;

/// The signal that stopped a tracee, as far as the tracer tells them apart.
#[derive(Debug, Clone, Copy, PartialEq, Eq, Structural)]
pub enum StopSignal {
    /// The trap a tracee takes when it starts running the traced program.
    Trap,
    /// The stop a new tracee takes once the tracer is attached.
    Stop,
    /// Any other signal, by number; it is handed back to the tracee.
    Other(i32),
}

/// A process-lifecycle event reported with a stop.
#[derive(Debug, Clone, Copy, PartialEq, Eq, Structural)]
pub enum PtraceEvent {
    Fork,
    Vfork,
    Clone,
    Exec,
    VforkDone,
    Exit,
    Seccomp,
}

/// The code by which the kernel reports an event.
pub open spec fn event_code(e: PtraceEvent) -> i32 {
    match e {
        PtraceEvent::Fork => 1,
        PtraceEvent::Vfork => 2,
        PtraceEvent::Clone => 3,
        PtraceEvent::Exec => 4,
        PtraceEvent::VforkDone => 5,
        PtraceEvent::Exit => 6,
        PtraceEvent::Seccomp => 7,
    }
}

/// The event that a kernel event code names.
pub fn int_to_ptrace_event(i: i32) -> (r: PtraceEvent)
    requires
        1 <= i <= 7,
    ensures
        event_code(r) == i,
{
    if i == 1 {
        PtraceEvent::Fork
    } else if i == 2 {
        PtraceEvent::Vfork
    } else if i == 3 {
        PtraceEvent::Clone
    } else if i == 4 {
        PtraceEvent::Exec
    } else if i == 5 {
        PtraceEvent::VforkDone
    } else if i == 6 {
        PtraceEvent::Exit
    } else {
        PtraceEvent::Seccomp
    }
}

/// What waiting for a traced process reported.
#[derive(Debug, Clone, Copy, PartialEq, Eq, Structural)]
pub enum Wakeup {
    /// The process exited.
    Exited { pid: i32 },
    /// The process was killed by a signal.
    Signaled { pid: i32 },
    /// The process stopped on a signal.
    Stopped { pid: i32, signal: StopSignal },
    /// The process stopped to report an event, with the event's message
    /// (for a fork, vfork or clone: the new process's id).
    PtraceEvent { pid: i32, event: i32, message: i64 },
    /// The process stopped at a system call.
    PtraceSyscall { pid: i32 },
}

/// How a stopped process is resumed.
#[derive(Debug, Clone, Copy, PartialEq, Eq, Structural)]
pub enum Resume {
    /// With no signal.
    Plain,
    /// Handing it back the signal it stopped on.
    WithSignal(i32),
}

/// What the tracer does, in this order, for the process that woke up.
#[derive(Debug, Clone, Copy, PartialEq, Eq, Structural)]
pub struct Reaction {
    /// Set the trace options on it.
    pub set_options: bool,
    /// Read its command line afresh.
    pub read_cmdline: bool,
    /// Resume it, or leave it as it is.
    pub resume: Option<Resume>,
}

/// A notification that the tracer cannot act on.
#[derive(Debug, Clone, Copy, PartialEq, Eq, Structural)]
pub enum TraceError {
    /// A process that the tracer has no record of reported a stop that only
    /// known processes report.
    UnknownPid(i32),
    /// An event code outside the known set.
    InvalidEvent(i32),
    /// A process was reported as the child of a second parent, or the root
    /// as somebody's child.
    AlreadyLinked(i32),
    /// The tree holds as many nodes as it can index.
    TreeFull,
}

pub open spec fn reaction(set_options: bool, read_cmdline: bool, resume: Option<Resume>) -> Reaction {
    Reaction { set_options, read_cmdline, resume }
}

/// The pid→node table and the tree agree: each entry names a node that
/// records that pid, and each node is the entry of its own pid. So there is
/// exactly one node per pid seen, and no two pids share a node.
pub open spec fn maps_agree(t: Seq<NodeModel<ProcessData>>, m: Map<i32, NodeId>) -> bool {
    &&& forall|pid: i32| #[trigger] m.contains_key(pid) ==> m[pid] < t.len() && t[m[pid] as int].data.spec_pid() == pid
    &&& forall|n: int| 0 <= n < t.len() ==> m.contains_key(#[trigger] t[n].data.spec_pid()) && m[t[n].data.spec_pid()] == n
}

/// When the table and the tree agree, no two nodes record the same pid, and
/// every pid in the table has its node.
pub proof fn lemma_one_node_per_pid(t: Seq<NodeModel<ProcessData>>, m: Map<i32, NodeId>)
    requires
        maps_agree(t, m),
    ensures
        forall|a: int, b: int|
            0 <= a < t.len() && 0 <= b < t.len() && a != b ==> #[trigger] t[a].data.spec_pid() != #[trigger] t[b].data.spec_pid(),
        forall|pid: i32| #[trigger] m.contains_key(pid) ==> exists|n: int| 0 <= n < t.len() && t[n].data.spec_pid() == pid,
{
    assert forall|pid: i32| #[trigger] m.contains_key(pid) implies exists|n: int| 0 <= n < t.len() && t[n].data.spec_pid() == pid by {
        assert(t[m[pid] as int].data.spec_pid() == pid);
    }
}

/// A fork, vfork or clone event that is accepted leaves the new process
/// with a node of its own, linked under the node of the process that
/// reported the event.
pub proof fn lemma_fork_links_child(
    t: Seq<NodeModel<ProcessData>>,
    m: Map<i32, NodeId>,
    pid: i32,
    event: i32,
    message: i64,
    r: Result<Reaction, TraceError>,
    t2: Seq<NodeModel<ProcessData>>,
    m2: Map<i32, NodeId>,
)
    requires
        tree::tree_wf(t),
        t.len() <= usize::MAX,
        maps_agree(t, m),
        wakeup_step(t, m, Wakeup::PtraceEvent { pid, event, message }, r, t2, m2),
        r is Ok,
        1 <= event <= 3,
    ensures
        m2.contains_key(message as i32),
        m2.contains_key(pid),
        m2[pid] == m[pid],
        m2[message as i32] < t2.len(),
        t2[m2[message as i32] as int].parent == Some(m2[pid]),
        t2[m2[pid] as int].children.contains(m2[message as i32]),
{
    let child = message as i32;
    let p = m[pid];
    if !m.contains_key(child) {
        assert(child != pid);
        assert(t2[p as int].children.last() == t.len() as NodeId);
    } else {
        let c = m[child];
        let mid = t.update(c as int, NodeModel { parent: Some(p), ..t[c as int] });
        assert(t2[p as int].children == mid[p as int].children.push(c));
        assert(t2[p as int].children.last() == c);
        if c != p {
            assert(t2[c as int] == mid[c as int]);
        }
    }
}

/// Builds the tree of processes that a traced program spawns, one
/// notification at a time.
#[derive(Debug)]
pub struct Race {
    pt: ProcessTree,
    pid_map: HashMap<i32, NodeId>,
}

impl Race {
    pub closed spec fn spec_tree(&self) -> Seq<NodeModel<ProcessData>> {
        self.pt@
    }

    pub closed spec fn spec_map(&self) -> Map<i32, NodeId> {
        self.pid_map@
    }

    pub open spec fn wf(&self) -> bool {
        &&& tree::tree_wf(self.spec_tree())
        &&& maps_agree(self.spec_tree(), self.spec_map())
    }

    /// A tracer of the process `pid`, which becomes the root.
    pub fn new(pid: i32) -> (r: Race)
        ensures
            r.wf(),
            r.spec_tree().len() == 1,
            r.spec_tree()[0].data.spec_pid() == pid,
            r.spec_tree()[0].data.spec_cmdline() == "UNKNOWN"@,
            r.spec_map() == map![pid => 0usize],
    {
        let root = ProcessData::new(pid);
        let mut race = Race { pt: Tree::new(root), pid_map: HashMap::new() };
        race.pid_map.insert(pid, 0);
        assert(race.spec_map() =~= map![pid => 0usize]);
        race
    }

    pub fn tree(&self) -> (r: &ProcessTree)
        ensures
            r@ == self.spec_tree(),
    {
        &self.pt
    }

    pub fn into_tree(self) -> (r: ProcessTree)
        ensures
            r@ == self.spec_tree(),
    {
        self.pt
    }

    /// The node that records `pid`, if any.
    pub fn node_of(&self, pid: i32) -> (r: Option<NodeId>)
        ensures
            r == (if self.spec_map().contains_key(pid) {
                Some(self.spec_map()[pid])
            } else {
                None
            }),
    {
        match self.pid_map.get(&pid) {
            Some(id) => Some(*id),
            None => None,
        }
    }

    /// Records `pid` in a new node under `parent`, or as an orphan.
    fn add_process(&mut self, pid: i32, parent: Option<NodeId>) -> (r: Result<NodeId, TraceError>)
        requires
            old(self).wf(),
            !old(self).spec_map().contains_key(pid),
            parent matches Some(p) ==> p < old(self).spec_tree().len(),
        ensures
            final(self).wf(),
            match r {
                Ok(id) => {
                    &&& id == old(self).spec_tree().len()
                    &&& old(self).spec_tree().len() < usize::MAX
                    &&& appended(old(self).spec_tree(), final(self).spec_tree(), pid, parent)
                    &&& final(self).spec_map() == old(self).spec_map().insert(pid, id)
                },
                Err(e) => e == TraceError::TreeFull && old(self).spec_tree().len() == usize::MAX
                    && *final(self) == *old(self),
            },
    {
        if self.pt.num_nodes() == usize::MAX {
            return Err(TraceError::TreeFull);
        }
        let ghost t0 = self.pt@;
        let id = self.pt.insert(ProcessData::new(pid), parent);
        self.pid_map.insert(pid, id);
        proof {
            let t = self.pt@;
            let m = self.pid_map@;
            assert forall|q: i32| #[trigger] m.contains_key(q) implies m[q] < t.len() && t[m[q] as int].data.spec_pid() == q by {
                if q != pid {
                    assert(t[m[q] as int].data == t0[m[q] as int].data);
                }
            }
            assert forall|n: int| 0 <= n < t.len() implies m.contains_key(#[trigger] t[n].data.spec_pid()) && m[t[n].data.spec_pid()] == n by {
                if n < t0.len() {
                    assert(t[n].data == t0[n].data);
                    assert(t0[n].data.spec_pid() != pid);
                }
            }
        }
        Ok(id)
    }

    /// Decides what a wakeup means for the tree and what the tracer does
    /// next with the process that woke up.
    pub fn handle_wakeup(&mut self, w: Wakeup) -> (r: Result<Reaction, TraceError>)
        requires
            old(self).wf(),
        ensures
            final(self).wf(),
            wakeup_step(old(self).spec_tree(), old(self).spec_map(), w, r, final(self).spec_tree(), final(self).spec_map()),
    {
        match w {
            Wakeup::Exited { pid } => Ok(Reaction { set_options: false, read_cmdline: false, resume: None }),
            Wakeup::Signaled { pid } => Ok(Reaction { set_options: false, read_cmdline: false, resume: None }),
            Wakeup::Stopped { pid, signal } => match signal {
                StopSignal::Trap => {
                    if self.node_of(pid).is_none() {
                        return Err(TraceError::UnknownPid(pid));
                    }
                    Ok(Reaction { set_options: true, read_cmdline: true, resume: Some(Resume::Plain) })
                },
                StopSignal::Stop => {
                    if self.node_of(pid).is_none() {
                        match self.add_process(pid, None) {
                            Ok(_) => {},
                            Err(e) => {
                                return Err(e);
                            },
                        }
                    }
                    Ok(Reaction { set_options: true, read_cmdline: true, resume: Some(Resume::Plain) })
                },
                StopSignal::Other(sig) => Ok(
                    Reaction { set_options: false, read_cmdline: false, resume: Some(Resume::WithSignal(sig)) },
                ),
            },
            Wakeup::PtraceEvent { pid, event, message } => self.handle_ptrace_event(pid, event, message),
            Wakeup::PtraceSyscall { pid } => Ok(
                Reaction { set_options: false, read_cmdline: false, resume: Some(Resume::Plain) },
            ),
        }
    }

    /// Handles a process-lifecycle event that `pid` reported.
    fn handle_ptrace_event(&mut self, pid: i32, event: i32, message: i64) -> (r: Result<Reaction, TraceError>)
        requires
            old(self).wf(),
        ensures
            final(self).wf(),
            wakeup_step(old(self).spec_tree(), old(self).spec_map(), Wakeup::PtraceEvent { pid, event, message }, r, final(self).spec_tree(), final(self).spec_map()),
    {
        if event < 1 || event > 7 {
            return Err(TraceError::InvalidEvent(event));
        }
        let parent = match self.node_of(pid) {
            None => {
                return Err(TraceError::UnknownPid(pid));
            },
            Some(id) => id,
        };
        let ev = int_to_ptrace_event(event);
        match ev {
            PtraceEvent::Fork | PtraceEvent::Vfork | PtraceEvent::Clone => {
                #[verifier::truncate]
                let child_pid = message as i32;
                match self.node_of(child_pid) {
                    None => {
                        match self.add_process(child_pid, Some(parent)) {
                            Ok(_) => {
                            },
                            Err(e) => {
                                return Err(e);
                            },
                        }
                    },
                    Some(child) => {
                        if child == 0 || self.pt.get(child).parent().is_some() {
                            return Err(TraceError::AlreadyLinked(child_pid));
                        }
                        let ghost t0 = self.pt@;
                        self.pt.set_parent(child, parent);
                        proof {
                            let t = self.pt@;
                            assert forall|n: int| 0 <= n < t.len() implies #[trigger] t[n].data == t0[n].data by {}
                            assert forall|q: i32| #[trigger] self.pid_map@.contains_key(q) implies self.pid_map@[q] < t.len() && t[self.pid_map@[q] as int].data.spec_pid() == q by {
                                assert(t[self.pid_map@[q] as int].data == t0[self.pid_map@[q] as int].data);
                            }
                            assert forall|n: int| 0 <= n < t.len() implies self.pid_map@.contains_key(#[trigger] t[n].data.spec_pid()) && self.pid_map@[t[n].data.spec_pid()] == n by {
                                assert(t[n].data == t0[n].data);
                            }
                        }
                    },
                }
                Ok(Reaction { set_options: false, read_cmdline: false, resume: Some(Resume::Plain) })
            },
            PtraceEvent::Exec => Ok(
                Reaction { set_options: false, read_cmdline: true, resume: Some(Resume::Plain) },
            ),
            _ => Ok(Reaction { set_options: false, read_cmdline: false, resume: Some(Resume::Plain) }),
        }
    }

    /// Records the command line that was read for `pid`, from the raw text
    /// the process exposes. A failed read is simply never reported here, so
    /// the node keeps what it had.
    pub fn update_cmdline(&mut self, pid: i32, raw: &str) -> (r: Result<(), TraceError>)
        requires
            old(self).wf(),
        ensures
            final(self).wf(),
            old(self).spec_map().contains_key(pid) ==> {
                let id = old(self).spec_map()[pid] as int;
                &&& r is Ok
                &&& final(self).spec_map() == old(self).spec_map()
                &&& final(self).spec_tree().len() == old(self).spec_tree().len()
                &&& final(self).spec_tree()[id].data.spec_cmdline() == cleaned_cmdline(raw@)
                &&& final(self).spec_tree()[id].data.spec_pid() == pid
                &&& final(self).spec_tree()[id].parent == old(self).spec_tree()[id].parent
                &&& final(self).spec_tree()[id].children == old(self).spec_tree()[id].children
                &&& forall|n: int| 0 <= n < old(self).spec_tree().len() && n != id ==> #[trigger] final(self).spec_tree()[n] == old(self).spec_tree()[n]
            },
            !old(self).spec_map().contains_key(pid) ==> r == Err::<(), TraceError>(TraceError::UnknownPid(pid)) && *final(self) == *old(self),
    {
        let id = match self.node_of(pid) {
            None => {
                return Err(TraceError::UnknownPid(pid));
            },
            Some(id) => id,
        };
        let ghost t0 = self.pt@;
        self.pt.get_mut(id).data_mut().set_raw_cmdline(raw);
        proof {
            let t = self.pt@;
            assert(t.len() == t0.len());
            assert forall|n: int| 0 <= n < t.len() && n != id implies #[trigger] t[n] == t0[n] by {}
            assert(t[id as int].parent == t0[id as int].parent);
            assert(t[id as int].children == t0[id as int].children);
            assert(tree::tree_wf(t)) by {
                assert forall|i: int| 0 <= i < t.len() implies (#[trigger] t[i].parent matches Some(p) ==> p < t.len()) by {
                    assert(t[i].parent == t0[i].parent);
                }
                assert forall|i: int, j: int| 0 <= i < t.len() && 0 <= j < t[i].children.len() implies tree::is_parent(t, i, #[trigger] t[i].children[j] as int) by {
                    assert(t[i].children == t0[i].children);
                    assert(tree::is_parent(t0, i, t0[i].children[j] as int));
                    assert(t[t0[i].children[j] as int].parent == t0[t0[i].children[j] as int].parent);
                }
                assert forall|c: int| 0 <= c < t.len() implies (#[trigger] t[c].parent matches Some(p) ==> t[p as int].children.contains(c as NodeId)) by {
                    assert(t[c].parent == t0[c].parent);
                    if let Some(p) = t0[c].parent {
                        assert(t[p as int].children == t0[p as int].children);
                    }
                }
                assert forall|i: int| 0 <= i < t.len() implies (#[trigger] t[i].children).no_duplicates() by {
                    assert(t[i].children == t0[i].children);
                }
            }
            assert forall|q: i32| #[trigger] self.pid_map@.contains_key(q) implies self.pid_map@[q] < t.len() && t[self.pid_map@[q] as int].data.spec_pid() == q by {
                if self.pid_map@[q] != id {
                    assert(t[self.pid_map@[q] as int] == t0[self.pid_map@[q] as int]);
                }
            }
            assert forall|n: int| 0 <= n < t.len() implies self.pid_map@.contains_key(#[trigger] t[n].data.spec_pid()) && self.pid_map@[t[n].data.spec_pid()] == n by {
                if n != id {
                    assert(t[n] == t0[n]);
                }
            }
        }
        Ok(())
    }
}

/// `t2` is `t` with a node for `pid`, whose command line is not known yet,
/// appended under `parent` (or as an orphan).
pub open spec fn appended(t: Seq<NodeModel<ProcessData>>, t2: Seq<NodeModel<ProcessData>>, pid: i32, parent: Option<NodeId>) -> bool {
    let id = t.len() as int;
    &&& t2.len() == t.len() + 1
    &&& t2[id].data.spec_pid() == pid
    &&& t2[id].data.spec_cmdline() == "UNKNOWN"@
    &&& t2[id].parent == parent
    &&& t2[id].children == Seq::<NodeId>::empty()
    &&& forall|i: int| 0 <= i < t.len() && Some(i as NodeId) != parent ==> #[trigger] t2[i] == t[i]
    &&& parent matches Some(p) ==> t2[p as int] == (NodeModel { children: t[p as int].children.push(id as NodeId), ..t[p as int] })
}

/// The effect of one wakeup on the tree `t` and the table `m`: the result
/// `r`, and the tree `t2` and table `m2` after it.
pub open spec fn wakeup_step(
    t: Seq<NodeModel<ProcessData>>,
    m: Map<i32, NodeId>,
    w: Wakeup,
    r: Result<Reaction, TraceError>,
    t2: Seq<NodeModel<ProcessData>>,
    m2: Map<i32, NodeId>,
) -> bool {
    let unchanged = t2 == t && m2 == m;
    let plain = Some(Resume::Plain);
    match w {
        Wakeup::Exited { pid } => unchanged && r == Ok::<Reaction, TraceError>(reaction(false, false, None)),
        Wakeup::Signaled { pid } => unchanged && r == Ok::<Reaction, TraceError>(reaction(false, false, None)),
        Wakeup::Stopped { pid, signal } => match signal {
            StopSignal::Trap => unchanged && if m.contains_key(pid) {
                r == Ok::<Reaction, TraceError>(reaction(true, true, plain))
            } else {
                r == Err::<Reaction, TraceError>(TraceError::UnknownPid(pid))
            },
            StopSignal::Stop => if m.contains_key(pid) {
                unchanged && r == Ok::<Reaction, TraceError>(reaction(true, true, plain))
            } else if t.len() == usize::MAX {
                unchanged && r == Err::<Reaction, TraceError>(TraceError::TreeFull)
            } else {
                &&& r == Ok::<Reaction, TraceError>(reaction(true, true, plain))
                &&& appended(t, t2, pid, None)
                &&& m2 == m.insert(pid, t.len() as NodeId)
            },
            StopSignal::Other(sig) => unchanged && r == Ok::<Reaction, TraceError>(
                reaction(false, false, Some(Resume::WithSignal(sig))),
            ),
        },
        Wakeup::PtraceEvent { pid, event, message } => if event < 1 || event > 7 {
            unchanged && r == Err::<Reaction, TraceError>(TraceError::InvalidEvent(event))
        } else if !m.contains_key(pid) {
            unchanged && r == Err::<Reaction, TraceError>(TraceError::UnknownPid(pid))
        } else if event == 1 || event == 2 || event == 3 {
            let child = message as i32;
            let parent = m[pid];
            if !m.contains_key(child) {
                if t.len() == usize::MAX {
                    unchanged && r == Err::<Reaction, TraceError>(TraceError::TreeFull)
                } else {
                    &&& r == Ok::<Reaction, TraceError>(reaction(false, false, plain))
                    &&& appended(t, t2, child, Some(parent))
                    &&& m2 == m.insert(child, t.len() as NodeId)
                }
            } else if m[child] == 0 || t[m[child] as int].parent is Some {
                unchanged && r == Err::<Reaction, TraceError>(TraceError::AlreadyLinked(child))
            } else {
                let c = m[child];
                let mid = t.update(c as int, NodeModel { parent: Some(parent), ..t[c as int] });
                &&& r == Ok::<Reaction, TraceError>(reaction(false, false, plain))
                &&& m2 == m
                &&& t2 == mid.update(parent as int, NodeModel { children: mid[parent as int].children.push(c), ..mid[parent as int] })
            }
        } else if event == 4 {
            unchanged && r == Ok::<Reaction, TraceError>(reaction(false, true, plain))
        } else {
            unchanged && r == Ok::<Reaction, TraceError>(reaction(false, false, plain))
        },
        Wakeup::PtraceSyscall { pid } => unchanged && r == Ok::<Reaction, TraceError>(reaction(false, false, plain)),
    }
}

} // verus!
