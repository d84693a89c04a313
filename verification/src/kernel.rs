use vstd::prelude::*;
use vstd::arithmetic::div_mod::lemma_div_multiples_vanish_fancy;
use crate::aspace::AddressSpace;
use crate::config::{BIG_STRIDE, DEFAULT_PRIORITY, MAX_SYSCALL_NUM, PAGE_SIZE};
use crate::frames::FrameAllocator;
use crate::phys_mem::PhysMem;
use crate::task::{build_user_aspace, AppImage, Task, TaskStatus};

verus! {

/// The whole machine state this subsystem governs: the task table, the
/// scheduler's ready set and running task, the frame pool, physical
/// memory, and the application images the loader supplied at boot.
///
/// The structure is held behind one exclusive-access gate by its owner;
/// a `&mut Kernel` stands for holding that gate, and no operation here
/// re-enters it.
pub struct Kernel {
    pub tasks: Vec<Task>,
    pub current: Option<usize>,
    pub ready: Vec<usize>,
    pub fa: FrameAllocator,
    pub mem: PhysMem,
    pub apps: Vec<AppImage>,
}

impl Kernel {
    pub open spec fn has_current(self) -> bool {
        self.current is Some
    }

    /// Index (and pid) of the running task.
    pub open spec fn cur(self) -> int {
        self.current->0 as int
    }

    /// Every task is well formed and sits at the slot its pid names.
    pub open spec fn tasks_ok(self) -> bool {
        &&& self.tasks@.len() >= 1
        &&& self.tasks@.len() <= crate::config::PID_LIMIT
        &&& forall|t: int|
            0 <= t < self.tasks@.len() ==> (#[trigger] self.tasks@[t]).wf() && self.tasks@[t].pid
                == t
    }

    /// Frame ownership: every frame a task maps is accounted as taken,
    /// and no frame backs pages of two different tasks.
    pub open spec fn frames_ok(self) -> bool {
        &&& self.fa.wf()
        &&& self.mem.wf()
        &&& forall|t: int|
            0 <= t < self.tasks@.len() ==> (#[trigger] self.tasks@[t]).aspace.frames_owned(self.fa)
        &&& forall|t1: int, t2: int, f: int|
            0 <= t1 < self.tasks@.len() && 0 <= t2 < self.tasks@.len() && t1 != t2 ==> !(
            (#[trigger] self.tasks@[t1].aspace.uses(f)) && (#[trigger] self.tasks@[
                t2
            ].aspace.uses(f)))
    }

    /// Child links are valid indices and no task is anyone's child twice,
    /// nor the child of two parents, so reaping is exactly-once.
    pub open spec fn children_ok(self) -> bool {
        &&& forall|t: int, k: int|
            0 <= t < self.tasks@.len() && 0 <= k < self.tasks@[t].children@.len()
                ==> (#[trigger] self.tasks@[t].children@[k]) < self.tasks@.len()
        &&& forall|t1: int, k1: int, t2: int, k2: int|
            0 <= t1 < self.tasks@.len() && 0 <= k1 < self.tasks@[t1].children@.len() && 0 <= t2
                < self.tasks@.len() && 0 <= k2 < self.tasks@[t2].children@.len() && (t1 != t2 || k1
                != k2) ==> (#[trigger] self.tasks@[t1].children@[k1]) != (#[trigger] self.tasks@[
                t2
            ].children@[k2])
    }

    /// The ready set holds exactly the Ready tasks, each once.
    pub open spec fn ready_ok(self) -> bool {
        &&& forall|k: int|
            0 <= k < self.ready@.len() ==> (#[trigger] self.ready@[k]) < self.tasks@.len()
                && self.tasks@[self.ready@[k] as int].status is Ready
        &&& forall|k: int, l: int|
            0 <= k < l < self.ready@.len() ==> self.ready@[k] != self.ready@[l]
        &&& forall|t: int|
            0 <= t < self.tasks@.len() && (#[trigger] self.tasks@[t].status) is Ready
                ==> self.ready@.contains(t as usize)
    }

    /// At most one task runs on the single core, and `current` points at
    /// it.
    pub open spec fn running_ok(self) -> bool {
        &&& self.current matches Some(c) ==> (c as int) < self.tasks@.len() && self.tasks@[
            c as int
        ].status is Running
        &&& forall|t: int|
            0 <= t < self.tasks@.len() && (#[trigger] self.tasks@[t].status) is Running
                ==> self.current == Some(t as usize)
    }

    pub open spec fn wf(self) -> bool {
        &&& self.tasks_ok()
        &&& self.frames_ok()
        &&& self.children_ok()
        &&& self.ready_ok()
        &&& self.running_ok()
    }

    /// Position of the first ready task with the numerically smallest
    /// pass: stride scheduling's pick, ties broken by ready-set order.
    fn find_min_pass(&self) -> (p: usize)
        requires
            self.wf(),
            self.ready@.len() > 0,
        ensures
            p < self.ready@.len(),
            forall|q: int|
                0 <= q < self.ready@.len() ==> self.tasks@[self.ready@[p as int] as int].pass
                    <= self.tasks@[#[trigger] self.ready@[q] as int].pass,
            forall|q: int|
                0 <= q < p ==> self.tasks@[#[trigger] self.ready@[q] as int].pass > self.tasks@[
                    self.ready@[p as int] as int
                ].pass,
    {
        let mut p: usize = 0;
        let mut q: usize = 1;
        while q < self.ready.len()
            invariant
                self.wf(),
                0 < self.ready@.len(),
                p < q <= self.ready@.len(),
                forall|r: int|
                    0 <= r < q ==> self.tasks@[self.ready@[p as int] as int].pass <= self.tasks@[
                        #[trigger] self.ready@[r] as int
                    ].pass,
                forall|r: int|
                    0 <= r < p ==> self.tasks@[#[trigger] self.ready@[r] as int].pass
                        > self.tasks@[self.ready@[p as int] as int].pass,
            decreases self.ready@.len() - q,
        {
            let cand = self.ready[q];
            let best = self.ready[p];
            if self.tasks[cand].pass < self.tasks[best].pass {
                p = q;
            }
            q = q + 1;
        }
        p
    }

    /// Hands the core to the ready task with the smallest pass, or idles
    /// (`current == None`) when nothing is ready.  The caller has already
    /// parked or buried the task that ran.
    fn schedule_from_ready(&mut self)
        requires
            old(self).tasks_ok(),
            old(self).frames_ok(),
            old(self).children_ok(),
            old(self).ready_ok(),
            old(self).current is None,
            forall|t: int|
                0 <= t < old(self).tasks@.len() ==> !((#[trigger] old(self).tasks@[t].status)
                    is Running),
        ensures
            final(self).wf(),
            final(self).tasks@.len() == old(self).tasks@.len(),
            final(self).fa == old(self).fa,
            final(self).mem == old(self).mem,
            final(self).apps == old(self).apps,
            old(self).ready@.len() == 0 ==> final(self).current is None && final(self).tasks@
                == old(self).tasks@,
            old(self).ready@.len() > 0 ==> {
                &&& final(self).current matches Some(n)
                &&& old(self).ready@.contains(final(self).current->0)
                &&& forall|q: int|
                    0 <= q < old(self).ready@.len() ==> final(self).tasks@[final(self).cur()].pass <= old(self).tasks@[#[trigger] old(self).ready@[q] as int].pass
                &&& forall|t: int|
                    0 <= t < old(self).tasks@.len() && t != final(self).cur() ==> final(self).tasks@[t] == old(self).tasks@[t]
                &&& final(self).tasks@[final(self).cur()] == Task {
                    status: TaskStatus::Running,
                    ..old(self).tasks@[final(self).cur()]
                }
            },
    {
        if self.ready.len() == 0 {
            return ;
        }
        let p = self.find_min_pass();
        let n = self.ready.remove(p);
        let ghost pre = *self;
        self.tasks[n].status = TaskStatus::Running;
        self.current = Some(n);
        proof {
            let nn = n as int;
            assert(self.tasks@ == pre.tasks@.update(nn, self.tasks@[nn]));
            assert(self.tasks@[nn] == Task { status: TaskStatus::Running, ..pre.tasks@[nn] });
            assert(old(self).ready@[p as int] == n);
            assert(old(self).ready@.contains(n));
            // the ready list lost exactly position p
            assert forall|k: int| 0 <= k < self.ready@.len() implies (#[trigger] self.ready@[k])
                < self.tasks@.len() && self.tasks@[self.ready@[k] as int].status is Ready by {
                let k0 = if k < p {
                    k
                } else {
                    k + 1
                };
                assert(old(self).ready@[k0] == self.ready@[k]);
                assert(self.ready@[k] != n);
            }
            assert forall|k: int, l: int| 0 <= k < l < self.ready@.len() implies self.ready@[k]
                != self.ready@[l] by {
                let k0 = if k < p {
                    k
                } else {
                    k + 1
                };
                let l0 = if l < p {
                    l
                } else {
                    l + 1
                };
                assert(old(self).ready@[k0] == self.ready@[k]);
                assert(old(self).ready@[l0] == self.ready@[l]);
            }
            assert forall|t: int|
                0 <= t < self.tasks@.len() && (#[trigger] self.tasks@[t].status) is Ready
                implies self.ready@.contains(t as usize) by {
                assert(old(self).tasks@[t].status is Ready);
                assert(old(self).ready@.contains(t as usize));
                let k0 = choose|k0: int|
                    0 <= k0 < old(self).ready@.len() && old(self).ready@[k0] == t as usize;
                assert(k0 != p);
                let k = if k0 < p {
                    k0
                } else {
                    k0 - 1
                };
                assert(self.ready@[k] == t as usize);
            }
            assert forall|t: int|
                0 <= t < self.tasks@.len() && (#[trigger] self.tasks@[t].status) is Running
                implies self.current == Some(t as usize) by {
                if t != nn {
                    assert(old(self).tasks@[t].status is Running);
                }
            }
            assert forall|t: int| 0 <= t < self.tasks@.len() implies (#[trigger] self.tasks@[
                t
            ]).wf() && self.tasks@[t].pid == t by {
                if t != nn {
                    assert(self.tasks@[t] == pre.tasks@[t]);
                }
            }
            assert forall|t: int| 0 <= t < self.tasks@.len() implies (#[trigger] self.tasks@[
                t
            ]).aspace.frames_owned(self.fa) by {
                assert(self.tasks@[t].aspace == pre.tasks@[t].aspace);
            }
            assert forall|t1: int, t2: int, f: int|
                0 <= t1 < self.tasks@.len() && 0 <= t2 < self.tasks@.len() && t1 != t2 implies !(
            (#[trigger] self.tasks@[t1].aspace.uses(f)) && (#[trigger] self.tasks@[
                t2
            ].aspace.uses(f))) by {
                assert(self.tasks@[t1].aspace == pre.tasks@[t1].aspace);
                assert(self.tasks@[t2].aspace == pre.tasks@[t2].aspace);
            }
            assert forall|t1: int, k1: int, t2: int, k2: int|
                0 <= t1 < self.tasks@.len() && 0 <= k1 < self.tasks@[t1].children@.len() && 0 <= t2
                    < self.tasks@.len() && 0 <= k2 < self.tasks@[t2].children@.len() && (t1 != t2
                    || k1 != k2) implies (#[trigger] self.tasks@[t1].children@[k1])
                != (#[trigger] self.tasks@[t2].children@[k2]) by {
                assert(self.tasks@[t1].children == pre.tasks@[t1].children);
                assert(self.tasks@[t2].children == pre.tasks@[t2].children);
            }
        }
    }

    /// Parks the running task as Ready, charges it one stride (saturating:
    /// a pass never wraps, so the comparison below stays sound), and hands
    /// the core to the smallest-pass ready task.
    pub fn suspend_current_and_run_next(&mut self)
        requires
            old(self).wf(),
            old(self).has_current(),
        ensures
            final(self).wf(),
            final(self).has_current(),
            final(self).tasks@.len() == old(self).tasks@.len(),
            final(self).fa == old(self).fa,
            final(self).mem == old(self).mem,
            final(self).apps == old(self).apps,
            // the parked task is charged its stride
            final(self).tasks@[old(self).cur()].pass == if old(self).tasks@[old(self).cur()].pass + old(self).tasks@[old(self).cur()].stride <= usize::MAX {
                (old(self).tasks@[old(self).cur()].pass + old(self).tasks@[old(self).cur()].stride) as usize
            } else {
                usize::MAX
            },
            // the new running task has minimal pass among all that could run
            forall|t: int|
                0 <= t < old(self).tasks@.len() && (old(self).tasks@[t].status is Ready || t
                    == old(self).cur()) ==> final(self).tasks@[final(self).cur()].pass
                    <= (#[trigger] final(self).tasks@[t]).pass,
            // nothing but scheduling fields moved
            forall|t: int|
                0 <= t < old(self).tasks@.len() && t != old(self).cur() && t != final(self).cur()
                    ==> final(self).tasks@[t] == old(self).tasks@[t],
            final(self).tasks@[old(self).cur()] == (Task {
                pass: final(self).tasks@[old(self).cur()].pass,
                status: final(self).tasks@[old(self).cur()].status,
                ..old(self).tasks@[old(self).cur()]
            }),
            final(self).tasks@[final(self).cur()] == (Task {
                pass: final(self).tasks@[final(self).cur()].pass,
                status: final(self).tasks@[final(self).cur()].status,
                ..old(self).tasks@[final(self).cur()]
            }),
    {
        let c = match self.current {
            Some(c) => c,
            None => {
                proof {
                    assert(false);
                }
                0
            },
        };
        let ghost pre = *self;
        let pass = self.tasks[c].pass;
        let stride = self.tasks[c].stride;
        let new_pass = if stride <= usize::MAX - pass {
            pass + stride
        } else {
            usize::MAX
        };
        self.tasks[c].pass = new_pass;
        self.tasks[c].status = TaskStatus::Ready;
        self.ready.push(c);
        self.current = None;
        proof {
            let cc = c as int;
            assert(self.tasks@[cc] == Task {
                pass: new_pass,
                status: TaskStatus::Ready,
                ..pre.tasks@[cc]
            });
            assert forall|t: int| 0 <= t < self.tasks@.len() implies (#[trigger] self.tasks@[
                t
            ]).wf() && self.tasks@[t].pid == t by {
                if t != cc {
                    assert(self.tasks@[t] == pre.tasks@[t]);
                }
            }
            assert forall|t: int| 0 <= t < self.tasks@.len() implies (#[trigger] self.tasks@[
                t
            ]).aspace.frames_owned(self.fa) by {
                assert(self.tasks@[t].aspace == pre.tasks@[t].aspace);
            }
            assert forall|t1: int, t2: int, f: int|
                0 <= t1 < self.tasks@.len() && 0 <= t2 < self.tasks@.len() && t1 != t2 implies !(
            (#[trigger] self.tasks@[t1].aspace.uses(f)) && (#[trigger] self.tasks@[
                t2
            ].aspace.uses(f))) by {
                assert(self.tasks@[t1].aspace == pre.tasks@[t1].aspace);
                assert(self.tasks@[t2].aspace == pre.tasks@[t2].aspace);
            }
            assert forall|t1: int, k1: int, t2: int, k2: int|
                0 <= t1 < self.tasks@.len() && 0 <= k1 < self.tasks@[t1].children@.len() && 0 <= t2
                    < self.tasks@.len() && 0 <= k2 < self.tasks@[t2].children@.len() && (t1 != t2
                    || k1 != k2) implies (#[trigger] self.tasks@[t1].children@[k1])
                != (#[trigger] self.tasks@[t2].children@[k2]) by {
                assert(self.tasks@[t1].children == pre.tasks@[t1].children);
                assert(self.tasks@[t2].children == pre.tasks@[t2].children);
            }
            // ready list: the old entries plus c at the end
            assert forall|k: int| 0 <= k < self.ready@.len() implies (#[trigger] self.ready@[k])
                < self.tasks@.len() && self.tasks@[self.ready@[k] as int].status is Ready by {
                if k < self.ready@.len() - 1 {
                    assert(self.ready@[k] == pre.ready@[k]);
                    assert(pre.tasks@[pre.ready@[k] as int].status is Ready);
                    assert(self.ready@[k] != c);
                } else {
                    assert(self.ready@[k] == c);
                }
            }
            assert forall|k: int, l: int| 0 <= k < l < self.ready@.len() implies self.ready@[k]
                != self.ready@[l] by {
                if l < self.ready@.len() - 1 {
                    assert(self.ready@[k] == pre.ready@[k] && self.ready@[l] == pre.ready@[l]);
                } else {
                    assert(self.ready@[k] == pre.ready@[k]);
                    assert(pre.tasks@[pre.ready@[k] as int].status is Ready);
                    assert(self.ready@[l] == c);
                    assert(pre.tasks@[c as int].status is Running);
                }
            }
            assert forall|t: int|
                0 <= t < self.tasks@.len() && (#[trigger] self.tasks@[t].status) is Ready
                implies self.ready@.contains(t as usize) by {
                if t == cc {
                    assert(self.ready@[self.ready@.len() - 1] == c);
                } else {
                    assert(pre.tasks@[t].status is Ready);
                    assert(pre.ready@.contains(t as usize));
                    let k = choose|k: int|
                        0 <= k < pre.ready@.len() && pre.ready@[k] == t as usize;
                    assert(self.ready@[k] == t as usize);
                }
            }
            assert forall|t: int|
                0 <= t < self.tasks@.len() implies !((#[trigger] self.tasks@[t].status)
                is Running) by {
                if t != cc {
                    assert(self.tasks@[t] == pre.tasks@[t]);
                    assert(!(pre.tasks@[t].status is Running));
                }
            }
        }
        let ghost mid = *self;
        self.schedule_from_ready();
        proof {
            assert(mid.ready@.len() > 0);
            assert(mid.ready@[mid.ready@.len() - 1] == c);
            let n = self.cur();
            assert forall|t: int|
                0 <= t < old(self).tasks@.len() && (old(self).tasks@[t].status is Ready || t
                    == old(self).cur()) implies self.tasks@[self.cur()].pass
                <= (#[trigger] self.tasks@[t]).pass by {
                if t == c as int {
                    assert(mid.ready@.contains(t as usize));
                } else {
                    assert(mid.tasks@[t].status is Ready);
                    assert(mid.ready@.contains(t as usize));
                }
                let q = choose|q: int| 0 <= q < mid.ready@.len() && mid.ready@[q] == t as usize;
                assert(self.tasks@[self.cur()].pass <= mid.tasks@[mid.ready@[q] as int].pass);
                if t != n {
                    assert(self.tasks@[t] == mid.tasks@[t]);
                }
            }
        }
    }

    /// Buries the running task: Zombie status, recorded exit code, every
    /// frame of its address space released, and its children re-parented
    /// to the root task, so no live task is left parentless.  Then hands
    /// the core to the smallest-pass ready task, or idles.
    #[verifier::rlimit(100)]
    pub fn exit_current_and_run_next(&mut self, exit_code: i32)
        requires
            old(self).wf(),
            old(self).has_current(),
        ensures
            final(self).wf(),
            final(self).tasks@.len() == old(self).tasks@.len(),
            final(self).mem == old(self).mem,
            final(self).apps == old(self).apps,
            final(self).tasks@[old(self).cur()].status is Zombie,
            final(self).tasks@[old(self).cur()].exit_code == exit_code,
            final(self).tasks@[old(self).cur()].aspace.areas@.len() == 0,
            final(self).tasks@[old(self).cur()].children@.len() == 0 || old(self).cur() == 0,
            // every frame the task held returns to the pool
            forall|g: int|
                final(self).fa.taken(g) <==> old(self).fa.taken(g) && !old(self).tasks@[old(self).cur()].aspace.uses(g),
            // children survive under the root task
            old(self).cur() != 0 ==> final(self).tasks@[0].children@ == old(self).tasks@[0].children@ + old(self).tasks@[old(self).cur()].children@,
            forall|t: int|
                0 <= t < old(self).tasks@.len() && t != old(self).cur() && t != 0 && final(self).current != Some(t as usize) ==> final(self).tasks@[t] == old(self).tasks@[t],
            old(self).ready@.len() == 0 ==> final(self).current is None,
            old(self).ready@.len() > 0 ==> final(self).has_current(),
            final(self).tasks@[old(self).cur()] == (Task {
                status: TaskStatus::Zombie,
                exit_code: exit_code,
                aspace: final(self).tasks@[old(self).cur()].aspace,
                children: final(self).tasks@[old(self).cur()].children,
                ..old(self).tasks@[old(self).cur()]
            }),
    {
        let c = match self.current {
            Some(c) => c,
            None => {
                proof {
                    assert(false);
                }
                0
            },
        };
        let ghost pre = *self;
        let mut t = self.tasks.remove(c);
        t.status = TaskStatus::Zombie;
        t.exit_code = exit_code;
        t.aspace.recycle(&mut self.fa);
        let mut moved: Vec<usize> = Vec::new();
        moved.append(&mut t.children);
        self.tasks.insert(c, t);
        proof {
            assert(self.tasks@ == pre.tasks@.remove(c as int).insert(c as int, self.tasks@[
                c as int
            ]));
            assert forall|u: int| 0 <= u < self.tasks@.len() && u != c implies self.tasks@[u]
                == pre.tasks@[u] by {}
        }
        if c != 0 {
            self.tasks[0].children.append(&mut moved);
        }
        self.current = None;
        proof {
            let cc = c as int;
            assert(self.tasks@[cc].status is Zombie);
            assert(self.tasks@[cc].aspace.areas@.len() == 0);
            assert forall|f: int| !(#[trigger] self.tasks@[cc].aspace.uses(f)) by {
                if self.tasks@[cc].aspace.uses(f) {
                    let (a, k) = choose|a: int, k: int|
                        0 <= a < self.tasks@[cc].aspace.areas@.len() && 0 <= k < self.tasks@[
                            cc
                        ].aspace.areas@[a].frames@.len() && (#[trigger] self.tasks@[
                            cc
                        ].aspace.areas@[a].frames@[k]) == f;
                }
            }
            assert forall|u: int| 0 <= u < self.tasks@.len() implies (#[trigger] self.tasks@[
                u
            ]).wf() && self.tasks@[u].pid == u by {
                if u != cc && u != 0 {
                    assert(self.tasks@[u] == pre.tasks@[u]);
                } else if u == 0 && cc != 0 {
                    assert(self.tasks@[0] == Task {
                        children: self.tasks@[0].children,
                        ..pre.tasks@[0]
                    });
                }
            }
            assert forall|u: int| 0 <= u < self.tasks@.len() implies (#[trigger] self.tasks@[
                u
            ]).aspace.frames_owned(self.fa) by {
                if u != cc {
                    assert(self.tasks@[u].aspace == pre.tasks@[u].aspace);
                    assert forall|f: int| #[trigger] self.tasks@[u].aspace.uses(f)
                        implies self.fa.taken(f) by {
                        assert(pre.tasks@[u].aspace.uses(f));
                        assert(pre.fa.taken(f));
                        assert(!pre.tasks@[cc].aspace.uses(f));
                    }
                }
            }
            assert forall|t1: int, t2: int, f: int|
                0 <= t1 < self.tasks@.len() && 0 <= t2 < self.tasks@.len() && t1 != t2 implies !(
            (#[trigger] self.tasks@[t1].aspace.uses(f)) && (#[trigger] self.tasks@[
                t2
            ].aspace.uses(f))) by {
                if t1 != cc && t2 != cc {
                    assert(self.tasks@[t1].aspace == pre.tasks@[t1].aspace);
                    assert(self.tasks@[t2].aspace == pre.tasks@[t2].aspace);
                }
            }
            // child links: the moved entries keep their values
            assert forall|t1: int, k1: int|
                0 <= t1 < self.tasks@.len() && 0 <= k1 < self.tasks@[t1].children@.len()
                implies (#[trigger] self.tasks@[t1].children@[k1]) < self.tasks@.len() by {
                if t1 == 0 && cc != 0 {
                    if k1 < pre.tasks@[0].children@.len() {
                        assert(self.tasks@[0].children@[k1] == pre.tasks@[0].children@[k1]);
                    } else {
                        assert(self.tasks@[0].children@[k1] == pre.tasks@[cc].children@[k1 - pre
                            .tasks@[0].children@.len()]);
                    }
                } else if t1 != cc {
                    assert(self.tasks@[t1].children == pre.tasks@[t1].children);
                }
            }
            assert forall|t1: int, k1: int, t2: int, k2: int|
                0 <= t1 < self.tasks@.len() && 0 <= k1 < self.tasks@[t1].children@.len() && 0 <= t2
                    < self.tasks@.len() && 0 <= k2 < self.tasks@[t2].children@.len() && (t1 != t2
                    || k1 != k2) implies (#[trigger] self.tasks@[t1].children@[k1])
                != (#[trigger] self.tasks@[t2].children@[k2]) by {
                let n0 = pre.tasks@[0].children@.len() as int;
                let (o1, j1) = if t1 == 0 && cc != 0 && k1 >= n0 {
                    (cc, k1 - n0)
                } else {
                    (t1, k1)
                };
                let (o2, j2) = if t2 == 0 && cc != 0 && k2 >= n0 {
                    (cc, k2 - n0)
                } else {
                    (t2, k2)
                };
                assert(self.tasks@[t1].children@[k1] == pre.tasks@[o1].children@[j1]);
                assert(self.tasks@[t2].children@[k2] == pre.tasks@[o2].children@[j2]);
                assert((o1, j1) != (o2, j2));
            }
            assert forall|k: int| 0 <= k < self.ready@.len() implies (#[trigger] self.ready@[k])
                < self.tasks@.len() && self.tasks@[self.ready@[k] as int].status is Ready by {
                assert(self.ready@[k] == pre.ready@[k]);
                assert(pre.tasks@[pre.ready@[k] as int].status is Ready);
                assert(pre.ready@[k] != c);
            }
            assert forall|u: int|
                0 <= u < self.tasks@.len() && (#[trigger] self.tasks@[u].status) is Ready
                implies self.ready@.contains(u as usize) by {
                assert(u != cc);
                assert(pre.tasks@[u].status is Ready);
            }
            assert forall|u: int|
                0 <= u < self.tasks@.len() implies !((#[trigger] self.tasks@[u].status)
                is Running) by {
                if u != cc {
                    assert(self.tasks@[u].status == pre.tasks@[u].status);
                    assert(!(pre.tasks@[u].status is Running));
                }
            }
        }
        self.schedule_from_ready();
    }

    /// After an operation that reshapes only task `c`'s address space
    /// (and the frame pool with it), the kernel invariant still holds:
    /// any frame the task gained was free before, so it cannot collide
    /// with another task's frames, and any frame it lost was its own.
    pub proof fn lemma_wf_after_aspace_update(pre: Kernel, post: Kernel, c: int)
        requires
            pre.wf(),
            0 <= c < pre.tasks@.len(),
            post.tasks@.len() == pre.tasks@.len(),
            post.current == pre.current,
            post.ready == pre.ready,
            post.mem.wf(),
            post.fa.wf(),
            forall|t: int|
                0 <= t < pre.tasks@.len() && t != c ==> post.tasks@[t] == pre.tasks@[t],
            post.tasks@[c].wf(),
            post.tasks@[c].pid == c,
            post.tasks@[c].status == pre.tasks@[c].status,
            post.tasks@[c].children == pre.tasks@[c].children,
            post.tasks@[c].aspace.frames_owned(post.fa),
            forall|f: int|
                #[trigger] post.tasks@[c].aspace.uses(f) ==> pre.tasks@[c].aspace.uses(f)
                    || !pre.fa.taken(f),
            forall|f: int|
                !(#[trigger] pre.fa.taken(f)) || pre.tasks@[c].aspace.uses(f) || post.fa.taken(f),
        ensures
            post.wf(),
    {
        assert forall|t: int| 0 <= t < post.tasks@.len() implies (#[trigger] post.tasks@[
            t
        ]).wf() && post.tasks@[t].pid == t by {
            if t != c {
                assert(post.tasks@[t] == pre.tasks@[t]);
            }
        }
        assert forall|t: int| 0 <= t < post.tasks@.len() implies (#[trigger] post.tasks@[
            t
        ]).aspace.frames_owned(post.fa) by {
            if t != c {
                assert(post.tasks@[t] == pre.tasks@[t]);
                assert forall|f: int| #[trigger] post.tasks@[t].aspace.uses(f)
                    implies post.fa.taken(f) by {
                    assert(pre.tasks@[t].aspace.uses(f));
                    assert(pre.fa.taken(f));
                    assert(!pre.tasks@[c].aspace.uses(f));
                }
            }
        }
        assert forall|t1: int, t2: int, f: int|
            0 <= t1 < post.tasks@.len() && 0 <= t2 < post.tasks@.len() && t1 != t2 implies !(
        (#[trigger] post.tasks@[t1].aspace.uses(f)) && (#[trigger] post.tasks@[t2].aspace.uses(
            f,
        ))) by {
            if t1 != c && t2 != c {
                assert(post.tasks@[t1] == pre.tasks@[t1]);
                assert(post.tasks@[t2] == pre.tasks@[t2]);
            } else {
                let o = if t1 == c {
                    t2
                } else {
                    t1
                };
                assert(post.tasks@[o] == pre.tasks@[o]);
                if post.tasks@[c].aspace.uses(f) && pre.tasks@[o].aspace.uses(f) {
                    assert(pre.fa.taken(f));
                    assert(pre.tasks@[c].aspace.uses(f));
                }
            }
        }
        assert forall|t1: int, k1: int|
            0 <= t1 < post.tasks@.len() && 0 <= k1 < post.tasks@[t1].children@.len()
            implies (#[trigger] post.tasks@[t1].children@[k1]) < post.tasks@.len() by {
            if t1 != c {
                assert(post.tasks@[t1] == pre.tasks@[t1]);
            }
        }
        assert forall|t1: int, k1: int, t2: int, k2: int|
            0 <= t1 < post.tasks@.len() && 0 <= k1 < post.tasks@[t1].children@.len() && 0 <= t2
                < post.tasks@.len() && 0 <= k2 < post.tasks@[t2].children@.len() && (t1 != t2 || k1
                != k2) implies (#[trigger] post.tasks@[t1].children@[k1])
            != (#[trigger] post.tasks@[t2].children@[k2]) by {
            assert(post.tasks@[t1].children == pre.tasks@[t1].children);
            assert(post.tasks@[t2].children == pre.tasks@[t2].children);
        }
        assert forall|k: int| 0 <= k < post.ready@.len() implies (#[trigger] post.ready@[k])
            < post.tasks@.len() && post.tasks@[post.ready@[k] as int].status is Ready by {
            assert(pre.ready@[k] == post.ready@[k]);
            assert(post.tasks@[post.ready@[k] as int].status == pre.tasks@[pre.ready@[
                k
            ] as int].status);
        }
        assert forall|t: int|
            0 <= t < post.tasks@.len() && (#[trigger] post.tasks@[t].status) is Ready
            implies post.ready@.contains(t as usize) by {
            assert(post.tasks@[t].status == pre.tasks@[t].status);
        }
        assert forall|t: int|
            0 <= t < post.tasks@.len() && (#[trigger] post.tasks@[t].status) is Running
            implies post.current == Some(t as usize) by {
            assert(post.tasks@[t].status == pre.tasks@[t].status);
        }
        if post.current is Some {
            let cc = post.current->0 as int;
            assert(post.tasks@[cc].status == pre.tasks@[cc].status);
        }
    }

    /// Writes `data` into the running task's memory at `va` through its
    /// page table, page by page.  True exactly when the whole range is
    /// writable by user code; nothing at all is written otherwise.
    pub fn poke_user(&mut self, va: usize, data: &Vec<u8>) -> (ok: bool)
        requires
            old(self).wf(),
            old(self).has_current(),
        ensures
            final(self).wf(),
            final(self).has_current(),
            final(self).cur() == old(self).cur(),
            final(self).tasks == old(self).tasks,
            final(self).fa == old(self).fa,
            final(self).ready == old(self).ready,
            final(self).apps == old(self).apps,
            ok <==> forall|i: int|
                0 <= i < data@.len() ==> #[trigger] crate::user_mem::can_write(
                    old(self).tasks@[old(self).cur()].aspace,
                    va + i,
                ),
            !ok ==> final(self).mem.bytes@ == old(self).mem.bytes@,
            ok ==> forall|i: int|
                0 <= i < data@.len() ==> crate::user_mem::user_byte(
                    old(self).tasks@[old(self).cur()].aspace,
                    final(self).mem,
                    va + i,
                ) == data@[i],
            ok ==> forall|pa: int|
                0 <= pa < final(self).mem.bytes@.len() && !(exists|i: int|
                    0 <= i < data@.len() && pa == #[trigger] old(self).tasks@[old(
                        self,
                    ).cur()].aspace.spec_pa(va + i)) ==> final(self).mem.bytes@[pa] == old(
                    self,
                ).mem.bytes@[pa],
    {
        let c = match self.current {
            Some(c) => c,
            None => {
                proof {
                    assert(false);
                }
                0
            },
        };
        crate::user_mem::write_user_bytes(&self.tasks[c].aspace, &mut self.mem, va, data)
    }

    /// Reads `len` bytes of the running task's memory at `va` through its
    /// page table; `None` exactly when some byte is not readable by user
    /// code.
    pub fn peek_user(&self, va: usize, len: usize) -> (r: Option<Vec<u8>>)
        requires
            self.wf(),
            self.has_current(),
        ensures
            r is Some <==> forall|i: int|
                0 <= i < len ==> #[trigger] crate::user_mem::can_read(
                    self.tasks@[self.cur()].aspace,
                    va + i,
                ),
            r matches Some(s) ==> s@.len() == len && forall|i: int|
                0 <= i < len ==> s@[i] == crate::user_mem::user_byte(
                    self.tasks@[self.cur()].aspace,
                    self.mem,
                    va + i,
                ),
    {
        let c = match self.current {
            Some(c) => c,
            None => {
                proof {
                    assert(false);
                }
                0
            },
        };
        crate::user_mem::read_user_bytes(&self.tasks[c].aspace, &self.mem, va, len)
    }

    /// Boots the kernel: zeroed memory, a full frame pool, and the first
    /// application image as the single initial task, already running.
    /// `None` exactly when there is no image or the first image does not
    /// build (bad segments; the fresh pool itself cannot be the obstacle
    /// at boot unless the image is larger than physical memory).
    pub fn boot(apps: Vec<AppImage>, now_ms: usize) -> (r: Option<Kernel>)
        ensures
            r matches Some(k) ==> {
                &&& k.wf()
                &&& k.has_current()
                &&& k.cur() == 0
                &&& k.tasks@.len() == 1
                &&& k.tasks@[0].status is Running
                &&& k.tasks@[0].first_time_ms == now_ms
                &&& k.tasks@[0].children@.len() == 0
                &&& k.tasks@[0].stride == BIG_STRIDE / DEFAULT_PRIORITY
                &&& k.tasks@[0].sepc == apps@[0].entry
                &&& forall|i: int|
                    0 <= i < crate::config::TRAP_REG_COUNT ==> (#[trigger] k.tasks@[
                        0
                    ].trap_regs@[i]) == 0
                &&& k.apps == apps
                &&& forall|v: int|
                    #[trigger] k.tasks@[0].aspace.mapped(v) <==> crate::task::segs_cover(
                        apps@[0].segments@,
                        v,
                    )
            },
            r is None ==> apps@.len() == 0 || !((forall|j: int|
                0 <= j < apps@[0].segments@.len() ==> crate::task::seg_fits(
                    #[trigger] apps@[0].segments@[j],
                )) && crate::task::segs_disjoint(apps@[0].segments@) && crate::task::total_pages(
                apps@[0].segments@,
            ) <= crate::config::MEM_PAGES),
    {
        if apps.len() == 0 {
            return None;
        }
        let mut fa = FrameAllocator::new();
        let mem = PhysMem::new();
        let built = build_user_aspace(&apps[0].segments, &mut fa);
        let (aspace, hb) = match built {
            Some(pair) => pair,
            None => {
                return None;
            },
        };
        let entry = apps[0].entry;
        let task = Task {
            pid: 0,
            status: TaskStatus::Running,
            aspace,
            stride: BIG_STRIDE / DEFAULT_PRIORITY,
            pass: 0,
            exit_code: 0,
            children: Vec::new(),
            syscall_times: vec![0u32; MAX_SYSCALL_NUM],
            first_time_ms: now_ms,
            time_ms: 0,
            heap_bottom: hb,
            brk: hb,
            heap_idx: apps[0].segments.len(),
            trap_regs: vec![0usize; crate::config::TRAP_REG_COUNT],
            sepc: entry,
        };
        let mut tasks: Vec<Task> = Vec::new();
        proof {
            lemma_div_multiples_vanish_fancy(
                hb as int / PAGE_SIZE as int,
                PAGE_SIZE - 1,
                PAGE_SIZE as int,
            );
        }
        tasks.push(task);
        let k = Kernel {
            tasks,
            current: Some(0),
            ready: Vec::new(),
            fa,
            mem,
            apps,
        };
        proof {
            assert(k.tasks@[0].wf()) by {
                assert(k.tasks@[0].aspace.areas@[k.tasks@[0].heap_idx as int] == k.tasks@[
                    0
                ].aspace.areas@.last());
                assert(crate::task::heap_end_vpn(hb as int) == hb as int / PAGE_SIZE as int);
            }
        }
        Some(k)
    }
}

} // verus!
