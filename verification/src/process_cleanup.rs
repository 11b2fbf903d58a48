//! Which processes are stopped at the end: the other instances, with all that they started.
use std::collections::HashSet;
use crate::json::string_view;
use crate::process_tree::{
    ProcessV, UnixProcessInfo, allowed, command_uses_path, process_list, uses_path,
};
use crate::text::texts;
use vstd::prelude::*;

verus! {

broadcast use vstd::std_specs::hash::group_hash_axioms;

/// The process is another instance of the executable.
pub open spec fn is_other_instance(p: ProcessV, paths: Seq<Seq<char>>, current: u32) -> bool {
    p.process_id != current && exists|i: int|
        0 <= i < paths.len() && uses_path(p.command, #[trigger] paths[i])
}

/// The numbers of the other instances of an executable, which is known under some paths.
pub fn unix_codey_root_process_ids(
    processes: &Vec<UnixProcessInfo>,
    paths: &Vec<String>,
    current_process_id: u32,
) -> (r: HashSet<u32>)
    ensures
        forall|id: u32|
            r@.contains(id) <==> exists|i: int|
                0 <= i < processes.len() && (#[trigger] process_list(processes@)[i]).process_id
                    == id && is_other_instance(
                    process_list(processes@)[i],
                    texts(paths@),
                    current_process_id,
                ),
{
    let ghost all = process_list(processes@);
    let ghost names = texts(paths@);
    let mut out: HashSet<u32> = HashSet::new();
    let mut i: usize = 0;
    while i < processes.len()
        invariant
            i <= processes.len(),
            all == process_list(processes@),
            names == texts(paths@),
            forall|id: u32|
                out@.contains(id) <==> exists|j: int|
                    0 <= j < i && (#[trigger] all[j]).process_id == id && is_other_instance(
                        all[j],
                        names,
                        current_process_id,
                    ),
        decreases processes.len() - i,
    {
        let p = &processes[i];
        let other = p.process_id != current_process_id && command_uses_path(
            p.command.as_str(),
            paths,
        );
        let ghost before = out@;
        proof {
            assert(all[i as int] == p@);
            assert(other == is_other_instance(all[i as int], names, current_process_id));
        }
        if other {
            out.insert(p.process_id);
        }
        proof {
            assert forall|id: u32| out@.contains(id) <==> exists|j: int|
                0 <= j < i + 1 && (#[trigger] all[j]).process_id == id && is_other_instance(
                    all[j],
                    names,
                    current_process_id,
                ) by {
                if before.contains(id) {
                    let j = choose|j: int|
                        0 <= j < i && (#[trigger] all[j]).process_id == id && is_other_instance(
                            all[j],
                            names,
                            current_process_id,
                        );
                    assert(all[j].process_id == id);
                }
            }
        }
        i = i + 1;
    }
    out
}

/// When the process with a number was created: the last entry counts.
pub open spec fn created_at(list: Seq<(u32, u32, u64)>, id: u32) -> Option<u64>
    decreases list.len(),
{
    if list.len() == 0 {
        None
    } else if list.last().0 == id {
        Some(list.last().2)
    } else {
        created_at(list.drop_last(), id)
    }
}

/// The entry is a child of a process that was there when it was created. A number that was given
/// anew is no parent.
pub open spec fn is_child_of(list: Seq<(u32, u32, u64)>, entry: (u32, u32, u64), parent: u32) -> bool {
    entry.1 == parent && (created_at(list, parent) matches Some(t) && t <= entry.2)
}

/// The numbers that are reached from the roots in so many steps from parent to child.
pub open spec fn reached_in_time(
    list: Seq<(u32, u32, u64)>,
    roots: Seq<u32>,
    excluded: u32,
    steps: nat,
) -> Set<u32>
    decreases steps,
{
    if steps == 0 {
        Set::new(
            |id: u32| roots.contains(id) && allowed(id, excluded) && created_at(list, id) is Some,
        )
    } else {
        let before = reached_in_time(list, roots, excluded, (steps - 1) as nat);
        Set::new(
            |id: u32|
                before.contains(id) || exists|i: int|
                    0 <= i < list.len() && (#[trigger] list[i]).0 == id && allowed(id, excluded)
                        && before.contains(list[i].1) && is_child_of(list, list[i], list[i].1),
        )
    }
}

/// The number is that of a root or of a descendant of one.
pub open spec fn descends_in_time(
    list: Seq<(u32, u32, u64)>,
    roots: Seq<u32>,
    excluded: u32,
    id: u32,
) -> bool {
    exists|steps: nat| #[trigger] reached_in_time(list, roots, excluded, steps).contains(id)
}

pub open spec fn closed_in_time(list: Seq<(u32, u32, u64)>, excluded: u32, ids: Set<u32>) -> bool {
    forall|i: int|
        0 <= i < list.len() && allowed((#[trigger] list[i]).0, excluded) && ids.contains(list[i].1)
            && is_child_of(list, list[i], list[i].1) ==> ids.contains(list[i].0)
}

proof fn lemma_closed_holds_all(
    list: Seq<(u32, u32, u64)>,
    roots: Seq<u32>,
    excluded: u32,
    ids: Set<u32>,
    steps: nat,
)
    requires
        closed_in_time(list, excluded, ids),
        reached_in_time(list, roots, excluded, 0).subset_of(ids),
    ensures
        reached_in_time(list, roots, excluded, steps).subset_of(ids),
    decreases steps,
{
    if steps > 0 {
        lemma_closed_holds_all(list, roots, excluded, ids, (steps - 1) as nat);
    }
}

fn creation_time(list: &Vec<(u32, u32, u64)>, id: u32) -> (r: Option<u64>)
    ensures
        r == created_at(list@, id),
{
    let mut i: usize = list.len();
    proof {
        assert(list@.subrange(0, i as int) =~= list@);
    }
    while i > 0
        invariant
            i <= list.len(),
            created_at(list@, id) == created_at(list@.subrange(0, i as int), id),
        decreases i,
    {
        proof {
            assert(list@.subrange(0, i as int).drop_last() =~= list@.subrange(0, i - 1));
            assert(list@.subrange(0, i as int).last() == list@[i - 1]);
        }
        if list[i - 1].0 == id {
            return Some(list[i - 1].2);
        }
        i = i - 1;
    }
    None
}

proof fn lemma_known_is_listed(list: Seq<(u32, u32, u64)>, id: u32)
    requires
        created_at(list, id) is Some,
    ensures
        Seq::new(list.len(), |i: int| list[i].0).contains(id),
    decreases list.len(),
{
    let ids = Seq::new(list.len(), |i: int| list[i].0);
    if list.last().0 == id {
        assert(ids[list.len() - 1] == id);
    } else {
        let rest = list.drop_last();
        lemma_known_is_listed(rest, id);
        let inner = Seq::new(rest.len(), |i: int| rest[i].0);
        let j = choose|j: int| 0 <= j < inner.len() && inner[j] == id;
        assert(ids[j] == id);
    }
}

/// The numbers of the roots and of all their descendants, told by number, parent and creation
/// time.
pub fn process_ids_with_descendants_from_identities(
    processes: &Vec<(u32, u32, u64)>,
    roots: &Vec<u32>,
    excluded_process_id: u32,
) -> (r: HashSet<u32>)
    ensures
        forall|id: u32|
            r@.contains(id) <==> descends_in_time(processes@, roots@, excluded_process_id, id),
{
    let ghost list = processes@;
    let ghost all = Seq::new(list.len(), |i: int| list[i].0).to_set();
    let mut ids: HashSet<u32> = HashSet::new();
    let mut k: usize = 0;
    proof {
        assert(ids@ =~= reached_in_time(list, roots@.subrange(0, 0), excluded_process_id, 0));
    }
    while k < roots.len()
        invariant
            k <= roots.len(),
            list == processes@,
            ids@ == reached_in_time(
                list,
                roots@.subrange(0, k as int),
                excluded_process_id,
                0,
            ),
        decreases roots.len() - k,
    {
        let id = roots[k];
        let ghost before = ids@;
        let known = creation_time(processes, id).is_some();
        if id > 1 && id != excluded_process_id && known {
            ids.insert(id);
        }
        proof {
            let a = roots@.subrange(0, k as int);
            assert(roots@.subrange(0, k + 1) =~= a.push(id));
            let next = reached_in_time(list, roots@.subrange(0, k + 1), excluded_process_id, 0);
            assert forall|x: u32| ids@.contains(x) == next.contains(x) by {
                if a.contains(x) {
                    let j = choose|j: int| 0 <= j < a.len() && a[j] == x;
                    assert(a.push(id)[j] == x);
                }
                if x == id {
                    assert(a.push(id)[a.len() as int] == x);
                }
                if a.push(id).contains(x) && x != id {
                    let j = choose|j: int| 0 <= j < a.push(id).len() && a.push(id)[j] == x;
                    assert(a[j] == x);
                }
                assert(before.contains(x) == (a.contains(x) && allowed(x, excluded_process_id)
                    && created_at(list, x) is Some));
            }
            assert(ids@ =~= next);
        }
        k = k + 1;
    }
    proof {
        assert(roots@.subrange(0, k as int) =~= roots@);
        assert forall|id: u32| ids@.contains(id) implies descends_in_time(
            list,
            roots@,
            excluded_process_id,
            id,
        ) && all.contains(id) by {
            assert(reached_in_time(list, roots@, excluded_process_id, 0).contains(id));
            lemma_known_is_listed(list, id);
        }
        assert(ids@.subset_of(all));
        assert(all.finite());
    }
    loop
        invariant
            list == processes@,
            all == Seq::new(list.len(), |i: int| list[i].0).to_set(),
            all.finite(),
            ids@.subset_of(all),
            reached_in_time(list, roots@, excluded_process_id, 0).subset_of(ids@),
            forall|id: u32|
                ids@.contains(id) ==> descends_in_time(list, roots@, excluded_process_id, id),
        ensures
            closed_in_time(list, excluded_process_id, ids@),
        decreases all.len() - ids@.len(),
    {
        let ghost before = ids@;
        let mut grown = false;
        let mut i: usize = 0;
        while i < processes.len()
            invariant
                i <= processes.len(),
                list == processes@,
                all == Seq::new(list.len(), |i: int| list[i].0).to_set(),
                ids@.subset_of(all),
                before.subset_of(ids@),
                before.finite(),
                all.finite(),
                !grown ==> ids@ == before,
                grown ==> ids@.len() > before.len(),
                !grown ==> forall|j: int|
                    0 <= j < i && allowed((#[trigger] list[j]).0, excluded_process_id)
                        && ids@.contains(list[j].1) && is_child_of(list, list[j], list[j].1)
                        ==> ids@.contains(list[j].0),
                forall|id: u32|
                    ids@.contains(id) ==> descends_in_time(
                        list,
                        roots@,
                        excluded_process_id,
                        id,
                    ),
            decreases processes.len() - i,
        {
            let (id, parent, time) = processes[i];
            proof {
                let ps = Seq::new(list.len(), |i: int| list[i].0);
                assert(ps[i as int] == id);
                assert(ps.to_set().contains(id));
                vstd::set_lib::lemma_len_subset(ids@, all);
            }
            let in_time = match creation_time(processes, parent) {
                Some(t) => t <= time,
                None => false,
            };
            if id > 1 && id != excluded_process_id && ids.contains(&parent) && in_time {
                let ghost step = ids@;
                if ids.insert(id) {
                    grown = true;
                }
                proof {
                    assert(descends_in_time(list, roots@, excluded_process_id, parent));
                    let n = choose|n: nat| #[trigger]
                        reached_in_time(list, roots@, excluded_process_id, n).contains(parent);
                    assert(list[i as int] == (id, parent, time));
                    assert(reached_in_time(list, roots@, excluded_process_id, n + 1).contains(id));
                    if step.contains(id) {
                        assert(step.insert(id) =~= step);
                    } else {
                        vstd::set_lib::lemma_len_subset(before, step);
                    }
                }
            }
            i = i + 1;
        }
        proof {
            vstd::set_lib::lemma_len_subset(ids@, all);
        }
        if !grown {
            break;
        }
    }
    proof {
        assert forall|id: u32|
            descends_in_time(list, roots@, excluded_process_id, id) implies ids@.contains(id) by {
            let n = choose|n: nat| #[trigger]
                reached_in_time(list, roots@, excluded_process_id, n).contains(id);
            lemma_closed_holds_all(list, roots@, excluded_process_id, ids@, n);
        }
    }
    ids
}

/// A process as Windows lists it.
#[derive(Debug)]
pub struct WindowsProcessInfo {
    pub process_id: u32,
    pub parent_process_id: u32,
    pub executable_path: Option<String>,
    pub creation_time: Option<u64>,
    /// Whether its executable is that of this program.
    pub same_executable: bool,
}

#[verifier::ext_equal]
pub struct WindowsProcessV {
    pub process_id: u32,
    pub parent_process_id: u32,
    pub executable_path: Option<Seq<char>>,
    pub creation_time: Option<u64>,
    pub same_executable: bool,
}

impl View for WindowsProcessInfo {
    type V = WindowsProcessV;

    open spec fn view(&self) -> WindowsProcessV {
        WindowsProcessV {
            process_id: self.process_id,
            parent_process_id: self.parent_process_id,
            executable_path: string_view(self.executable_path),
            creation_time: self.creation_time,
            same_executable: self.same_executable,
        }
    }
}

pub open spec fn windows_list(v: Seq<WindowsProcessInfo>) -> Seq<WindowsProcessV> {
    Seq::new(v.len(), |i: int| v[i]@)
}

/// The process is another instance of this program, and it is known when it was created.
pub open spec fn is_other_windows_instance(p: WindowsProcessV, current: u32) -> bool {
    p.process_id != current && p.same_executable && p.executable_path is Some
        && p.creation_time is Some
}

/// The numbers of the other instances.
pub open spec fn windows_roots(list: Seq<WindowsProcessV>, current: u32) -> Seq<u32>
    decreases list.len(),
{
    if list.len() == 0 {
        Seq::empty()
    } else {
        let rest = windows_roots(list.drop_last(), current);
        if is_other_windows_instance(list.last(), current) {
            rest.push(list.last().process_id)
        } else {
            rest
        }
    }
}

/// The numbers, parents and creation times of the processes with a creation time.
pub open spec fn windows_identities(list: Seq<WindowsProcessV>) -> Seq<(u32, u32, u64)>
    decreases list.len(),
{
    if list.len() == 0 {
        Seq::empty()
    } else {
        let rest = windows_identities(list.drop_last());
        match list.last().creation_time {
            Some(time) => rest.push((list.last().process_id, list.last().parent_process_id, time)),
            None => rest,
        }
    }
}

/// The numbers of the other instances, in the order of the listing.
pub fn windows_codey_root_process_ids(
    processes: &Vec<WindowsProcessInfo>,
    current_process_id: u32,
) -> (r: Vec<u32>)
    ensures
        r@ == windows_roots(windows_list(processes@), current_process_id),
{
    let ghost all = windows_list(processes@);
    let mut out: Vec<u32> = Vec::new();
    let mut i: usize = 0;
    proof {
        assert(out@ =~= windows_roots(all.subrange(0, 0), current_process_id));
    }
    while i < processes.len()
        invariant
            i <= processes.len(),
            all == windows_list(processes@),
            out@ == windows_roots(all.subrange(0, i as int), current_process_id),
        decreases processes.len() - i,
    {
        let p = &processes[i];
        proof {
            assert(all.subrange(0, i + 1).drop_last() =~= all.subrange(0, i as int));
            assert(all.subrange(0, i + 1).last() == p@);
        }
        if p.process_id != current_process_id && p.same_executable && p.executable_path.is_some()
            && p.creation_time.is_some() {
            out.push(p.process_id);
        }
        i = i + 1;
    }
    proof {
        assert(all.subrange(0, i as int) =~= all);
    }
    out
}

fn identities_of(processes: &Vec<WindowsProcessInfo>) -> (r: Vec<(u32, u32, u64)>)
    ensures
        r@ == windows_identities(windows_list(processes@)),
{
    let ghost all = windows_list(processes@);
    let mut out: Vec<(u32, u32, u64)> = Vec::new();
    let mut i: usize = 0;
    proof {
        assert(out@ =~= windows_identities(all.subrange(0, 0)));
    }
    while i < processes.len()
        invariant
            i <= processes.len(),
            all == windows_list(processes@),
            out@ == windows_identities(all.subrange(0, i as int)),
        decreases processes.len() - i,
    {
        let p = &processes[i];
        proof {
            assert(all.subrange(0, i + 1).drop_last() =~= all.subrange(0, i as int));
            assert(all.subrange(0, i + 1).last() == p@);
        }
        if let Some(time) = p.creation_time {
            out.push((p.process_id, p.parent_process_id, time));
        }
        i = i + 1;
    }
    proof {
        assert(all.subrange(0, i as int) =~= all);
    }
    out
}

/// A process that is to be stopped, with what tells it from another that gets its number.
#[derive(Debug)]
pub struct WindowsTarget {
    pub process_id: u32,
    pub executable_path: String,
    pub creation_time: u64,
}

impl View for WindowsTarget {
    type V = (u32, Seq<char>, u64);

    open spec fn view(&self) -> (u32, Seq<char>, u64) {
        (self.process_id, self.executable_path@, self.creation_time)
    }
}

pub open spec fn target_list(v: Seq<WindowsTarget>) -> Seq<(u32, Seq<char>, u64)> {
    Seq::new(v.len(), |i: int| v[i]@)
}

/// The processes of a listing that descend from the roots and can be told from others.
pub open spec fn windows_targets(
    list: Seq<WindowsProcessV>,
    identities: Seq<(u32, u32, u64)>,
    roots: Seq<u32>,
    current: u32,
) -> Seq<(u32, Seq<char>, u64)>
    decreases list.len(),
{
    if list.len() == 0 {
        Seq::empty()
    } else {
        let rest = windows_targets(list.drop_last(), identities, roots, current);
        let p = list.last();
        match (p.executable_path, p.creation_time) {
            (Some(path), Some(time)) => if descends_in_time(
                identities,
                roots,
                current,
                p.process_id,
            ) {
                rest.push((p.process_id, path, time))
            } else {
                rest
            },
            _ => rest,
        }
    }
}

/// The processes that are stopped on Windows: the other instances with all that they started.
pub fn windows_cleanup_targets(
    processes: &Vec<WindowsProcessInfo>,
    current_process_id: u32,
) -> (r: Vec<WindowsTarget>)
    ensures
        target_list(r@) == windows_targets(
            windows_list(processes@),
            windows_identities(windows_list(processes@)),
            windows_roots(windows_list(processes@), current_process_id),
            current_process_id,
        ),
{
    let roots = windows_codey_root_process_ids(processes, current_process_id);
    let identities = identities_of(processes);
    let ids = process_ids_with_descendants_from_identities(
        &identities,
        &roots,
        current_process_id,
    );
    let ghost all = windows_list(processes@);
    let mut out: Vec<WindowsTarget> = Vec::new();
    let mut i: usize = 0;
    proof {
        assert(target_list(out@) =~= windows_targets(
            all.subrange(0, 0),
            identities@,
            roots@,
            current_process_id,
        ));
    }
    while i < processes.len()
        invariant
            i <= processes.len(),
            all == windows_list(processes@),
            forall|id: u32|
                ids@.contains(id) <==> descends_in_time(
                    identities@,
                    roots@,
                    current_process_id,
                    id,
                ),
            target_list(out@) == windows_targets(
                all.subrange(0, i as int),
                identities@,
                roots@,
                current_process_id,
            ),
        decreases processes.len() - i,
    {
        let p = &processes[i];
        proof {
            assert(all.subrange(0, i + 1).drop_last() =~= all.subrange(0, i as int));
            assert(all.subrange(0, i + 1).last() == p@);
        }
        if ids.contains(&p.process_id) {
            if let Some(path) = &p.executable_path {
                if let Some(time) = p.creation_time {
                    let ghost before = out@;
                    let target = WindowsTarget {
                        process_id: p.process_id,
                        executable_path: path.clone(),
                        creation_time: time,
                    };
                    out.push(target);
                    proof {
                        assert(target_list(out@) =~= target_list(before).push(target@));
                    }
                }
            }
        }
        i = i + 1;
    }
    proof {
        assert(all.subrange(0, i as int) =~= all);
    }
    out
}

/// This process is not among those that are stopped.
pub proof fn the_current_process_stays(
    list: Seq<WindowsProcessV>,
    identities: Seq<(u32, u32, u64)>,
    roots: Seq<u32>,
    current: u32,
    i: int,
)
    requires
        0 <= i < windows_targets(list, identities, roots, current).len(),
    ensures
        windows_targets(list, identities, roots, current)[i].0 != current,
    decreases list.len(),
{
    let before = windows_targets(list.drop_last(), identities, roots, current);
    if i < before.len() {
        the_current_process_stays(list.drop_last(), identities, roots, current, i);
    } else {
        let id = list.last().process_id;
        let n = choose|n: nat| #[trigger]
            reached_in_time(identities, roots, current, n).contains(id);
        lemma_reached_is_allowed(identities, roots, current, n, id);
    }
}

proof fn lemma_reached_is_allowed(
    list: Seq<(u32, u32, u64)>,
    roots: Seq<u32>,
    excluded: u32,
    n: nat,
    id: u32,
)
    requires
        reached_in_time(list, roots, excluded, n).contains(id),
    ensures
        allowed(id, excluded),
    decreases n,
{
    if n > 0 {
        if reached_in_time(list, roots, excluded, (n - 1) as nat).contains(id) {
            lemma_reached_is_allowed(list, roots, excluded, (n - 1) as nat, id);
        }
    }
}

/// Milliseconds that processes get to end by themselves.
pub const CLEANUP_GRACE_MILLIS: u64 = 2000;

/// What comes next while processes are asked to end.
#[derive(Debug, Clone, Copy, PartialEq, Eq, Structural)]
pub enum CleanupStep {
    /// All have ended.
    Done,
    /// Some are alive, and their time is not up.
    Wait,
    /// Some are alive, and their time is up.
    Kill,
}

/// What comes next, by whether a process is alive and how long they have had.
pub fn cleanup_step(alive: bool, waited_millis: u64) -> (r: CleanupStep)
    ensures
        r == if !alive {
            CleanupStep::Done
        } else if waited_millis < CLEANUP_GRACE_MILLIS {
            CleanupStep::Wait
        } else {
            CleanupStep::Kill
        },
{
    if !alive {
        CleanupStep::Done
    } else if waited_millis < CLEANUP_GRACE_MILLIS {
        CleanupStep::Wait
    } else {
        CleanupStep::Kill
    }
}

/// Every other instance is found, in the order of the listing, and nothing else is: not this process,
/// not another program, and not one whose creation time or path is not known.
pub proof fn every_other_instance_is_found(
    first: Seq<WindowsProcessV>,
    process: WindowsProcessV,
    current: u32,
)
    ensures
        ({
            let other = process.process_id != current && process.same_executable
                && process.executable_path is Some && process.creation_time is Some;
            windows_roots(first.push(process), current) == if other {
                windows_roots(first, current).push(process.process_id)
            } else {
                windows_roots(first, current)
            }
        }),
        windows_identities(first.push(process)) == match process.creation_time {
            Some(time) => windows_identities(first).push(
                (process.process_id, process.parent_process_id, time),
            ),
            None => windows_identities(first),
        },
{
    assert(first.push(process).drop_last() =~= first);
    assert(first.push(process).last() == process);
}

} // verus!
