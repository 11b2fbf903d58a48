//! Process trees: reading a listing of processes, following children, and telling a process from
//! another that got its number later.
use std::collections::{HashMap, HashSet};
use crate::local_router::request_log_tap::{lossy_text, text_lossy};
use crate::text::{
    Sep, char_is_white, chars_of, find_sep, find_sep_is_first, is_sep, is_white, join, joined,
    lines_of, pair_view, parse_number, parsed_number, part_at, split_lines_of, stands_at, str_eq,
    strip_prefix, stripped_prefix, text_of, texts, texts_push, trim_start, trimmed_start,
};
use vstd::prelude::*;
use vstd::string::*;

verus! {

broadcast use vstd::std_specs::hash::group_hash_axioms;

/// A process as a listing shows it.
#[derive(Clone, Debug, PartialEq, Eq)]
pub struct UnixProcessInfo {
    pub process_id: u32,
    pub parent_process_id: u32,
    pub process_group_id: u32,
    pub start_time: String,
    pub command: String,
}

/// What a process is.
#[verifier::ext_equal]
pub struct ProcessV {
    pub process_id: u32,
    pub parent_process_id: u32,
    pub process_group_id: u32,
    pub start_time: Seq<char>,
    pub command: Seq<char>,
}

impl View for UnixProcessInfo {
    type V = ProcessV;

    open spec fn view(&self) -> ProcessV {
        ProcessV {
            process_id: self.process_id,
            parent_process_id: self.parent_process_id,
            process_group_id: self.process_group_id,
            start_time: self.start_time@,
            command: self.command@,
        }
    }
}

pub open spec fn process_list(v: Seq<UnixProcessInfo>) -> Seq<ProcessV> {
    Seq::new(v.len(), |i: int| v[i]@)
}

/// What tells a process from another that gets the same number: when it started, and its command.
#[derive(Clone, Debug, PartialEq, Eq)]
pub struct UnixProcessIdentity {
    pub start_time: String,
    pub command: String,
}

impl View for UnixProcessIdentity {
    type V = (Seq<char>, Seq<char>);

    open spec fn view(&self) -> (Seq<char>, Seq<char>) {
        (self.start_time@, self.command@)
    }
}

/// The first field of a line and what follows it. A field ends at white space.
pub open spec fn first_field(line: Seq<char>) -> Option<(Seq<char>, Seq<char>)> {
    let s = trim_start(line);
    let i = find_sep(s, Sep::White);
    if 0 < i < s.len() {
        Some((s.subrange(0, i), s.subrange(i, s.len() as int)))
    } else {
        None
    }
}

/// The first fields of a line and what follows them.
pub open spec fn fields(line: Seq<char>, n: nat) -> Option<(Seq<Seq<char>>, Seq<char>)>
    decreases n,
{
    if n == 0 {
        Some((Seq::empty(), line))
    } else {
        match fields(line, (n - 1) as nat) {
            None => None,
            Some((before, rest)) => match first_field(rest) {
                None => None,
                Some((field, left)) => Some((before.push(field), left)),
            },
        }
    }
}

/// A line of a listing: three numbers, five fields of a date, and a command. Other lines are none.
pub open spec fn process_line(line: Seq<char>) -> Option<ProcessV> {
    match fields(line, 8) {
        None => None,
        Some((f, rest)) => {
            let command = trim_start(rest);
            let max = u32::MAX as nat;
            match (
                parsed_number(f[0], max),
                parsed_number(f[1], max),
                parsed_number(f[2], max),
            ) {
                (Some(pid), Some(parent), Some(group)) => if command.len() > 0 {
                    Some(
                        ProcessV {
                            process_id: pid as u32,
                            parent_process_id: parent as u32,
                            process_group_id: group as u32,
                            start_time: joined(f.subrange(3, 8), " "@),
                            command,
                        },
                    )
                } else {
                    None
                },
                _ => None,
            }
        },
    }
}

/// The processes in the lines of a listing.
pub open spec fn processes_in(lines: Seq<Seq<char>>) -> Seq<ProcessV>
    decreases lines.len(),
{
    if lines.len() == 0 {
        Seq::empty()
    } else {
        let rest = processes_in(lines.drop_last());
        match process_line(lines.last()) {
            Some(p) => rest.push(p),
            None => rest,
        }
    }
}

/// The processes of a listing.
pub open spec fn listed_processes(text: Seq<char>) -> Seq<ProcessV> {
    processes_in(lines_of(text))
}

fn take_process_field(line: &str) -> (r: Option<(String, String)>)
    ensures
        pair_view(r) == first_field(line@),
{
    let s = trimmed_start(line);
    let v = chars_of(s.as_str());
    let mut i: usize = 0;
    while i < v.len() && !char_is_white(v[i])
        invariant
            i <= v.len(),
            v@ == s@,
            forall|j: int| 0 <= j < i ==> !is_sep(Sep::White, #[trigger] v@[j]),
        decreases v.len() - i,
    {
        i = i + 1;
    }
    proof {
        find_sep_is_first(s@, Sep::White, i as int);
    }
    if i > 0 && i < v.len() {
        Some((text_of(&v, 0, i), text_of(&v, i, v.len())))
    } else {
        None
    }
}

fn take_fields(line: &str, n: usize) -> (r: Option<(Vec<String>, String)>)
    ensures
        match r {
            Some((f, rest)) => fields(line@, n as nat) == Some((texts(f@), rest@)),
            None => fields(line@, n as nat) is None,
        },
{
    let mut out: Vec<String> = Vec::new();
    let mut rest = line.to_owned();
    let mut k: usize = 0;
    proof {
        assert(texts(out@) =~= Seq::<Seq<char>>::empty());
    }
    while k < n
        invariant
            k <= n,
            fields(line@, k as nat) == Some((texts(out@), rest@)),
        decreases n - k,
    {
        match take_process_field(rest.as_str()) {
            None => {
                proof {
                    lemma_no_more_fields(line@, (k + 1) as nat, n as nat);
                }
                return None;
            },
            Some((field, left)) => {
                proof {
                    texts_push(out@, field);
                }
                out.push(field);
                rest = left;
            },
        }
        k = k + 1;
    }
    Some((out, rest))
}

proof fn lemma_no_more_fields(line: Seq<char>, a: nat, b: nat)
    requires
        fields(line, a) is None,
        a <= b,
    ensures
        fields(line, b) is None,
    decreases b - a,
{
    if a < b {
        lemma_no_more_fields(line, a, (b - 1) as nat);
    }
}

proof fn lemma_field_count(line: Seq<char>, n: nat)
    requires
        fields(line, n) is Some,
    ensures
        (fields(line, n)->0).0.len() == n,
    decreases n,
{
    if n > 0 {
        lemma_field_count(line, (n - 1) as nat);
    }
}

fn read_u32(s: &str) -> (r: Option<u32>)
    ensures
        match r {
            Some(n) => parsed_number(s@, u32::MAX as nat) == Some(n as nat),
            None => parsed_number(s@, u32::MAX as nat) is None,
        },
{
    match parse_number(s, 0xffff_ffff) {
        Some(n) => Some(n as u32),
        None => None,
    }
}

pub open spec fn process_opt(r: Option<UnixProcessInfo>) -> Option<ProcessV> {
    match r {
        Some(p) => Some(p@),
        None => None,
    }
}

fn parse_unix_process_line(line: &str) -> (r: Option<UnixProcessInfo>)
    ensures
        process_opt(r) == process_line(line@),
{
    let (f, rest) = match take_fields(line, 8) {
        None => {
            return None;
        },
        Some(x) => x,
    };
    proof {
        lemma_field_count(line@, 8);
        assert(texts(f@).len() == f.len());
    }
    let command = trimmed_start(rest.as_str());
    if command.as_str().is_empty() {
        return None;
    }
    let process_id = match read_u32(f[0].as_str()) {
        Some(n) => n,
        None => {
            return None;
        },
    };
    let parent_process_id = match read_u32(f[1].as_str()) {
        Some(n) => n,
        None => {
            return None;
        },
    };
    let process_group_id = match read_u32(f[2].as_str()) {
        Some(n) => n,
        None => {
            return None;
        },
    };
    let mut date: Vec<String> = Vec::new();
    let mut i: usize = 3;
    while i < 8
        invariant
            3 <= i <= 8,
            f.len() == 8,
            texts(date@) == texts(f@).subrange(3, i as int),
        decreases 8 - i,
    {
        let part = f[i].clone();
        proof {
            texts_push(date@, part);
        }
        date.push(part);
        i = i + 1;
        proof {
            assert(texts(date@) =~= texts(f@).subrange(3, i as int));
        }
    }
    Some(
        UnixProcessInfo {
            process_id,
            parent_process_id,
            process_group_id,
            start_time: join(&date, " "),
            command,
        },
    )
}

/// Reads a listing of processes. Lines that show none are left out.
pub fn parse_unix_process_snapshot(output: &[u8]) -> (r: Vec<UnixProcessInfo>)
    ensures
        process_list(r@) == listed_processes(lossy_text(output@)),
{
    let text = text_lossy(output);
    parse_process_listing(text.as_str())
}

/// Reads a listing of processes that is text.
pub fn parse_process_listing(text: &str) -> (r: Vec<UnixProcessInfo>)
    ensures
        process_list(r@) == listed_processes(text@),
{
    let lines = split_lines_of(text);
    let ghost all = texts(lines@);
    let mut out: Vec<UnixProcessInfo> = Vec::new();
    let mut i: usize = 0;
    proof {
        assert(process_list(out@) =~= processes_in(all.subrange(0, 0)));
    }
    while i < lines.len()
        invariant
            i <= lines.len(),
            all == texts(lines@),
            process_list(out@) == processes_in(all.subrange(0, i as int)),
        decreases lines.len() - i,
    {
        proof {
            assert(all.subrange(0, i + 1).drop_last() =~= all.subrange(0, i as int));
            assert(all.subrange(0, i + 1).last() == lines@[i as int]@);
        }
        if let Some(p) = parse_unix_process_line(lines[i].as_str()) {
            let ghost before = out@;
            out.push(p);
            proof {
                assert(process_list(out@) =~= process_list(before).push(p@));
            }
        }
        i = i + 1;
    }
    proof {
        assert(all.subrange(0, i as int) =~= all);
    }
    out
}

/// A number that may be signalled: neither that of the first process nor the excluded one.
pub open spec fn allowed(id: u32, excluded: u32) -> bool {
    id > 1 && id != excluded
}

/// The numbers that are reached from the roots in so many steps from parent to child.
pub open spec fn reached(
    processes: Seq<ProcessV>,
    roots: Seq<u32>,
    excluded: u32,
    steps: nat,
) -> Set<u32>
    decreases steps,
{
    if steps == 0 {
        Set::new(|id: u32| roots.contains(id) && allowed(id, excluded))
    } else {
        let before = reached(processes, roots, excluded, (steps - 1) as nat);
        Set::new(
            |id: u32|
                before.contains(id) || exists|i: int|
                    0 <= i < processes.len() && (#[trigger] processes[i]).process_id == id
                        && allowed(id, excluded) && before.contains(
                        processes[i].parent_process_id,
                    ),
        )
    }
}

/// The number is that of a root or of a descendant of one.
pub open spec fn descends(processes: Seq<ProcessV>, roots: Seq<u32>, excluded: u32, id: u32) -> bool {
    exists|steps: nat| #[trigger] reached(processes, roots, excluded, steps).contains(id)
}

/// The set holds every allowed child of what it holds.
pub open spec fn closed_under_children(processes: Seq<ProcessV>, excluded: u32, ids: Set<u32>) -> bool {
    forall|i: int|
        0 <= i < processes.len() && allowed((#[trigger] processes[i]).process_id, excluded)
            && ids.contains(processes[i].parent_process_id) ==> ids.contains(
            processes[i].process_id,
        )
}

proof fn lemma_closed_holds_all(
    processes: Seq<ProcessV>,
    roots: Seq<u32>,
    excluded: u32,
    ids: Set<u32>,
    steps: nat,
)
    requires
        closed_under_children(processes, excluded, ids),
        reached(processes, roots, excluded, 0).subset_of(ids),
    ensures
        reached(processes, roots, excluded, steps).subset_of(ids),
    decreases steps,
{
    if steps > 0 {
        lemma_closed_holds_all(processes, roots, excluded, ids, (steps - 1) as nat);
    }
}

/// The numbers that can be reached at all.
pub open spec fn universe(processes: Seq<ProcessV>, roots: Seq<u32>) -> Set<u32> {
    roots.to_set().union(Seq::new(processes.len(), |i: int| processes[i].process_id).to_set())
}

/// The numbers of the roots and of all their descendants, without the excluded process.
pub fn process_ids_with_descendants(
    processes: &Vec<UnixProcessInfo>,
    roots: &Vec<u32>,
    excluded_process_id: u32,
) -> (r: HashSet<u32>)
    ensures
        forall|id: u32|
            r@.contains(id) <==> descends(
                process_list(processes@),
                roots@,
                excluded_process_id,
                id,
            ),
{
    let ghost list = process_list(processes@);
    let ghost all = universe(list, roots@);
    let mut ids: HashSet<u32> = HashSet::new();
    let mut k: usize = 0;
    proof {
        assert(ids@ =~= reached(list, roots@.subrange(0, 0), excluded_process_id, 0));
    }
    while k < roots.len()
        invariant
            k <= roots.len(),
            ids@ == reached(list, roots@.subrange(0, k as int), excluded_process_id, 0),
        decreases roots.len() - k,
    {
        let id = roots[k];
        let ghost before = ids@;
        proof {
            assert(roots@.subrange(0, k + 1) =~= roots@.subrange(0, k as int).push(id));
            assert forall|x: u32| roots@.subrange(0, k + 1).contains(x) <==> roots@.subrange(
                0,
                k as int,
            ).contains(x) || x == id by {
                let a = roots@.subrange(0, k as int);
                if a.contains(x) {
                    let j = choose|j: int| 0 <= j < a.len() && a[j] == x;
                    assert(a.push(id)[j] == x);
                }
                if x == id {
                    assert(a.push(id)[a.len() as int] == x);
                }
                if a.push(id).contains(x) && x != id {
                    let j = choose|j: int| 0 <= j < a.push(id).len() && a.push(id)[j] == x;
                    assert(a[j] == x);
                }
            }
        }
        if id > 1 && id != excluded_process_id {
            ids.insert(id);
        }
        proof {
            let next = reached(list, roots@.subrange(0, k + 1), excluded_process_id, 0);
            assert forall|x: u32| ids@.contains(x) == next.contains(x) by {
                assert(before.contains(x) == (roots@.subrange(0, k as int).contains(x) && allowed(
                    x,
                    excluded_process_id,
                )));
            }
            assert(ids@ =~= next);
        }
        k = k + 1;
    }
    proof {
        assert(roots@.subrange(0, k as int) =~= roots@);
        assert forall|id: u32| ids@.contains(id) implies descends(
            list,
            roots@,
            excluded_process_id,
            id,
        ) by {
            assert(reached(list, roots@, excluded_process_id, 0).contains(id));
        }
        assert(all.finite());
        assert(ids@.subset_of(all));
    }
    loop
        invariant
            list == process_list(processes@),
            all == universe(list, roots@),
            all.finite(),
            ids@.subset_of(all),
            reached(list, roots@, excluded_process_id, 0).subset_of(ids@),
            forall|id: u32|
                ids@.contains(id) ==> descends(list, roots@, excluded_process_id, id),
        ensures
            closed_under_children(list, excluded_process_id, ids@),
        decreases all.len() - ids@.len(),
    {
        let ghost before = ids@;
        let mut grown = false;
        let mut i: usize = 0;
        while i < processes.len()
            invariant
                i <= processes.len(),
                list == process_list(processes@),
                all == universe(list, roots@),
                ids@.subset_of(all),
                before.subset_of(ids@),
                before.finite(),
                all.finite(),
                !grown ==> ids@ == before,
                grown ==> ids@.len() > before.len(),
                !grown ==> forall|j: int|
                    0 <= j < i && allowed((#[trigger] list[j]).process_id, excluded_process_id)
                        && ids@.contains(list[j].parent_process_id) ==> ids@.contains(
                        list[j].process_id,
                    ),
                forall|id: u32|
                    ids@.contains(id) ==> descends(list, roots@, excluded_process_id, id),
            decreases processes.len() - i,
        {
            let p = &processes[i];
            proof {
                assert(list[i as int] == p@);
                let ps = Seq::new(list.len(), |i: int| list[i].process_id);
                assert(ps[i as int] == p.process_id);
                assert(ps.to_set().contains(p.process_id));
                vstd::set_lib::lemma_len_subset(ids@, all);
            }
            if p.process_id > 1 && p.process_id != excluded_process_id && ids.contains(
                &p.parent_process_id,
            ) {
                let ghost step = ids@;
                if ids.insert(p.process_id) {
                    grown = true;
                }
                proof {
                    let parent = p.parent_process_id;
                    assert(descends(list, roots@, excluded_process_id, parent));
                    let n = choose|n: nat| #[trigger]
                        reached(list, roots@, excluded_process_id, n).contains(parent);
                    assert(reached(list, roots@, excluded_process_id, n + 1).contains(
                        p.process_id,
                    ));
                    if step.contains(p.process_id) {
                        assert(step.insert(p.process_id) =~= step);
                    } else {
                        vstd::set_lib::lemma_len_subset(before, step);
                    }
                }
            }
            i = i + 1;
        }
        proof {
            vstd::set_lib::lemma_len_subset(ids@, all);
        }
        if !grown {
            break;
        }
    }
    proof {
        assert forall|id: u32| descends(list, roots@, excluded_process_id, id) implies ids@.contains(
            id,
        ) by {
            let n = choose|n: nat| #[trigger]
                reached(list, roots@, excluded_process_id, n).contains(id);
            lemma_closed_holds_all(list, roots@, excluded_process_id, ids@, n);
        }
    }
    ids
}

/// Neither the excluded process nor the first one is ever among them, and the children of what is
/// among them are too.
pub proof fn descendants_are_complete(
    processes: Seq<ProcessV>,
    roots: Seq<u32>,
    excluded: u32,
    i: int,
    id: u32,
)
    requires
        0 <= i < processes.len(),
    ensures
        descends(processes, roots, excluded, id) ==> allowed(id, excluded),
        descends(processes, roots, excluded, processes[i].parent_process_id) && allowed(
            processes[i].process_id,
            excluded,
        ) ==> descends(processes, roots, excluded, processes[i].process_id),
{
    if descends(processes, roots, excluded, id) {
        let n = choose|n: nat| #[trigger] reached(processes, roots, excluded, n).contains(id);
        lemma_reached_allowed(processes, roots, excluded, n, id);
    }
    let parent = processes[i].parent_process_id;
    if descends(processes, roots, excluded, parent) && allowed(processes[i].process_id, excluded) {
        let n = choose|n: nat| #[trigger] reached(processes, roots, excluded, n).contains(parent);
        assert(reached(processes, roots, excluded, n + 1).contains(processes[i].process_id));
    }
}

proof fn lemma_reached_allowed(
    processes: Seq<ProcessV>,
    roots: Seq<u32>,
    excluded: u32,
    n: nat,
    id: u32,
)
    requires
        reached(processes, roots, excluded, n).contains(id),
    ensures
        allowed(id, excluded),
    decreases n,
{
    if n > 0 {
        let before = reached(processes, roots, excluded, (n - 1) as nat);
        if before.contains(id) {
            lemma_reached_allowed(processes, roots, excluded, (n - 1) as nat, id);
        }
    }
}

/// The identity of the last process with a number, in a listing.
pub open spec fn identity_of(processes: Seq<ProcessV>, id: u32) -> Option<(Seq<char>, Seq<char>)>
    decreases processes.len(),
{
    if processes.len() == 0 {
        None
    } else if processes.last().process_id == id {
        Some((processes.last().start_time, processes.last().command))
    } else {
        identity_of(processes.drop_last(), id)
    }
}

/// The identity that a map has for a number.
pub open spec fn known_identity(m: Map<u32, UnixProcessIdentity>, id: u32) -> Option<
    (Seq<char>, Seq<char>),
> {
    if m.contains_key(id) {
        Some(m[id]@)
    } else {
        None
    }
}

/// The identities of the processes with certain numbers.
pub fn identities_for_process_ids(
    processes: &Vec<UnixProcessInfo>,
    process_ids: &HashSet<u32>,
) -> (r: HashMap<u32, UnixProcessIdentity>)
    ensures
        forall|id: u32|
            #[trigger] known_identity(r@, id) == if process_ids@.contains(id) {
                identity_of(process_list(processes@), id)
            } else {
                None
            },
{
    let ghost all = process_list(processes@);
    let mut out: HashMap<u32, UnixProcessIdentity> = HashMap::new();
    let mut i: usize = 0;
    while i < processes.len()
        invariant
            i <= processes.len(),
            all == process_list(processes@),
            forall|id: u32|
                #[trigger] known_identity(out@, id) == if process_ids@.contains(id) {
                    identity_of(all.subrange(0, i as int), id)
                } else {
                    None
                },
        decreases processes.len() - i,
    {
        let p = &processes[i];
        let ghost before = out@;
        proof {
            assert(all.subrange(0, i + 1).drop_last() =~= all.subrange(0, i as int));
            assert(all.subrange(0, i + 1).last() == p@);
        }
        if process_ids.contains(&p.process_id) {
            out.insert(
                p.process_id,
                UnixProcessIdentity { start_time: p.start_time.clone(), command: p.command.clone() },
            );
        }
        proof {
            assert forall|id: u32| #[trigger]
                known_identity(out@, id) == if process_ids@.contains(id) {
                    identity_of(all.subrange(0, i + 1), id)
                } else {
                    None
                } by {
                assert(known_identity(before, id) == if process_ids@.contains(id) {
                    identity_of(all.subrange(0, i as int), id)
                } else {
                    None
                });
            }
        }
        i = i + 1;
    }
    proof {
        assert(all.subrange(0, i as int) =~= all);
    }
    out
}

/// Some process of a listing has the number, and the identity that is known for it.
pub open spec fn still_runs(
    processes: Seq<ProcessV>,
    identities: Map<u32, UnixProcessIdentity>,
    id: u32,
) -> bool {
    exists|i: int|
        0 <= i < processes.len() && (#[trigger] processes[i]).process_id == id && known_identity(
            identities,
            id,
        ) == Some((processes[i].start_time, processes[i].command))
}

/// The numbers of the processes that are still the ones that are known.
pub fn matching_process_ids(
    processes: &Vec<UnixProcessInfo>,
    identities: &HashMap<u32, UnixProcessIdentity>,
) -> (r: HashSet<u32>)
    ensures
        forall|id: u32|
            r@.contains(id) <==> still_runs(process_list(processes@), identities@, id),
{
    let ghost all = process_list(processes@);
    let mut out: HashSet<u32> = HashSet::new();
    let mut i: usize = 0;
    while i < processes.len()
        invariant
            i <= processes.len(),
            all == process_list(processes@),
            forall|id: u32|
                out@.contains(id) <==> still_runs(all.subrange(0, i as int), identities@, id),
        decreases processes.len() - i,
    {
        let p = &processes[i];
        let mut same = false;
        if let Some(identity) = identities.get(&p.process_id) {
            same = str_eq(identity.start_time.as_str(), p.start_time.as_str()) && str_eq(
                identity.command.as_str(),
                p.command.as_str(),
            );
        }
        proof {
            let before = all.subrange(0, i as int);
            let after = all.subrange(0, i + 1);
            assert(after =~= before.push(p@));
            assert forall|id: u32| still_runs(after, identities@, id) <==> (still_runs(
                before,
                identities@,
                id,
            ) || (same && id == p.process_id)) by {
                if still_runs(before, identities@, id) {
                    let j = choose|j: int|
                        0 <= j < before.len() && (#[trigger] before[j]).process_id == id
                            && known_identity(identities@, id) == Some(
                            (before[j].start_time, before[j].command),
                        );
                    assert(after[j] == before[j]);
                }
                if same && id == p.process_id {
                    assert(after[i as int] == p@);
                }
                if still_runs(after, identities@, id) {
                    let j = choose|j: int|
                        0 <= j < after.len() && (#[trigger] after[j]).process_id == id
                            && known_identity(identities@, id) == Some(
                            (after[j].start_time, after[j].command),
                        );
                    if j < before.len() {
                        assert(after[j] == before[j]);
                    }
                }
            }
        }
        if same {
            out.insert(p.process_id);
        }
        i = i + 1;
    }
    proof {
        assert(all.subrange(0, i as int) =~= all);
    }
    out
}

/// A process that appears later is never taken for one that was known, not even where it got the
/// number of one.
pub proof fn new_processes_are_not_adopted(
    initial: Seq<ProcessV>,
    ids: Set<u32>,
    identities: Map<u32, UnixProcessIdentity>,
    later: Seq<ProcessV>,
    id: u32,
)
    requires
        forall|x: u32|
            #[trigger] known_identity(identities, x) == if ids.contains(x) {
                identity_of(initial, x)
            } else {
                None
            },
        still_runs(later, identities, id),
    ensures
        ids.contains(id),
        exists|i: int|
            0 <= i < later.len() && (#[trigger] later[i]).process_id == id && identity_of(
                initial,
                id,
            ) == Some((later[i].start_time, later[i].command)),
{
    assert(known_identity(identities, id) is Some);
}

/// The command is the path, or starts with it and goes on with a slash or white space.
pub open spec fn uses_path(command: Seq<char>, path: Seq<char>) -> bool {
    command == path || (strip_prefix(command, path) matches Some(rest) && rest.len() > 0 && (rest[0]
        == '/' || is_white(rest[0])))
}

/// Whether a command is that of an executable, under one of the names of its path.
pub fn command_uses_path(command: &str, candidates: &Vec<String>) -> (r: bool)
    ensures
        r == exists|i: int|
            0 <= i < candidates.len() && uses_path(command@, #[trigger] texts(candidates@)[i]),
{
    let mut i: usize = 0;
    while i < candidates.len()
        invariant
            i <= candidates.len(),
            forall|j: int| 0 <= j < i ==> !uses_path(command@, #[trigger] texts(candidates@)[j]),
        decreases candidates.len() - i,
    {
        let path = candidates[i].as_str();
        let mut used = str_eq(command, path);
        if let Some(rest) = stripped_prefix(command, path) {
            let v = chars_of(rest.as_str());
            if v.len() > 0 && (v[0] == '/' || char_is_white(v[0])) {
                used = true;
            }
        }
        proof {
            assert(texts(candidates@)[i as int] == path@);
        }
        if used {
            return true;
        }
        i = i + 1;
    }
    false
}

/// Position `i` of a command is at the edge of an argument of this length: white space or an end
/// on either side.
pub open spec fn stands_alone(command: Seq<char>, i: int, length: int) -> bool {
    (i == 0 || is_white(command[i - 1])) && (i + length == command.len() || is_white(
        command[i + length],
    ))
}

/// The argument stands alone in the command from a position on. Occurrences do not overlap.
pub open spec fn argument_from(command: Seq<char>, argument: Seq<char>, i: int) -> bool
    decreases command.len() - i,
{
    if argument.len() == 0 || i < 0 || i >= command.len() {
        false
    } else if stands_at(command, argument, i) {
        stands_alone(command, i, argument.len() as int) || argument_from(
            command,
            argument,
            i + argument.len(),
        )
    } else {
        argument_from(command, argument, i + 1)
    }
}

/// Whether a command has an argument.
pub fn command_has_argument(command: &str, argument: &str) -> (r: bool)
    ensures
        r == argument_from(command@, argument@, 0),
{
    let c = chars_of(command);
    let a = chars_of(argument);
    if a.len() == 0 {
        return false;
    }
    let mut i: usize = 0;
    while i < c.len()
        invariant
            i <= c.len(),
            c@ == command@,
            a@ == argument@,
            a.len() > 0,
            argument_from(command@, argument@, 0) == argument_from(
                command@,
                argument@,
                i as int,
            ),
        decreases c.len() - i,
    {
        if part_at(&c, &a, i) {
            let end = i + a.len();
            if (i == 0 || char_is_white(c[i - 1])) && (end == c.len() || char_is_white(c[end])) {
                return true;
            }
            i = end;
        } else {
            i = i + 1;
        }
    }
    false
}

/// The process group that a signal goes to, as the system names it: none for the groups of the
/// system itself.
pub fn signal_process_group(process_group_id: Option<u32>) -> (r: Option<i32>)
    ensures
        r == match process_group_id {
            Some(id) => if 1 < id <= 0x7fff_ffff {
                Some((-(id as int)) as i32)
            } else {
                None
            },
            None => None,
        },
{
    match process_group_id {
        Some(id) => if id > 1 && id <= 0x7fff_ffff {
            Some(-(id as i32))
        } else {
            None
        },
        None => None,
    }
}

/// A listing is read line by line.
pub proof fn processes_are_read_line_by_line(first: Seq<Seq<char>>, second: Seq<Seq<char>>)
    ensures
        processes_in(first + second) == processes_in(first) + processes_in(second),
    decreases second.len(),
{
    if second.len() == 0 {
        assert(first + second =~= first);
        assert(processes_in(first) + processes_in(second) =~= processes_in(first));
    } else {
        assert((first + second).drop_last() =~= first + second.drop_last());
        assert((first + second).last() == second.last());
        processes_are_read_line_by_line(first, second.drop_last());
        assert(processes_in(first + second) =~= processes_in(first) + processes_in(second));
    }
}

/// The argument stands alone somewhere in the command.
pub open spec fn stands_alone_in(command: Seq<char>, argument: Seq<char>) -> bool {
    exists|i: int| #[trigger]
        stands_at(command, argument, i) && stands_alone(command, i, argument.len() as int)
}

proof fn lemma_argument_from(command: Seq<char>, argument: Seq<char>, i: int, k: int)
    requires
        argument.len() > 0,
        forall|j: int| 0 <= j < argument.len() ==> !is_white(#[trigger] argument[j]),
        0 <= i <= k,
        stands_at(command, argument, k),
        stands_alone(command, k, argument.len() as int),
    ensures
        argument_from(command, argument, i),
    decreases k - i,
{
    let n = argument.len() as int;
    if stands_at(command, argument, i) && i < k {
        if i + n > k {
            assert(command.subrange(i, i + n)[k - 1 - i] == command[k - 1]);
            assert(!is_white(argument[k - 1 - i]));
        } else {
            lemma_argument_from(command, argument, i + n, k);
        }
    } else if i < k {
        lemma_argument_from(command, argument, i + 1, k);
    }
}

proof fn lemma_argument_stands(command: Seq<char>, argument: Seq<char>, i: int)
    requires
        argument_from(command, argument, i),
    ensures
        stands_alone_in(command, argument),
    decreases command.len() - i,
{
    if stands_at(command, argument, i) {
        if !stands_alone(command, i, argument.len() as int) {
            lemma_argument_stands(command, argument, i + argument.len());
        }
    } else {
        lemma_argument_stands(command, argument, i + 1);
    }
}

/// An argument is found exactly where it stands alone in the command, with white space or an end on
/// either side: no part of a longer word is taken for it.
pub proof fn an_argument_stands_alone(command: Seq<char>, argument: Seq<char>)
    requires
        argument.len() > 0,
        forall|j: int| 0 <= j < argument.len() ==> !is_white(#[trigger] argument[j]),
    ensures
        argument_from(command, argument, 0) <==> stands_alone_in(command, argument),
{
    if stands_alone_in(command, argument) {
        let k = choose|k: int| #[trigger]
            stands_at(command, argument, k) && stands_alone(command, k, argument.len() as int);
        lemma_argument_from(command, argument, 0, k);
    }
    if argument_from(command, argument, 0) {
        lemma_argument_stands(command, argument, 0);
    }
}

} // verus!
