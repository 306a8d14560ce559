//! Process-management system calls.
use vstd::prelude::*;
use crate::config::PAGE_SIZE;
use crate::init_info::{le_bytes, le_bytes_u32, push_word};
use crate::memory::{UserMemory, range_pages, in_pages, vpn_of};
use crate::trap::TrapContext;

verus! {

/// Seconds and microseconds, as `sys_get_time` stores them.
#[derive(Debug, Clone, Copy, PartialEq, Eq, Structural)]
pub struct TimeVal {
    pub sec: usize,
    pub usec: usize,
}

/// Status and system-call count of a task.
#[derive(Debug, Clone, Copy, PartialEq, Eq, Structural)]
pub struct TaskInfo {
    pub status: usize,
    pub syscall_times: usize,
}

/// A child of the current task, as `sys_waitpid` sees it.
#[derive(Debug, Clone, Copy, PartialEq, Eq, Structural)]
pub struct ChildTask {
    pub pid: usize,
    /// The child has exited and waits to be reaped.
    pub zombie: bool,
    pub exit_code: i32,
}

/// The permission bits `sys_mmap` accepts: read, write, execute.
pub const PORT_MASK: usize = 0b111;

/// The four little-endian bytes of `v`.
pub open spec fn le_bytes_i32(v: i32) -> Seq<u8> {
    le_bytes_u32(v as u32)
}

/// The sixteen bytes of the time `us` microseconds after boot, as a
/// `TimeVal`: whole seconds, then the remaining microseconds.
pub open spec fn time_val_bytes(us: usize) -> Seq<u8> {
    le_bytes((us / 1_000_000) as u64) + le_bytes((us % 1_000_000) as u64)
}

impl TimeVal {
    /// The time `us` microseconds after boot.
    pub fn from_us(us: usize) -> (tv: TimeVal)
        ensures
            tv.sec == us / 1_000_000,
            tv.usec == us % 1_000_000,
            tv.sec * 1_000_000 + tv.usec == us,
            tv.usec < 1_000_000,
    {
        TimeVal { sec: us / 1_000_000, usec: us % 1_000_000 }
    }

    /// Its sixteen bytes in user memory.
    pub fn to_bytes(&self) -> (r: Vec<u8>)
        ensures
            r@ == le_bytes(self.sec as u64) + le_bytes(self.usec as u64),
    {
        let mut r: Vec<u8> = Vec::new();
        push_word(&mut r, self.sec as u64);
        push_word(&mut r, self.usec as u64);
        r
    }
}

/// Store the time, `us` microseconds after boot, as a `TimeVal` at `ts`.
pub fn sys_get_time(memory: &mut UserMemory, ts: usize, _tz: usize, us: usize) -> (r: isize)
    requires
        ts + 16 <= usize::MAX + 1,
        old(memory).range_mapped(ts as int, 16),
    ensures
        r == 0,
        final(memory).bytes(ts as int, 16) == time_val_bytes(us),
        final(memory).same_outside(old(memory), ts as int, 16),
        le_value(final(memory).bytes(ts as int, 16).subrange(0, 8)) * 1_000_000
            + le_value(final(memory).bytes(ts as int, 16).subrange(8, 16)) == us,
        le_value(final(memory).bytes(ts as int, 16).subrange(8, 16)) < 1_000_000,
{
    let time_val = TimeVal::from_us(us);
    let bytes = time_val.to_bytes();
    memory.write_bytes(ts, bytes.as_slice());
    proof { lemma_time_val_round_trip(us); }
    0
}

/// `sys_mmap` accepts `start` and `port`: `start` is page-aligned and
/// `port` asks for some of read, write and execute and nothing else.
pub open spec fn mmap_args_ok(start: usize, port: usize) -> bool {
    &&& start % PAGE_SIZE == 0
    &&& port & !PORT_MASK == 0
    &&& port & PORT_MASK != 0
}

/// Map the pages of `[start, start + len)` with permissions `port`.
/// Returns 0 on success; -1, changing nothing, when the arguments are
/// refused or a page is already mapped.
pub fn sys_mmap(memory: &mut UserMemory, start: usize, len: usize, port: usize) -> (r: isize)
    requires
        mmap_args_ok(start, port) ==> start + len <= usize::MAX,
    ensures
        r == 0 || r == -1,
        r == 0 ==> start % PAGE_SIZE == 0 && 1 <= port <= 7,
        start % PAGE_SIZE == 0 && 1 <= port <= 7 && (forall|vpn: usize|
            #[trigger] crate::memory::in_pages(vpn as int, start as int, len as int)
            ==> !old(memory).pages().contains_key(vpn)) ==> r == 0,
        r == 0 <==> mmap_args_ok(start, port) && forall|vpn: usize|
            #[trigger] crate::memory::in_pages(vpn as int, start as int, len as int)
            ==> !old(memory).pages().contains_key(vpn),
        r == 0 ==> final(memory).pages() == old(memory).pages().union_prefer_right(
            range_pages(start as int, len as int, port)),
        r == 0 ==> forall|a: int| #[trigger] final(memory).byte(a)
            == if crate::memory::in_pages(crate::memory::vpn_of(a), start as int, len as int) { 0 } else { old(memory).byte(a) },
        r == -1 ==> final(memory).same_outside(old(memory), 0, 0),
{
    let aligned_start = start % PAGE_SIZE == 0;
    let port_valid = (port & !PORT_MASK) == 0;
    let port_not_none = (port & PORT_MASK) != 0;
    proof { lemma_mmap_args_ok(start, port); }
    if aligned_start && port_valid && port_not_none {
        return if memory.map_range(start, len, port) { 0 } else { -1 };
    }
    -1
}

/// Unmap the pages of `[start, start + len)`. Returns 0 on success; -1,
/// changing nothing, when `start` is not page-aligned or a page is not
/// mapped.
pub fn sys_munmap(memory: &mut UserMemory, start: usize, len: usize) -> (r: isize)
    requires
        start % PAGE_SIZE == 0 ==> start + len <= usize::MAX,
    ensures
        r == 0 || r == -1,
        r == 0 <==> start % PAGE_SIZE == 0 && forall|vpn: usize|
            #[trigger] crate::memory::in_pages(vpn as int, start as int, len as int)
            ==> old(memory).pages().contains_key(vpn),
        r == 0 ==> final(memory).pages() == old(memory).pages().remove_keys(
            range_pages(start as int, len as int, 0).dom()),
        r == 0 ==> forall|a: int| !crate::memory::in_pages(crate::memory::vpn_of(a), start as int, len as int)
            ==> #[trigger] final(memory).byte(a) == old(memory).byte(a),
        r == -1 ==> final(memory).same_outside(old(memory), 0, 0),
{
    let aligned_start = start % PAGE_SIZE == 0;
    if aligned_start {
        return if memory.unmap_range(start, len) { 0 } else { -1 };
    }
    -1
}

/// Set the current task's priority to `prio` when it is at least 2, and
/// return it; otherwise return -1 and keep the priority.
pub fn sys_set_priority(priority: &mut usize, prio: isize) -> (r: isize)
    ensures
        prio >= 2 ==> r == prio && *final(priority) == prio,
        prio < 2 ==> r == -1 && *final(priority) == *old(priority),
{
    if prio >= 2 {
        *priority = prio as usize;
        prio
    } else {
        -1
    }
}

/// The current task's pid.
pub fn sys_getpid(pid: usize) -> (r: isize)
    ensures
        r == pid as isize,
{
    pid as isize
}

/// Yield the processor; the scheduler then runs another task. Returns 0.
pub fn sys_yield() -> (r: isize)
    ensures
        r == 0,
{
    0
}

/// After a fork, make the child see 0 as the result of the call (in `a0`,
/// register `x10`) and return the child's pid to the parent.
pub fn sys_fork(child_cx: &mut TrapContext, new_pid: usize) -> (r: isize)
    ensures
        r == new_pid as isize,
        final(child_cx).x@ == old(child_cx).x@.update(10, 0),
        final(child_cx).sstatus == old(child_cx).sstatus,
        final(child_cx).sepc == old(child_cx).sepc,
{
    child_cx.x[10] = 0;
    new_pid as isize
}

/// The result of `sbrk`, given the old program break when the change was
/// made, or `None` when it was refused.
pub fn sys_sbrk(old_brk: Option<usize>) -> (r: isize)
    ensures
        match old_brk {
            Some(b) => r == b as isize,
            None => r == -1,
        },
{
    if let Some(b) = old_brk {
        b as isize
    } else {
        -1
    }
}

/// Child `c` is one that `sys_waitpid(pid, ..)` waits for: any child when
/// `pid` is -1, else the child whose pid is `pid`.
pub open spec fn pid_matches(pid: isize, c: ChildTask) -> bool {
    pid == -1 || pid as usize == c.pid
}

/// Child `idx` is the first that matches `pid` and has exited.
pub open spec fn first_zombie(children: Seq<ChildTask>, pid: isize, idx: int) -> bool {
    &&& 0 <= idx < children.len()
    &&& pid_matches(pid, children[idx])
    &&& children[idx].zombie
    &&& forall|j: int| 0 <= j < idx ==> !(pid_matches(pid, #[trigger] children[j]) && children[j].zombie)
}

/// No two children share a pid.
pub open spec fn distinct_pids(children: Seq<ChildTask>) -> bool {
    forall|i: int, j: int| 0 <= i < j < children.len() ==> #[trigger] children[i].pid != #[trigger] children[j].pid
}

/// Some child matches `pid` and has exited.
pub open spec fn has_zombie(children: Seq<ChildTask>, pid: isize) -> bool {
    exists|j: int| 0 <= j < children.len() && pid_matches(pid, #[trigger] children[j]) && children[j].zombie
}

/// Wait for a child: -1 when no child matches `pid`; -2 when some do but
/// none has exited; otherwise the first exited match is removed from
/// `children`, its exit code is stored at `exit_code_ptr`, and its pid is
/// returned.
pub fn sys_waitpid(
    children: &mut Vec<ChildTask>,
    memory: &mut UserMemory,
    pid: isize,
    exit_code_ptr: usize,
) -> (r: isize)
    requires
        has_zombie(old(children)@, pid) ==> {
            &&& exit_code_ptr + 4 <= usize::MAX + 1
            &&& old(memory).range_mapped(exit_code_ptr as int, 4)
        },
    ensures
        pid == -1 && (exists|j: int| 0 <= j < old(children)@.len() && (#[trigger] old(children)@[j]).zombie)
            ==> exists|idx: int| {
                &&& 0 <= idx < old(children)@.len()
                &&& (#[trigger] old(children)@[idx]).zombie
                &&& forall|j: int| 0 <= j < idx ==> !(#[trigger] old(children)@[j]).zombie
                &&& r == old(children)@[idx].pid as isize
                &&& final(children)@ == old(children)@.remove(idx)
            },
        pid == -1 && old(children)@.len() > 0 && (forall|j: int| 0 <= j < old(children)@.len()
            ==> !(#[trigger] old(children)@[j]).zombie) ==> r == -2,
        pid >= 0 && (forall|j: int| 0 <= j < old(children)@.len() ==> (#[trigger] old(children)@[j]).pid != pid)
            ==> r == -1,
        (forall|j: int| 0 <= j < old(children)@.len() ==> !pid_matches(pid, #[trigger] old(children)@[j]))
            ==> r == -1,
        !has_zombie(old(children)@, pid) && (exists|j: int|
            0 <= j < old(children)@.len() && pid_matches(pid, #[trigger] old(children)@[j])) ==> r == -2,
        !has_zombie(old(children)@, pid) ==> {
            &&& final(children)@ == old(children)@
            &&& final(memory).same_outside(old(memory), 0, 0)
        },
        has_zombie(old(children)@, pid) ==> exists|idx: int| {
            &&& #[trigger] first_zombie(old(children)@, pid, idx)
            &&& r == old(children)@[idx].pid as isize
            &&& final(children)@ == old(children)@.remove(idx)
            &&& final(memory).bytes(exit_code_ptr as int, 4) == le_bytes_i32(old(children)@[idx].exit_code)
            &&& final(memory).same_outside(old(memory), exit_code_ptr as int, 4)
            &&& distinct_pids(old(children)@) ==> {
                &&& distinct_pids(final(children)@)
                &&& forall|j: int| 0 <= j < final(children)@.len()
                    ==> #[trigger] final(children)@[j].pid != old(children)@[idx].pid
            }
        },
{
    // Does any child match?
    let mut any = false;
    let mut i: usize = 0;
    while i < children.len()
        invariant
            i <= children@.len(),
            any <==> exists|j: int| 0 <= j < i && pid_matches(pid, #[trigger] children@[j]),
        decreases children@.len() - i,
    {
        if pid == -1 || pid as usize == children[i].pid {
            any = true;
        }
        assert(pid_matches(pid, children@[i as int]) == (pid == -1 || pid as usize == children@[i as int].pid));
        i = i + 1;
    }
    if !any {
        if pid == -1 && children.len() > 0 {
            assert(pid_matches(pid, children@[0]));
        }
        return -1;
    }
    // Find the first exited match.
    let mut i: usize = 0;
    while i < children.len()
        invariant
            i <= children@.len(),
            forall|j: int| 0 <= j < i ==> !(pid_matches(pid, #[trigger] children@[j]) && children@[j].zombie),
        ensures
            i <= children@.len(),
            forall|j: int| 0 <= j < i ==> !(pid_matches(pid, #[trigger] children@[j]) && children@[j].zombie),
            i < children@.len() ==> pid_matches(pid, children@[i as int]) && children@[i as int].zombie,
        decreases children@.len() - i,
    {
        if (pid == -1 || pid as usize == children[i].pid) && children[i].zombie {
            break;
        }
        i = i + 1;
    }
    if i == children.len() {
        return -2;
    }
    assert(first_zombie(old(children)@, pid, i as int));
    proof {
        if distinct_pids(old(children)@) {
            lemma_reaped_child_gone(old(children)@, i as int);
            let rest = old(children)@.remove(i as int);
            assert forall|p: int, q: int| 0 <= p < q < rest.len() implies #[trigger] rest[p].pid != #[trigger] rest[q].pid by {
                let pp = if p < i { p } else { p + 1 };
                let qq = if q < i { q } else { q + 1 };
                assert(rest[p] == old(children)@[pp] && rest[q] == old(children)@[qq]);
            }
        }
    }
    let child = children.remove(i);
    let found_pid = child.pid;
    let exit_code = child.exit_code;
    let mut bytes: Vec<u8> = Vec::new();
    let mut k: u32 = 0;
    while k < 4
        invariant
            k <= 4,
            bytes@ =~= le_bytes_i32(exit_code).take(k as int),
        decreases 4 - k,
    {
        bytes.push(((exit_code as u32) >> (8 * k)) as u8);
        k = k + 1;
        assert(bytes@ =~= le_bytes_i32(exit_code).take(k as int));
    }
    assert(le_bytes_i32(exit_code).take(4) =~= le_bytes_i32(exit_code));
    memory.write_bytes(exit_code_ptr, bytes.as_slice());
    found_pid as isize
}

/// Whether two byte strings are equal.
pub fn bytes_equal(a: &[u8], b: &[u8]) -> (r: bool)
    ensures
        r == (a@ == b@),
{
    if a.len() != b.len() {
        return false;
    }
    let mut i: usize = 0;
    while i < a.len()
        invariant
            i <= a@.len(),
            a@.len() == b@.len(),
            forall|j: int| 0 <= j < i ==> a@[j] == b@[j],
        decreases a@.len() - i,
    {
        if a[i] != b[i] {
            return false;
        }
        i = i + 1;
    }
    assert(a@ =~= b@);
    true
}

/// App `i` is the first in `names` called `name`.
pub open spec fn first_named(names: Seq<Vec<u8>>, name: Seq<u8>, i: int) -> bool {
    &&& 0 <= i < names.len()
    &&& names[i]@ == name
    &&& forall|j: int| 0 <= j < i ==> #[trigger] names[j]@ != name
}

/// The index of the first app in `names` called `name`.
pub fn find_app(names: &Vec<Vec<u8>>, name: &[u8]) -> (r: Option<usize>)
    ensures
        match r {
            Some(i) => first_named(names@, name@, i as int),
            None => forall|j: int| 0 <= j < names@.len() ==> #[trigger] names@[j]@ != name@,
        },
        r matches Some(i) ==> i < names@.len() && names@[i as int]@ == name@
            && forall|j: int| 0 <= j < i ==> #[trigger] names@[j]@ != name@,
{
    let mut i: usize = 0;
    while i < names.len()
        invariant
            i <= names@.len(),
            forall|j: int| 0 <= j < i ==> #[trigger] names@[j]@ != name@,
        decreases names@.len() - i,
    {
        if bytes_equal(names[i].as_slice(), name) {
            return Some(i);
        }
        i = i + 1;
    }
    None
}

/// Decide `exec` of the program named by the string at `path`: 0 and the
/// app to run, if some app in `app_names` has that name; -1 otherwise.
pub fn sys_exec(memory: &UserMemory, path: usize, app_names: &Vec<Vec<u8>>) -> (r: (isize, Option<usize>))
    requires
        exists|n: nat| #[trigger] memory.c_string_at(path as int, n),
    ensures
        match r.1 {
            Some(i) => r.0 == 0 && first_named(app_names@, memory.c_string(path as int), i as int)
                && i < app_names@.len() && app_names@[i as int]@ == memory.c_string(path as int),
            None => r.0 == -1 && forall|j: int| 0 <= j < app_names@.len()
                ==> #[trigger] app_names@[j]@ != memory.c_string(path as int),
        },
{
    let path = memory.translated_str(path);
    match find_app(app_names, path.as_slice()) {
        Some(i) => (0, Some(i)),
        None => (-1, None),
    }
}

/// Decide `spawn` of the program named by the string at `path`: the new
/// task's pid `new_pid` and the app it runs, if some app in `app_names`
/// has that name; -1 otherwise.
pub fn sys_spawn(memory: &UserMemory, path: usize, app_names: &Vec<Vec<u8>>, new_pid: usize)
    -> (r: (isize, Option<usize>))
    requires
        exists|n: nat| #[trigger] memory.c_string_at(path as int, n),
    ensures
        match r.1 {
            Some(i) => r.0 == new_pid as isize && first_named(app_names@, memory.c_string(path as int), i as int)
                && i < app_names@.len() && app_names@[i as int]@ == memory.c_string(path as int),
            None => r.0 == -1 && forall|j: int| 0 <= j < app_names@.len()
                ==> #[trigger] app_names@[j]@ != memory.c_string(path as int),
        },
{
    let path = memory.translated_str(path);
    match find_app(app_names, path.as_slice()) {
        Some(i) => (new_pid as isize, Some(i)),
        None => (-1, None),
    }
}

/// Reaping removes the reaped child: when the children's pids are
/// distinct, no child left has the pid of the one removed.
pub proof fn lemma_reaped_child_gone(children: Seq<ChildTask>, idx: int)
    requires
        0 <= idx < children.len(),
        distinct_pids(children),
    ensures
        forall|j: int| 0 <= j < children.len() - 1 ==> #[trigger] children.remove(idx)[j].pid != children[idx].pid,
{
    assert forall|j: int| 0 <= j < children.len() - 1 implies #[trigger] children.remove(idx)[j].pid != children[idx].pid by {
        if j < idx {
            assert(children.remove(idx)[j] == children[j]);
        } else {
            assert(children.remove(idx)[j] == children[j + 1]);
        }
    }
}

/// Unmapping what a successful `mmap` mapped gives back the address space
/// as it was: the `munmap` of the same range succeeds (every page of it is
/// mapped in `m1`), and its result `m2` has the pages and bytes of `m0`.
pub proof fn lemma_munmap_undoes_mmap(m0: UserMemory, m1: UserMemory, m2: UserMemory, start: usize, len: usize, port: usize)
    requires
        start + len <= usize::MAX,
        forall|vpn: usize| #[trigger] in_pages(vpn as int, start as int, len as int)
            ==> !m0.pages().contains_key(vpn),
        m1.pages() == m0.pages().union_prefer_right(range_pages(start as int, len as int, port)),
        forall|a: int| #[trigger] m1.byte(a)
            == if in_pages(vpn_of(a), start as int, len as int) { 0 } else { m0.byte(a) },
        m2.pages() == m1.pages().remove_keys(range_pages(start as int, len as int, 0).dom()),
        forall|a: int| !in_pages(vpn_of(a), start as int, len as int) ==> #[trigger] m2.byte(a) == m1.byte(a),
    ensures
        forall|vpn: usize| #[trigger] in_pages(vpn as int, start as int, len as int)
            ==> m1.pages().contains_key(vpn),
        m2.pages() == m0.pages(),
        forall|a: int| #[trigger] m2.byte(a) == m0.byte(a),
{
    crate::memory::lemma_unmap_undoes_map(m0.pages(), start as int, len as int, port);
    assert forall|vpn: usize| #[trigger] in_pages(vpn as int, start as int, len as int)
        implies m1.pages().contains_key(vpn) by {
        assert(range_pages(start as int, len as int, port).contains_key(vpn));
    }
    assert forall|a: int| #[trigger] m2.byte(a) == m0.byte(a) by {
        if in_pages(vpn_of(a), start as int, len as int) {
            if 0 <= a <= usize::MAX {
                assert(range_pages(start as int, len as int, 0).dom().contains(vpn_of(a) as usize));
                assert(!m2.is_mapped(a));
                assert(!m0.is_mapped(a));
            }
            m2.lemma_unmapped_reads_zero(a);
            m0.lemma_unmapped_reads_zero(a);
        }
    }
}

/// The value of eight little-endian bytes.
pub open spec fn le_value(b: Seq<u8>) -> u64 {
    (b[0] as u64) | ((b[1] as u64) << 8u64) | ((b[2] as u64) << 16u64) | ((b[3] as u64) << 24u64)
        | ((b[4] as u64) << 32u64) | ((b[5] as u64) << 40u64) | ((b[6] as u64) << 48u64) | ((b[7]
        as u64) << 56u64)
}

/// Reading back eight little-endian bytes gives the word they were made
/// from.
pub proof fn lemma_le_value_of_le_bytes(w: u64)
    ensures
        le_value(le_bytes(w)) == w,
{
    let b = le_bytes(w);
    assert(b[0] == (w >> 0u64) as u8 && b[1] == (w >> 8u64) as u8 && b[2] == (w >> 16u64) as u8
        && b[3] == (w >> 24u64) as u8 && b[4] == (w >> 32u64) as u8 && b[5] == (w >> 40u64) as u8
        && b[6] == (w >> 48u64) as u8 && b[7] == (w >> 56u64) as u8);
    assert(((((w >> 0u64) as u8) as u64) | ((((w >> 8u64) as u8) as u64) << 8u64) | ((((w >> 16u64) as u8)
        as u64) << 16u64) | ((((w >> 24u64) as u8) as u64) << 24u64) | ((((w >> 32u64) as u8) as u64)
        << 32u64) | ((((w >> 40u64) as u8) as u64) << 40u64) | ((((w >> 48u64) as u8) as u64) << 48u64)
        | ((((w >> 56u64) as u8) as u64) << 56u64)) == w) by (bit_vector);
}

/// The time `sys_get_time` stores is the time it was given: the first
/// eight bytes read back as whole seconds and the next eight as the
/// microseconds left over, with `seconds * 1_000_000 + microseconds == us`
/// and fewer than a million microseconds.
pub proof fn lemma_time_val_round_trip(us: usize)
    ensures
        time_val_bytes(us).len() == 16,
        le_value(time_val_bytes(us).subrange(0, 8)) * 1_000_000 + le_value(
            time_val_bytes(us).subrange(8, 16),
        ) == us,
        le_value(time_val_bytes(us).subrange(8, 16)) < 1_000_000,
{
    let sec = (us / 1_000_000) as u64;
    let usec = (us % 1_000_000) as u64;
    assert(time_val_bytes(us).subrange(0, 8) =~= le_bytes(sec));
    assert(time_val_bytes(us).subrange(8, 16) =~= le_bytes(usec));
    lemma_le_value_of_le_bytes(sec);
    lemma_le_value_of_le_bytes(usec);
}

/// `sys_mmap` accepts exactly a page-aligned start and a permission in
/// `1..=7`: any non-empty combination of read, write and execute.
pub proof fn lemma_mmap_args_ok(start: usize, port: usize)
    ensures
        mmap_args_ok(start, port) <==> start % PAGE_SIZE == 0 && 1 <= port <= 7,
{
    assert((port & !0b111usize == 0 && port & 0b111usize != 0) <==> (1 <= port && port <= 7)) by (bit_vector);
}

/// `sys_waitpid(-1, ..)` waits for every child, whatever its state;
/// `sys_waitpid(p, ..)` with `p >= 0` waits for the child whose pid is `p`.
pub proof fn lemma_pid_matches(c: ChildTask)
    ensures
        pid_matches(-1isize, c),
        forall|p: isize| p >= 0 ==> (#[trigger] pid_matches(p, c) <==> c.pid == p),
{
}

/// The app `exec` and `spawn` pick has exactly the requested name, and no
/// app before it has that name.
pub proof fn lemma_first_named(names: Seq<Vec<u8>>, name: Seq<u8>, i: int)
    ensures
        first_named(names, name, i) <==> {
            &&& 0 <= i < names.len()
            &&& names[i]@ == name
            &&& forall|j: int| 0 <= j < i ==> #[trigger] names[j]@ != name
        },
{
}

} // verus!
