//! File-system system calls.
use vstd::prelude::*;
use crate::init_info::{le_bytes, le_bytes_u32, push_word};
use crate::memory::{UserMemory, flatten_bufs};
use crate::config::PAGE_SIZE;

verus! {

/// Size of a `Stat` record in user memory, in bytes.
pub const STAT_SIZE: usize = 80;

/// The status of a file: device, inode number, mode bits and link count.
/// In user memory it takes `STAT_SIZE` bytes: two 64-bit words, two 32-bit
/// words and seven words of padding.
#[derive(Debug, Clone, Copy, PartialEq, Eq, Structural)]
pub struct Stat {
    pub dev: u64,
    pub ino: u64,
    pub mode: u32,
    pub nlink: u32,
}

/// An open file, as far as `sys_fstat` sees it: the status it reports,
/// if it reports one.
#[derive(Debug, Clone, Copy, PartialEq, Eq, Structural)]
pub struct OpenFile {
    pub stat: Option<Stat>,
}

/// The bytes of `st` in user memory.
pub open spec fn stat_bytes(st: Stat) -> Seq<u8> {
    le_bytes(st.dev) + le_bytes(st.ino) + le_bytes_u32(st.mode) + le_bytes_u32(st.nlink)
        + Seq::new(56, |i: int| 0u8)
}

impl Stat {
    /// Its bytes in user memory.
    pub fn to_bytes(&self) -> (r: Vec<u8>)
        ensures
            r@ == stat_bytes(*self),
    {
        let mut r: Vec<u8> = Vec::new();
        push_word(&mut r, self.dev);
        push_word(&mut r, self.ino);
        let ghost prefix = r@;
        let mut k: u32 = 0;
        while k < 4
            invariant
                k <= 4,
                r@ =~= prefix + le_bytes_u32(self.mode).take(k as int),
            decreases 4 - k,
        {
            r.push((self.mode >> (8 * k)) as u8);
            k = k + 1;
            assert(r@ =~= prefix + le_bytes_u32(self.mode).take(k as int));
        }
        let ghost prefix = r@;
        let mut k: u32 = 0;
        while k < 4
            invariant
                k <= 4,
                r@ =~= prefix + le_bytes_u32(self.nlink).take(k as int),
            decreases 4 - k,
        {
            r.push((self.nlink >> (8 * k)) as u8);
            k = k + 1;
            assert(r@ =~= prefix + le_bytes_u32(self.nlink).take(k as int));
        }
        let ghost prefix = r@;
        let mut k: usize = 0;
        while k < 56
            invariant
                k <= 56,
                r@ =~= prefix + Seq::new(k as nat, |i: int| 0u8),
            decreases 56 - k,
        {
            r.push(0u8);
            k = k + 1;
        }
        assert(le_bytes_u32(self.mode).take(4) =~= le_bytes_u32(self.mode));
        assert(le_bytes_u32(self.nlink).take(4) =~= le_bytes_u32(self.nlink));
        r
    }
}

/// Store the status of the file open as `fd` at `st` and return 0; -1,
/// changing nothing, when `fd` is not open.
pub fn sys_fstat(fd_table: &Vec<Option<OpenFile>>, fd: usize, memory: &mut UserMemory, st: usize) -> (r: isize)
    requires
        fd < fd_table@.len() && fd_table@[fd as int] is Some ==> {
            &&& fd_table@[fd as int]->0.stat is Some
            &&& st + STAT_SIZE <= usize::MAX + 1
            &&& old(memory).range_mapped(st as int, STAT_SIZE as int)
        },
    ensures
        fd >= fd_table@.len() || fd_table@[fd as int] is None ==> {
            &&& r == -1
            &&& final(memory).same_outside(old(memory), 0, 0)
        },
        fd < fd_table@.len() && fd_table@[fd as int] is Some ==> {
            &&& r == 0
            &&& final(memory).bytes(st as int, STAT_SIZE as nat)
                == stat_bytes(fd_table@[fd as int]->0.stat->0)
            &&& final(memory).same_outside(old(memory), st as int, STAT_SIZE as int)
        },
{
    if fd >= fd_table.len() {
        return -1;
    }
    if let Some(file) = &fd_table[fd] {
        let stat = file.stat.unwrap();
        let bytes = stat.to_bytes();
        memory.write_bytes(st, bytes.as_slice());
        return 0;
    }
    -1
}

/// Install `file`, the result of opening a path, at the lowest free
/// descriptor (growing the table when none is free) and return that
/// descriptor; -1 when the path could not be opened.
pub fn sys_open(fd_table: &mut Vec<Option<OpenFile>>, file: Option<OpenFile>) -> (r: isize)
    requires
        old(fd_table)@.len() < isize::MAX,
    ensures
        file is None ==> r == -1 && final(fd_table)@ == old(fd_table)@,
        file is Some ==> {
            &&& 0 <= r <= old(fd_table)@.len()
            &&& forall|j: int| 0 <= j < r ==> #[trigger] old(fd_table)@[j] is Some
            &&& r < old(fd_table)@.len() ==> old(fd_table)@[r as int] is None
                && final(fd_table)@ == old(fd_table)@.update(r as int, file)
            &&& r == old(fd_table)@.len() ==> final(fd_table)@ == old(fd_table)@.push(file)
        },
{
    if file.is_none() {
        return -1;
    }
    let mut fd: usize = 0;
    while fd < fd_table.len()
        invariant
            fd <= fd_table@.len(),
            file is Some,
            old(fd_table)@.len() < isize::MAX,
            fd_table@ == old(fd_table)@,
            forall|j: int| 0 <= j < fd ==> #[trigger] fd_table@[j] is Some,
        decreases fd_table@.len() - fd,
    {
        if fd_table[fd].is_none() {
            fd_table.set(fd, file);
            return fd as isize;
        }
        fd = fd + 1;
    }
    fd_table.push(file);
    fd as isize
}

/// Close descriptor `fd` and return 0; -1, changing nothing, when it is
/// not open.
pub fn sys_close(fd_table: &mut Vec<Option<OpenFile>>, fd: usize) -> (r: isize)
    ensures
        fd < old(fd_table)@.len() && old(fd_table)@[fd as int] is Some ==> {
            &&& r == 0
            &&& final(fd_table)@ == old(fd_table)@.update(fd as int, None)
        },
        fd >= old(fd_table)@.len() || old(fd_table)@[fd as int] is None ==> {
            &&& r == -1
            &&& final(fd_table)@ == old(fd_table)@
        },
{
    if fd >= fd_table.len() {
        return -1;
    }
    if fd_table[fd].is_none() {
        return -1;
    }
    fd_table.set(fd, None);
    0
}

/// The descriptor of standard output.
pub const FD_STDOUT: usize = 1;

/// The page pieces of the `len` bytes at `buf` that `sys_write` sends to
/// standard output, in order; `None` when `fd` is not standard output or
/// the bytes are not all mapped. The pieces end at page boundaries.
pub fn sys_write_pieces(memory: &UserMemory, fd: usize, buf: usize, len: usize) -> (r: Option<Vec<Vec<u8>>>)
    ensures
        r is Some <==> fd == FD_STDOUT && buf + len <= usize::MAX + 1 && memory.range_mapped(buf as int, len as int),
        r matches Some(p) ==> {
            &&& flatten_bufs(p@) == memory.bytes(buf as int, len as nat)
            &&& forall|i: int| 0 <= i < p@.len() ==> 0 < #[trigger] p@[i]@.len() <= PAGE_SIZE
            &&& forall|i: int| 0 <= i < p@.len() - 1
                ==> (buf + #[trigger] flatten_bufs(p@.take(i + 1)).len()) % PAGE_SIZE as int == 0
        },
{
    if fd != FD_STDOUT || buf as u128 + len as u128 > usize::MAX as u128 + 1 {
        return None;
    }
    if !memory.is_range_mapped(buf, len) {
        return None;
    }
    Some(memory.translated_byte_buffer(buf, len))
}

/// The two paths of `linkat`, read from the NUL-terminated strings at
/// `old_name` and `new_name`; the file system then links the second to the
/// first, and its answer is the call's result.
pub fn sys_linkat(memory: &UserMemory, old_name: usize, new_name: usize) -> (r: (Vec<u8>, Vec<u8>))
    requires
        exists|n: nat| #[trigger] memory.c_string_at(old_name as int, n),
        exists|n: nat| #[trigger] memory.c_string_at(new_name as int, n),
    ensures
        r.0@ == memory.c_string(old_name as int),
        r.1@ == memory.c_string(new_name as int),
{
    let old_path = memory.translated_str(old_name);
    let new_path = memory.translated_str(new_name);
    (old_path, new_path)
}

/// The path of `unlinkat`, read from the NUL-terminated string at `name`;
/// the file system then unlinks it, and its answer is the call's result.
pub fn sys_unlinkat(memory: &UserMemory, name: usize) -> (r: Vec<u8>)
    requires
        exists|n: nat| #[trigger] memory.c_string_at(name as int, n),
    ensures
        r@ == memory.c_string(name as int),
{
    memory.translated_str(name)
}

} // verus!
