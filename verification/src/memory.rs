//! A page-granular model of one process's user address space.
//!
//! Pages are mapped and unmapped whole; each mapped page holds `PAGE_SIZE`
//! bytes and its permission bits. The kernel reads and writes user memory
//! through this type, byte by byte or as page-bounded buffers.
use vstd::prelude::*;
use vstd::hash_map::HashMapWithView;
use crate::config::PAGE_SIZE;

verus! {

broadcast use vstd::std_specs::hash::group_hash_axioms;

/// Index of the virtual page that holds `addr`.
pub open spec fn vpn_of(addr: int) -> int {
    addr / PAGE_SIZE as int
}

/// Offset of `addr` inside its page.
pub open spec fn offset_of(addr: int) -> int {
    addr % PAGE_SIZE as int
}

/// The bytes of a sequence of buffers, one after another.
pub open spec fn flatten_bufs(bufs: Seq<Vec<u8>>) -> Seq<u8> {
    bufs.map_values(|b: Vec<u8>| b@).flatten()
}

/// Index one past the last page that `[start, start + len)` touches.
pub open spec fn end_page(start: int, len: int) -> int {
    (start + len + PAGE_SIZE as int - 1) / PAGE_SIZE as int
}

/// Page `vpn` is one of the pages that `[start, start + len)` touches.
pub open spec fn in_pages(vpn: int, start: int, len: int) -> bool {
    vpn_of(start) <= vpn < end_page(start, len)
}

/// Page `vpn` holds an address of the nonempty range `[start, start + len)`.
pub open spec fn touches(vpn: int, start: int, len: int) -> bool {
    len > 0 && vpn_of(start) <= vpn <= vpn_of(start + len - 1)
}

/// The pages of `[start, start + len)`, each with permission bits `perm`.
pub open spec fn range_pages(start: int, len: int, perm: usize) -> Map<usize, usize> {
    Map::new(|vpn: usize| in_pages(vpn as int, start, len), |vpn: usize| perm)
}

/// One mapped page.
struct Frame {
    perm: usize,
    data: Vec<u8>,
}

/// The user address space of one process.
pub struct UserMemory {
    frames: HashMapWithView<usize, Frame>,
}

/// Appending a buffer appends its bytes.
pub proof fn lemma_flatten_bufs_push(bufs: Seq<Vec<u8>>, b: Vec<u8>)
    ensures
        flatten_bufs(bufs.push(b)) == flatten_bufs(bufs) + b@,
{
    assert(bufs.push(b).map_values(|b: Vec<u8>| b@) =~= bufs.map_values(|b: Vec<u8>| b@).push(b@));
    bufs.map_values(|b: Vec<u8>| b@).lemma_flatten_push(b@);
}

impl UserMemory {
    /// Every mapped page holds exactly `PAGE_SIZE` bytes.
    #[verifier::type_invariant]
    spec fn wf(&self) -> bool {
        forall|vpn: usize| #[trigger]
            self.frames@.contains_key(vpn) ==> self.frames@[vpn].data@.len() == PAGE_SIZE
    }

    /// The mapped virtual pages, each with its permission bits.
    pub closed spec fn pages(&self) -> Map<usize, usize> {
        self.frames@.map_values(|f: Frame| f.perm)
    }

    /// `addr` lies in a mapped page.
    pub open spec fn is_mapped(&self, addr: int) -> bool {
        0 <= addr <= usize::MAX && self.pages().contains_key(vpn_of(addr) as usize)
    }

    /// The byte at `addr`; an unmapped address reads as zero.
    pub closed spec fn byte(&self, addr: int) -> u8 {
        if self.is_mapped(addr) {
            self.frames@[vpn_of(addr) as usize].data@[offset_of(addr)]
        } else {
            0
        }
    }

    /// Every address of `[start, start + len)` is mapped.
    pub open spec fn range_mapped(&self, start: int, len: int) -> bool {
        forall|a: int| start <= a < start + len ==> #[trigger] self.is_mapped(a)
    }

    /// The `len` bytes starting at `start`.
    pub open spec fn bytes(&self, start: int, len: nat) -> Seq<u8> {
        Seq::new(len, |i: int| self.byte(start + i))
    }

    /// Same pages as `other`, and the same bytes outside `[start, start + len)`.
    pub open spec fn same_outside(&self, other: &UserMemory, start: int, len: int) -> bool {
        &&& self.pages() == other.pages()
        &&& forall|a: int| (a < start || start + len <= a) ==> #[trigger] self.byte(a) == other.byte(a)
    }

    /// An empty address space.
    pub fn new() -> (m: UserMemory)
        ensures
            m.pages() == Map::<usize, usize>::empty(),
    {
        let m = UserMemory { frames: HashMapWithView::new() };
        assert(m.pages() =~= Map::<usize, usize>::empty());
        m
    }

    /// Whether page `vpn` is mapped.
    pub fn page_mapped(&self, vpn: usize) -> (r: bool)
        ensures
            r == self.pages().contains_key(vpn),
    {
        self.frames.contains_key(&vpn)
    }

    /// Map page `vpn`, zero-filled, with permission bits `perm`.
    pub fn map_page(&mut self, vpn: usize, perm: usize)
        requires
            !old(self).pages().contains_key(vpn),
        ensures
            final(self).pages() == old(self).pages().insert(vpn, perm),
            forall|a: int| #[trigger] final(self).byte(a) == old(self).byte(a) || vpn_of(a) == vpn,
            forall|a: int| vpn_of(a) == vpn ==> #[trigger] final(self).byte(a) == 0,
    {
        proof { use_type_invariant(&*self); }
        let data: Vec<u8> = vec![0u8; PAGE_SIZE];
        let mut frames = HashMapWithView::new();
        core::mem::swap(&mut frames, &mut self.frames);
        frames.insert(vpn, Frame { perm, data });
        self.frames = frames;
        assert(self.pages() =~= old(self).pages().insert(vpn, perm));
    }

    /// Unmap page `vpn`.
    pub fn unmap_page(&mut self, vpn: usize)
        requires
            old(self).pages().contains_key(vpn),
        ensures
            final(self).pages() == old(self).pages().remove(vpn),
            forall|a: int| vpn_of(a) != vpn ==> #[trigger] final(self).byte(a) == old(self).byte(a),
    {
        proof { use_type_invariant(&*self); }
        let mut frames = HashMapWithView::new();
        core::mem::swap(&mut frames, &mut self.frames);
        let _ = frames.remove(&vpn);
        self.frames = frames;
        assert(self.pages() =~= old(self).pages().remove(vpn));
    }

    /// The byte at a mapped address.
    pub fn read_byte(&self, addr: usize) -> (r: u8)
        requires
            self.is_mapped(addr as int),
        ensures
            r == self.byte(addr as int),
    {
        proof { use_type_invariant(&*self); }
        let vpn = addr / PAGE_SIZE;
        let frame = self.frames.get(&vpn).unwrap();
        frame.data[addr % PAGE_SIZE]
    }

    /// Store `v` at a mapped address.
    pub fn write_byte(&mut self, addr: usize, v: u8)
        requires
            old(self).is_mapped(addr as int),
        ensures
            final(self).byte(addr as int) == v,
            final(self).same_outside(old(self), addr as int, 1),
    {
        proof { use_type_invariant(&*self); }
        let vpn = addr / PAGE_SIZE;
        let mut frames = HashMapWithView::new();
        core::mem::swap(&mut frames, &mut self.frames);
        let mut frame = frames.remove(&vpn).unwrap();
        frame.data.set(addr % PAGE_SIZE, v);
        frames.insert(vpn, frame);
        self.frames = frames;
        assert(self.pages() =~= old(self).pages());
    }

    /// The `len` bytes starting at `start`, all of them mapped.
    pub fn read_bytes(&self, start: usize, len: usize) -> (r: Vec<u8>)
        requires
            start + len <= usize::MAX + 1,
            self.range_mapped(start as int, len as int),
        ensures
            r@ == self.bytes(start as int, len as nat),
    {
        let mut r: Vec<u8> = Vec::new();
        let mut i: usize = 0;
        while i < len
            invariant
                i <= len,
                start + len <= usize::MAX + 1,
                self.range_mapped(start as int, len as int),
                r@ =~= self.bytes(start as int, i as nat),
            decreases len - i,
        {
            assert(self.is_mapped(start + i));
            let b = self.read_byte(start + i);
            r.push(b);
            i = i + 1;
            assert(r@ =~= self.bytes(start as int, i as nat));
        }
        r
    }

    /// Store `bytes` at `start`, all of whose addresses are mapped.
    pub fn write_bytes(&mut self, start: usize, bytes: &[u8])
        requires
            start + bytes@.len() <= usize::MAX + 1,
            old(self).range_mapped(start as int, bytes@.len() as int),
        ensures
            final(self).bytes(start as int, bytes@.len()) == bytes@,
            final(self).same_outside(old(self), start as int, bytes@.len() as int),
    {
        let n = bytes.len();
        let mut i: usize = 0;
        while i < n
            invariant
                i <= n,
                n == bytes@.len(),
                start + n <= usize::MAX + 1,
                self.pages() == old(self).pages(),
                old(self).range_mapped(start as int, n as int),
                forall|a: int| start <= a < start + i ==> #[trigger] self.byte(a) == bytes@[a - start],
                forall|a: int| (a < start || start + i <= a) ==> #[trigger] self.byte(a) == old(self).byte(a),
            decreases n - i,
        {
            assert(old(self).is_mapped(start + i));
            assert(self.is_mapped(start + i));
            self.write_byte(start + i, bytes[i]);
            i = i + 1;
        }
        assert(self.bytes(start as int, bytes@.len()) =~= bytes@);
    }

    /// The page-bounded pieces of `[start, start + len)`, in address order.
    pub fn translated_byte_buffer(&self, start: usize, len: usize) -> (bufs: Vec<Vec<u8>>)
        requires
            start + len <= usize::MAX + 1,
            self.range_mapped(start as int, len as int),
        ensures
            flatten_bufs(bufs@) == self.bytes(start as int, len as nat),
            forall|i: int| 0 <= i < bufs@.len() ==> 0 < #[trigger] bufs@[i]@.len() <= PAGE_SIZE,
            forall|i: int| 0 <= i < bufs@.len() - 1
                ==> (start + #[trigger] flatten_bufs(bufs@.take(i + 1)).len()) % PAGE_SIZE as int == 0,
    {
        let mut done: usize = 0;
        let mut bufs: Vec<Vec<u8>> = Vec::new();
        while done < len
            invariant
                done <= len,
                start + len <= usize::MAX + 1,
                self.range_mapped(start as int, len as int),
                flatten_bufs(bufs@) == self.bytes(start as int, done as nat),
                forall|i: int| 0 <= i < bufs@.len() ==> 0 < #[trigger] bufs@[i]@.len() <= PAGE_SIZE,
                forall|i: int| 0 <= i < bufs@.len() - 1
                    ==> (start + #[trigger] flatten_bufs(bufs@.take(i + 1)).len()) % PAGE_SIZE as int == 0,
                bufs@.len() > 0 ==> (start + done) % PAGE_SIZE as int == 0 || done == len,
            decreases len - done,
        {
            let cur = start + done;
            let room = PAGE_SIZE - cur % PAGE_SIZE;
            let left = len - done;
            let chunk_len = if left < room { left } else { room };
            let chunk = self.read_bytes(cur, chunk_len);
            proof {
                let old_bufs = bufs@;
                assert forall|i: int| 0 <= i < old_bufs.push(chunk).len() - 1 implies
                    (start + #[trigger] flatten_bufs(old_bufs.push(chunk).take(i + 1)).len()) % PAGE_SIZE as int == 0 by {
                    assert(old_bufs.push(chunk).take(i + 1) =~= old_bufs.take(i + 1));
                    if i == old_bufs.len() - 1 {
                        assert(old_bufs.take(i + 1) =~= old_bufs);
                    }
                }
                lemma_flatten_bufs_push(bufs@, chunk);
                assert(self.bytes(start as int, done as nat) + self.bytes(cur as int, chunk_len as nat)
                    =~= self.bytes(start as int, (done + chunk_len) as nat));
            }
            bufs.push(chunk);
            done = done + chunk_len;
        }
        bufs
    }

    /// Store the concatenation of `bufs` at `start`.
    pub fn write_buffers(&mut self, start: usize, bufs: &Vec<Vec<u8>>)
        requires
            start + flatten_bufs(bufs@).len() <= usize::MAX + 1,
            old(self).range_mapped(start as int, flatten_bufs(bufs@).len() as int),
        ensures
            final(self).bytes(start as int, flatten_bufs(bufs@).len()) == flatten_bufs(bufs@),
            final(self).same_outside(old(self), start as int, flatten_bufs(bufs@).len() as int),
    {
        let mut all: Vec<u8> = Vec::new();
        let mut i: usize = 0;
        while i < bufs.len()
            invariant
                i <= bufs@.len(),
                all@ == flatten_bufs(bufs@.take(i as int)),
            decreases bufs@.len() - i,
        {
            proof {
                lemma_flatten_bufs_push(bufs@.take(i as int), bufs@[i as int]);
                assert(bufs@.take(i as int).push(bufs@[i as int]) =~= bufs@.take(i + 1));
            }
            let mut j: usize = 0;
            let ghost before = all@;
            while j < bufs[i].len()
                invariant
                    i < bufs@.len(),
                    j <= bufs@[i as int]@.len(),
                    all@ == before + bufs@[i as int]@.take(j as int),
                decreases bufs@[i as int]@.len() - j,
            {
                all.push(bufs[i][j]);
                j = j + 1;
                assert(all@ =~= before + bufs@[i as int]@.take(j as int));
            }
            assert(bufs@[i as int]@.take(j as int) =~= bufs@[i as int]@);
            i = i + 1;
        }
        assert(bufs@.take(i as int) =~= bufs@);
        self.write_bytes(start, all.as_slice());
    }
    /// The NUL-terminated string at `ptr` ends at `ptr + n`, within mapped memory.
    pub open spec fn c_string_at(&self, ptr: int, n: nat) -> bool {
        &&& ptr + n <= usize::MAX
        &&& self.range_mapped(ptr, n + 1int)
        &&& self.byte(ptr + n) == 0
        &&& forall|i: int| 0 <= i < n ==> #[trigger] self.byte(ptr + i) != 0
    }

    /// The bytes of the NUL-terminated string at `ptr`, without its NUL.
    pub open spec fn c_string(&self, ptr: int) -> Seq<u8> {
        self.bytes(ptr, choose|n: nat| #[trigger] self.c_string_at(ptr, n))
    }

    /// A string ends at its first NUL.
    pub proof fn lemma_c_string_unique(&self, ptr: int, n1: nat, n2: nat)
        requires
            self.c_string_at(ptr, n1),
            self.c_string_at(ptr, n2),
        ensures
            n1 == n2,
    {
        if n1 < n2 {
            assert(self.byte(ptr + n1) != 0);
        } else if n2 < n1 {
            assert(self.byte(ptr + n2) != 0);
        }
    }

    /// The bytes of the NUL-terminated string at `ptr`, without its NUL.
    pub fn translated_str(&self, ptr: usize) -> (r: Vec<u8>)
        requires
            exists|n: nat| #[trigger] self.c_string_at(ptr as int, n),
        ensures
            self.c_string_at(ptr as int, r@.len()),
            r@ == self.bytes(ptr as int, r@.len()),
            r@ == self.c_string(ptr as int),
    {
        let ghost n: nat = choose|n: nat| #[trigger] self.c_string_at(ptr as int, n);
        let mut r: Vec<u8> = Vec::new();
        let mut i: usize = 0;
        loop
            invariant
                self.c_string_at(ptr as int, n),
                i <= n,
                r@.len() == i,
                r@ =~= self.bytes(ptr as int, i as nat),
                forall|j: int| 0 <= j < i ==> #[trigger] self.byte(ptr + j) != 0,
            ensures
                i <= n,
                r@.len() == i,
                r@ =~= self.bytes(ptr as int, i as nat),
                self.byte(ptr + i) == 0,
                forall|j: int| 0 <= j < i ==> #[trigger] self.byte(ptr + j) != 0,
            decreases n - i,
        {
            assert(self.is_mapped(ptr + i));
            let b = self.read_byte(ptr + i);
            if b == 0 {
                break;
            }
            r.push(b);
            i = i + 1;
            assert(r@ =~= self.bytes(ptr as int, i as nat));
        }
        proof {
            let m = choose|m: nat| #[trigger] self.c_string_at(ptr as int, m);
            self.lemma_c_string_unique(ptr as int, m, r@.len());
        }
        r
    }

    /// Map every page that `[start, start + len)` touches, zero-filled, with
    /// permission bits `perm`. Fails, changing nothing, when one of them is
    /// already mapped.
    pub fn map_range(&mut self, start: usize, len: usize, perm: usize) -> (r: bool)
        requires
            start + len <= usize::MAX,
        ensures
            r == forall|vpn: usize| #[trigger] in_pages(vpn as int, start as int, len as int)
                ==> !old(self).pages().contains_key(vpn),
            r ==> final(self).pages() == old(self).pages().union_prefer_right(
                range_pages(start as int, len as int, perm)),
            r ==> forall|a: int| #[trigger] final(self).byte(a)
                == if in_pages(vpn_of(a), start as int, len as int) { 0 } else { old(self).byte(a) },
            !r ==> final(self).same_outside(old(self), 0, 0),
    {
        let end = start + len;
        let first = start / PAGE_SIZE;
        let last = if end % PAGE_SIZE == 0 { end / PAGE_SIZE } else { end / PAGE_SIZE + 1 };
        assert(last == end_page(start as int, len as int));
        let mut vpn = first;
        while vpn < last
            invariant
                first <= vpn,
                first == vpn_of(start as int),
                last == end_page(start as int, len as int),
                forall|v: usize| first <= v < vpn ==> !old(self).pages().contains_key(v),
                *self == *old(self),
            decreases last - vpn,
        {
            if self.page_mapped(vpn) {
                assert(in_pages(vpn as int, start as int, len as int));
                return false;
            }
            vpn = vpn + 1;
        }
        let mut vpn = first;
        while vpn < last
            invariant
                first <= vpn <= last || (vpn == first && last <= first),
                first == vpn_of(start as int),
                last == end_page(start as int, len as int),
                last <= usize::MAX / PAGE_SIZE + 1,
                forall|v: usize| in_pages(v as int, start as int, len as int) ==> !old(self).pages().contains_key(v),
                self.pages() == old(self).pages().union_prefer_right(
                    Map::new(|v: usize| first <= v < vpn, |v: usize| perm)),
                forall|a: int| #[trigger] self.byte(a)
                    == if first <= vpn_of(a) < vpn { 0 } else { old(self).byte(a) },
            decreases last - vpn,
        {
            assert(in_pages(vpn as int, start as int, len as int));
            assert(!self.pages().contains_key(vpn));
            self.map_page(vpn, perm);
            vpn = vpn + 1;
            assert(self.pages() =~= old(self).pages().union_prefer_right(
                Map::new(|v: usize| first <= v < vpn, |v: usize| perm)));
        }
        assert(old(self).pages().union_prefer_right(Map::new(|v: usize| first <= v < vpn, |v: usize| perm))
            =~= old(self).pages().union_prefer_right(range_pages(start as int, len as int, perm)));
        true
    }

    /// Unmap every page that `[start, start + len)` touches. Fails, changing
    /// nothing, when one of them is not mapped.
    pub fn unmap_range(&mut self, start: usize, len: usize) -> (r: bool)
        requires
            start + len <= usize::MAX,
        ensures
            r == forall|vpn: usize| #[trigger] in_pages(vpn as int, start as int, len as int)
                ==> old(self).pages().contains_key(vpn),
            r ==> final(self).pages() == old(self).pages().remove_keys(
                range_pages(start as int, len as int, 0).dom()),
            r ==> forall|a: int| !in_pages(vpn_of(a), start as int, len as int)
                ==> #[trigger] final(self).byte(a) == old(self).byte(a),
            !r ==> final(self).same_outside(old(self), 0, 0),
    {
        let end = start + len;
        let first = start / PAGE_SIZE;
        let last = if end % PAGE_SIZE == 0 { end / PAGE_SIZE } else { end / PAGE_SIZE + 1 };
        assert(last == end_page(start as int, len as int));
        let mut vpn = first;
        while vpn < last
            invariant
                first <= vpn,
                first == vpn_of(start as int),
                last == end_page(start as int, len as int),
                forall|v: usize| first <= v < vpn ==> old(self).pages().contains_key(v),
                *self == *old(self),
            decreases last - vpn,
        {
            if !self.page_mapped(vpn) {
                assert(in_pages(vpn as int, start as int, len as int));
                return false;
            }
            vpn = vpn + 1;
        }
        let mut vpn = first;
        while vpn < last
            invariant
                first <= vpn <= last || (vpn == first && last <= first),
                first == vpn_of(start as int),
                last == end_page(start as int, len as int),
                forall|v: usize| in_pages(v as int, start as int, len as int) ==> old(self).pages().contains_key(v),
                self.pages() == old(self).pages().remove_keys(Set::new(|v: usize| first <= v < vpn)),
                forall|a: int| !(first <= vpn_of(a) < vpn) ==> #[trigger] self.byte(a) == old(self).byte(a),
            decreases last - vpn,
        {
            assert(in_pages(vpn as int, start as int, len as int));
            assert(self.pages().contains_key(vpn));
            self.unmap_page(vpn);
            vpn = vpn + 1;
            assert(self.pages() =~= old(self).pages().remove_keys(Set::new(|v: usize| first <= v < vpn)));
        }
        assert(Set::new(|v: usize| first <= v < vpn) =~= range_pages(start as int, len as int, 0).dom());
        true
    }
    /// An address outside the mapped pages reads as zero.
    pub proof fn lemma_unmapped_reads_zero(&self, addr: int)
        requires
            !self.is_mapped(addr),
        ensures
            self.byte(addr) == 0,
    {
    }

    /// Map, zero-filled and with permission bits `perm`, every page that
    /// `[start, start + len)` touches and that is not mapped yet. Pages
    /// already mapped keep their bits and bytes; no byte changes.
    pub fn map_missing(&mut self, start: usize, len: usize, perm: usize)
        requires
            start + len <= usize::MAX + 1,
        ensures
            final(self).range_mapped(start as int, len as int),
            forall|vpn: usize| #[trigger] final(self).pages().contains_key(vpn)
                <==> old(self).pages().contains_key(vpn) || touches(vpn as int, start as int, len as int),
            forall|vpn: usize| #[trigger] old(self).pages().contains_key(vpn)
                ==> final(self).pages()[vpn] == old(self).pages()[vpn],
            forall|vpn: usize| touches(vpn as int, start as int, len as int)
                && !old(self).pages().contains_key(vpn) ==> #[trigger] final(self).pages()[vpn] == perm,
            forall|a: int| #[trigger] final(self).byte(a) == old(self).byte(a),
    {
        if len == 0 {
            return;
        }
        let last_addr = start + (len - 1);
        let first = start / PAGE_SIZE;
        let last = last_addr / PAGE_SIZE;
        let mut vpn = first;
        while vpn <= last
            invariant
                0 < len,
                last_addr == start + len - 1,
                first == vpn_of(start as int),
                last == vpn_of(last_addr as int),
                first <= vpn <= last + 1,
                forall|v: usize| #[trigger] self.pages().contains_key(v)
                    <==> old(self).pages().contains_key(v) || (first <= v < vpn),
                forall|v: usize| #[trigger] old(self).pages().contains_key(v)
                    ==> self.pages()[v] == old(self).pages()[v],
                forall|v: usize| first <= v < vpn && !old(self).pages().contains_key(v)
                    ==> #[trigger] self.pages()[v] == perm,
                forall|a: int| #[trigger] self.byte(a) == old(self).byte(a),
            decreases last + 1 - vpn,
        {
            if !self.page_mapped(vpn) {
                let ghost before = *self;
                self.map_page(vpn, perm);
                assert forall|a: int| #[trigger] self.byte(a) == old(self).byte(a) by {
                    if vpn_of(a) == vpn && 0 <= a <= usize::MAX {
                        assert(!before.is_mapped(a));
                        assert(!old(self).is_mapped(a));
                    }
                }
            }
            vpn = vpn + 1;
        }
        assert forall|a: int| start <= a < start + len implies #[trigger] self.is_mapped(a) by {
            assert(first <= vpn_of(a) <= last);
        }
    }

    /// Whether every address of `[start, start + len)` is mapped.
    pub fn is_range_mapped(&self, start: usize, len: usize) -> (r: bool)
        requires
            start + len <= usize::MAX + 1,
        ensures
            r == self.range_mapped(start as int, len as int),
    {
        if len == 0 {
            return true;
        }
        let last_addr = start + (len - 1);
        let first = start / PAGE_SIZE;
        let last = last_addr / PAGE_SIZE;
        let mut vpn = first;
        while vpn <= last
            invariant
                0 < len,
                last_addr == start + len - 1,
                first == vpn_of(start as int),
                last == vpn_of(last_addr as int),
                first <= vpn <= last + 1,
                forall|v: int| first <= v < vpn ==> #[trigger] self.pages().contains_key(v as usize),
            decreases last + 1 - vpn,
        {
            if !self.page_mapped(vpn) {
                let ghost a: int = if vpn == first { start as int } else { vpn * PAGE_SIZE };
                assert(start <= a < start + len && vpn_of(a) == vpn);
                assert(!self.is_mapped(a));
                return false;
            }
            vpn = vpn + 1;
        }
        assert forall|a: int| start <= a < start + len implies #[trigger] self.is_mapped(a) by {
            assert(first <= vpn_of(a) <= last);
            assert(self.pages().contains_key(vpn_of(a) as usize));
        }
        true
    }
}

/// Unmapping the pages that a successful map of the same range added gives
/// back the pages mapped before.
pub proof fn lemma_unmap_undoes_map(pages: Map<usize, usize>, start: int, len: int, perm: usize)
    requires
        forall|vpn: usize| #[trigger] in_pages(vpn as int, start, len) ==> !pages.contains_key(vpn),
    ensures
        pages.union_prefer_right(range_pages(start, len, perm)).remove_keys(range_pages(start, len, 0).dom())
            == pages,
{
    assert(pages.union_prefer_right(range_pages(start, len, perm)).remove_keys(range_pages(start, len, 0).dom())
        =~= pages);
}

/// After a successful map of a nonempty range, mapping it again fails: all
/// its pages are then mapped.
pub proof fn lemma_map_twice_fails(pages: Map<usize, usize>, start: usize, len: usize, perm: usize)
    requires
        len > 0,
        start + len <= usize::MAX,
    ensures
        !(forall|vpn: usize| #[trigger] in_pages(vpn as int, start as int, len as int)
            ==> !pages.union_prefer_right(range_pages(start as int, len as int, perm)).contains_key(vpn)),
{
    let v = (start / PAGE_SIZE) as usize;
    assert(in_pages(v as int, start as int, len as int));
}

} // verus!
