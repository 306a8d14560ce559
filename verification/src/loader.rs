//! The ELF program loader: checks a RISC-V 64-bit executable, copies its
//! loadable segments into user memory and builds the initial user stack.
use vstd::prelude::*;
use crate::elf::{ElfHeader, ProgramHeaderInfo, SegmentType, elf_header_of, program_header_of, read_elf_header, read_program_header};
use crate::memory::{UserMemory, flatten_bufs, lemma_flatten_bufs_push};
use crate::config::{PAGE_SIZE, AT_PHDR, AT_PHENT, AT_PHNUM, AT_PAGESZ, AT_RANDOM};
use crate::init_info::{InitInfo, stack_image, stack_image_len, c_strings, c_strings_len};
use vstd::utf8::encode_utf8;

verus! {

/// The bytes a segment occupies in memory: its `file_bytes`, then zeros up
/// to `mem_size` bytes (or the first `mem_size` file bytes, if fewer).
pub open spec fn segment_image(file_bytes: Seq<u8>, mem_size: nat) -> Seq<u8> {
    Seq::new(mem_size, |k: int| if k < file_bytes.len() { file_bytes[k] } else { 0u8 })
}

proof fn lemma_flatten_bufs_skip(s: Seq<Vec<u8>>, i: int)
    requires
        0 <= i < s.len(),
    ensures
        flatten_bufs(s.skip(i)) == s[i]@ + flatten_bufs(s.skip(i + 1)),
{
    let m = s.skip(i).map_values(|b: Vec<u8>| b@);
    assert(m.drop_first() =~= s.skip(i + 1).map_values(|b: Vec<u8>| b@));
    assert(m.first() == s[i]@);
}

/// Fill page pieces of a segment: the first `file_size` bytes come from
/// `input` at `offset`, the rest are zero (BSS). The pieces keep their
/// lengths.
pub fn fill_segment_buffers(buffers: &Vec<Vec<u8>>, input: &[u8], offset: usize, file_size: usize)
    -> (out: Vec<Vec<u8>>)
    requires
        offset + file_size <= input@.len(),
        flatten_bufs(buffers@).len() <= usize::MAX,
    ensures
        out@.len() == buffers@.len(),
        forall|i: int| 0 <= i < out@.len() ==> #[trigger] out@[i]@.len() == buffers@[i]@.len(),
        flatten_bufs(out@) == segment_image(
            input@.subrange(offset as int, offset + file_size),
            flatten_bufs(buffers@).len(),
        ),
{
    let input_len = input.len();
    let ghost data = input@.subrange(offset as int, offset + file_size);
    let ghost total = flatten_bufs(buffers@).len();
    let mut out: Vec<Vec<u8>> = Vec::new();
    let mut current_offset: usize = 0;
    let mut i: usize = 0;
    proof {
        assert(buffers@.skip(0) =~= buffers@);
        assert(out@.map_values(|b: Vec<u8>| b@) =~= Seq::<Seq<u8>>::empty());
        assert(segment_image(data, 0) =~= Seq::<u8>::empty());
    }
    while i < buffers.len()
        invariant
            i <= buffers@.len(),
            offset + file_size <= input@.len(),
            input@.len() == input_len,
            data == input@.subrange(offset as int, offset + file_size),
            total == flatten_bufs(buffers@).len(),
            total <= usize::MAX,
            current_offset + flatten_bufs(buffers@.skip(i as int)).len() == total,
            out@.len() == i,
            forall|k: int| 0 <= k < i ==> #[trigger] out@[k]@.len() == buffers@[k]@.len(),
            flatten_bufs(out@) == segment_image(data, current_offset as nat),
        decreases buffers@.len() - i,
    {
        proof { lemma_flatten_bufs_skip(buffers@, i as int); }
        let buffer_len = buffers[i].len();
        // Every byte of the piece is either copied from the file or is BSS,
        // so the piece starts out zeroed and the file part is copied in.
        let mut piece: Vec<u8> = vec![0u8; buffer_len];
        if current_offset < file_size {
            let copy_len = if file_size - current_offset < buffer_len {
                file_size - current_offset
            } else {
                buffer_len
            };
            let mut j: usize = 0;
            while j < copy_len
                invariant
                    j <= copy_len,
                    copy_len <= buffer_len,
                    current_offset + copy_len <= file_size,
                    offset + file_size <= input@.len(),
                    input@.len() == input_len,
                    piece@.len() == buffer_len,
                    forall|k: int| 0 <= k < j ==> #[trigger] piece@[k] == input@[offset + current_offset + k],
                    forall|k: int| j <= k < buffer_len ==> #[trigger] piece@[k] == 0,
                decreases copy_len - j,
            {
                piece.set(j, input[offset + current_offset + j]);
                j = j + 1;
            }
        }
        proof {
            lemma_flatten_bufs_push(out@, piece);
            assert(segment_image(data, current_offset as nat) + piece@
                =~= segment_image(data, (current_offset + buffer_len) as nat));
        }
        out.push(piece);
        current_offset = current_offset + buffer_len;
        i = i + 1;
    }
    proof {
        assert(buffers@.skip(i as int) =~= Seq::<Vec<u8>>::empty());
        assert(buffers@.skip(i as int).map_values(|b: Vec<u8>| b@) =~= Seq::<Seq<u8>>::empty());
    }
    out
}

/// The bytes of each argument.
pub open spec fn arg_strings(args: Seq<String>) -> Seq<Seq<u8>> {
    args.map_values(|s: String| encode_utf8(s@))
}

/// An ELF executable accepted for loading: a 64-bit RISC-V file.
pub struct ElfLoader<'a> {
    input: &'a [u8],
    header: ElfHeader,
}

/// Program header `index` lies inside a table of `count` entries of `size`
/// bytes at `offset`, itself inside a file of `len` bytes.
proof fn lemma_table_entry(offset: int, size: int, count: int, index: int, len: int)
    requires
        0 <= index < count,
        0 <= size,
        offset + count * size <= len,
        offset % 8 == 0,
        count <= 1 || size % 8 == 0,
    ensures
        offset + (index + 1) * size <= len,
        (offset + index * size) % 8 == 0,
{
    if index > 0 {
        let k = size / 8;
        assert(index * size == (index * k) * 8) by (nonlinear_arith)
            requires
                size == k * 8,
        ;
        vstd::arithmetic::div_mod::lemma_mod_multiples_basic(index * k, 8);
    }
    assert((index + 1) * size <= count * size) by (nonlinear_arith)
        requires
            index + 1 <= count,
            0 <= size,
    ;
}

impl<'a> ElfLoader<'a> {
    #[verifier::type_invariant]
    spec fn inv(self) -> bool {
        &&& elf_header_of(self.input@) == Some(self.header)
        &&& self.header.class == 2
        &&& self.header.riscv
    }

    /// The bytes of the file.
    pub closed spec fn data(self) -> Seq<u8> {
        self.input@
    }

    /// Its file header.
    pub closed spec fn header(self) -> ElfHeader {
        self.header
    }

    /// Program header `i`.
    pub open spec fn ph(self, i: int) -> ProgramHeaderInfo {
        program_header_of(self.data(), i as u16)
    }

    /// How many program headers `xmas_elf` hands out: none when the table
    /// offset or the entry size is zero.
    pub open spec fn iter_count(self) -> nat {
        if self.header().ph_offset == 0 || self.header().ph_entry_size == 0 {
            0
        } else {
            self.header().ph_count as nat
        }
    }

    /// The program header table lies inside the file, in entries large
    /// enough for 64-bit program headers, each starting at a multiple of
    /// eight bytes.
    pub open spec fn table_readable(self) -> bool {
        self.iter_count() > 0 ==> {
            &&& self.header().ph_entry_size >= 56
            &&& self.header().ph_offset + self.header().ph_count * self.header().ph_entry_size
                <= self.data().len()
            &&& self.header().ph_offset % 8 == 0
            &&& (self.header().ph_count <= 1 || self.header().ph_entry_size % 8 == 0)
        }
    }

    /// Segment `i`, if loadable, lies inside the file, fits the address
    /// space and is mapped in `mem`.
    pub open spec fn segment_fits(self, i: int, mem: UserMemory) -> bool {
        let ph = self.ph(i);
        ph.seg_type == SegmentType::Load ==> {
            &&& ph.offset + ph.file_size <= self.data().len()
            &&& ph.virtual_addr <= usize::MAX
            &&& ph.mem_size <= usize::MAX
            &&& ph.virtual_addr + ph.mem_size <= usize::MAX + 1
            &&& mem.range_mapped(ph.virtual_addr as int, ph.mem_size as int)
        }
    }

    /// No program header before `i` has an invalid type.
    pub open spec fn valid_before(self, i: int) -> bool {
        forall|j: int| 0 <= j < i ==> #[trigger] self.ph(j).seg_type != SegmentType::Invalid
    }

    /// `load_segments` can run on `mem` without a fault.
    pub open spec fn can_load(self, mem: UserMemory) -> bool {
        &&& self.table_readable()
        &&& forall|i: int| 0 <= i < self.iter_count() && #[trigger] self.valid_before(i)
            ==> self.segment_fits(i, mem)
    }

    /// Address `a` lies in loadable segment `i`.
    pub open spec fn in_segment(self, i: int, a: int) -> bool {
        let ph = self.ph(i);
        &&& ph.seg_type == SegmentType::Load
        &&& ph.virtual_addr <= a < ph.virtual_addr + ph.mem_size
    }

    /// The byte that segment `i` puts at address `a`.
    pub open spec fn segment_byte(self, i: int, a: int) -> u8 {
        let ph = self.ph(i);
        segment_image(
            self.data().subrange(ph.offset as int, ph.offset + ph.file_size),
            ph.mem_size as nat,
        )[a - ph.virtual_addr]
    }

    /// The byte at `a` once the first `n` program headers are loaded over
    /// `mem`: later segments overwrite earlier ones.
    pub open spec fn loaded_byte(self, mem: UserMemory, n: nat, a: int) -> u8
        decreases n,
    {
        if n == 0 {
            mem.byte(a)
        } else if self.in_segment(n - 1, a) {
            self.segment_byte(n - 1, a)
        } else {
            self.loaded_byte(mem, (n - 1) as nat, a)
        }
    }

    /// Accept `elf_data` if `xmas_elf` parses its header and it is a 64-bit
    /// RISC-V file.
    pub fn new(elf_data: &'a [u8]) -> (r: Result<Self, &'static str>)
        ensures
            match elf_header_of(elf_data@) {
                None => r == Err::<Self, &'static str>("Invalid ELF"),
                Some(h) => if h.class != 2 {
                    r == Err::<Self, &'static str>("32-bit ELF is not supported on the riscv64")
                } else if !h.riscv {
                    r == Err::<Self, &'static str>("invalid ELF arch")
                } else {
                    &&& r is Ok
                    &&& r->Ok_0.data() == elf_data@
                    &&& r->Ok_0.header() == h
                },
            },
    {
        let header = match read_elf_header(elf_data) {
            Some(h) => h,
            None => return Err("Invalid ELF"),
        };
        if header.class != 2 {
            return Err("32-bit ELF is not supported on the riscv64");
        }
        if !header.riscv {
            return Err("invalid ELF arch");
        }
        Ok(ElfLoader { input: elf_data, header })
    }

    /// The file's header.
    pub fn elf_header(&self) -> (h: ElfHeader)
        ensures
            h == self.header(),
            elf_header_of(self.data()) == Some(h),
            h.class == 2,
            h.riscv,
    {
        proof { use_type_invariant(self); }
        self.header
    }

    /// Copy every loadable segment into `memory`: its file bytes, then zeros
    /// up to its memory size. Stops with an error at the first program
    /// header of invalid type.
    pub fn load_segments(&self, memory: &mut UserMemory) -> (r: Result<(), &'static str>)
        requires
            self.can_load(*old(memory)),
        ensures
            final(memory).pages() == old(memory).pages(),
            match r {
                Ok(()) => {
                    &&& self.valid_before(self.iter_count() as int)
                    &&& forall|a: int| #[trigger] final(memory).byte(a)
                        == self.loaded_byte(*old(memory), self.iter_count(), a)
                },
                Err(e) => {
                    &&& e == "Invalid Segment Type"
                    &&& exists|j: int| #![trigger self.ph(j)]
                        0 <= j < self.iter_count() && self.valid_before(j)
                        && self.ph(j).seg_type == SegmentType::Invalid
                        && forall|a: int| #[trigger] final(memory).byte(a)
                            == self.loaded_byte(*old(memory), j as nat, a)
                },
            },
    {
        proof { use_type_invariant(self); }
        let ghost mem0 = *old(memory);
        if self.header.ph_offset == 0 || self.header.ph_entry_size == 0 {
            return Ok(());
        }
        let count = self.header.ph_count;
        let input_len = self.input.len();
        let mut i: u16 = 0;
        while i < count
            invariant
                mem0 == *old(memory),
                input_len == self.input@.len(),
                elf_header_of(self.input@) == Some(self.header),
                self.header.class == 2,
                self.can_load(mem0),
                count == self.iter_count(),
                i <= count,
                self.valid_before(i as int),
                memory.pages() == mem0.pages(),
                forall|a: int| #[trigger] memory.byte(a) == self.loaded_byte(mem0, i as nat, a),
            decreases count - i,
        {
            proof {
                lemma_table_entry(
                    self.header.ph_offset as int,
                    self.header.ph_entry_size as int,
                    count as int,
                    i as int,
                    self.input@.len() as int,
                );
            }
            let ph = read_program_header(self.input, i);
            match ph.seg_type {
                SegmentType::Invalid => {
                    assert(self.ph(i as int) == ph);
                    return Err("Invalid Segment Type");
                },
                SegmentType::Other => {
                    assert forall|a: int| #[trigger] memory.byte(a)
                        == self.loaded_byte(mem0, (i + 1) as nat, a) by {
                        assert(!self.in_segment(i as int, a));
                    }
                },
                SegmentType::Load => {
                    assert(self.valid_before(i as int));
                    assert(self.segment_fits(i as int, mem0));
                    let vaddr = ph.virtual_addr as usize;
                    let mem_size = ph.mem_size as usize;
                    let file_size = ph.file_size as usize;
                    let offset = ph.offset as usize;
                    let ghost before = *memory;
                    assert(memory.range_mapped(vaddr as int, mem_size as int)) by {
                        assert forall|a: int| vaddr <= a < vaddr + mem_size implies #[trigger] memory.is_mapped(a) by {
                            assert(mem0.is_mapped(a));
                        }
                    }
                    let buffers = memory.translated_byte_buffer(vaddr, mem_size);
                    let filled = fill_segment_buffers(&buffers, self.input, offset, file_size);
                    assert(flatten_bufs(buffers@).len() == mem_size);
                    assert(flatten_bufs(filled@) == segment_image(
                        self.data().subrange(ph.offset as int, ph.offset + ph.file_size),
                        ph.mem_size as nat,
                    ));
                    memory.write_buffers(vaddr, &filled);
                    assert forall|a: int| #[trigger] memory.byte(a)
                        == self.loaded_byte(mem0, (i + 1) as nat, a) by {
                        if vaddr <= a < vaddr + mem_size {
                            assert(self.in_segment(i as int, a));
                            assert(memory.bytes(vaddr as int, mem_size as nat)[a - vaddr] == memory.byte(a));
                        } else {
                            assert(!self.in_segment(i as int, a));
                            assert(before.byte(a) == memory.byte(a));
                        }
                    }
                },
            }
            i = i + 1;
            assert(self.valid_before(i as int));
        }
        Ok(())
    }
    /// Whether the program header table lies inside the file.
    pub fn table_is_readable(&self) -> (r: bool)
        ensures
            r == self.table_readable(),
    {
        proof { use_type_invariant(self); }
        if self.header.ph_offset == 0 || self.header.ph_entry_size == 0 || self.header.ph_count == 0 {
            return true;
        }
        let count = self.header.ph_count as u128;
        let size = self.header.ph_entry_size as u128;
        assert(count * size <= 0xffff * 0xffff) by (nonlinear_arith)
            requires
                count <= 0xffff,
                size <= 0xffff,
        ;
        assert(count * size == self.header.ph_count * self.header.ph_entry_size);
        let table_end = self.header.ph_offset as u128 + count * size;
        self.header.ph_entry_size >= 56 && table_end <= self.input.len() as u128
            && self.header.ph_offset % 8 == 0
            && (self.header.ph_count <= 1 || self.header.ph_entry_size % 8 == 0)
    }

    /// Whether `load_segments` can run on `memory` without a fault.
    pub fn can_load_into(&self, memory: &UserMemory) -> (r: bool)
        ensures
            r == self.can_load(*memory),
    {
        proof { use_type_invariant(self); }
        if !self.table_is_readable() {
            return false;
        }
        if self.header.ph_offset == 0 || self.header.ph_entry_size == 0 {
            return true;
        }
        let count = self.header.ph_count;
        let input_len = self.input.len();
        let mut i: u16 = 0;
        while i < count
            invariant
                elf_header_of(self.input@) == Some(self.header),
                self.header.class == 2,
                self.table_readable(),
                count == self.iter_count(),
                input_len == self.input@.len(),
                i <= count,
                self.valid_before(i as int),
                forall|k: int| 0 <= k < i && #[trigger] self.valid_before(k) ==> self.segment_fits(k, *memory),
            decreases count - i,
        {
            proof {
                lemma_table_entry(
                    self.header.ph_offset as int,
                    self.header.ph_entry_size as int,
                    count as int,
                    i as int,
                    self.input@.len() as int,
                );
            }
            let ph = read_program_header(self.input, i);
            match ph.seg_type {
                SegmentType::Invalid => {
                    assert forall|k: int| 0 <= k < self.iter_count() && #[trigger] self.valid_before(k)
                        implies self.segment_fits(k, *memory) by {
                        if k > i {
                            assert(self.ph(i as int).seg_type == SegmentType::Invalid);
                        }
                    }
                    return true;
                },
                SegmentType::Other => {},
                SegmentType::Load => {
                    if ph.offset as u128 + ph.file_size as u128 > input_len as u128 {
                        return false;
                    }
                    if ph.virtual_addr as u128 > usize::MAX as u128 || ph.mem_size as u128 > usize::MAX as u128
                        || ph.virtual_addr as u128 + ph.mem_size as u128 > usize::MAX as u128 + 1 {
                        return false;
                    }
                    if !memory.is_range_mapped(ph.virtual_addr as usize, ph.mem_size as usize) {
                        return false;
                    }
                },
            }
            i = i + 1;
            assert(self.valid_before(i as int));
        }
        true
    }

    /// Load the segments when `can_load` holds of `memory`; `None`, with
    /// `memory` untouched, otherwise.
    pub fn load_segments_checked(&self, memory: &mut UserMemory) -> (r: Option<Result<(), &'static str>>)
        ensures
            r is None <==> !self.can_load(*old(memory)),
            r is None ==> *final(memory) == *old(memory),
            r is Some ==> final(memory).pages() == old(memory).pages(),
            r == Some(Ok::<(), &'static str>(())) ==> {
                &&& self.valid_before(self.iter_count() as int)
                &&& forall|a: int| #[trigger] final(memory).byte(a)
                    == self.loaded_byte(*old(memory), self.iter_count(), a)
            },
            r matches Some(Err(e)) ==> {
                &&& e == "Invalid Segment Type"
                &&& exists|j: int| #![trigger self.ph(j)]
                    0 <= j < self.iter_count() && self.valid_before(j)
                    && self.ph(j).seg_type == SegmentType::Invalid
                    && forall|a: int| #[trigger] final(memory).byte(a)
                        == self.loaded_byte(*old(memory), j as nat, a)
            },
    {
        if !self.can_load_into(memory) {
            return None;
        }
        Some(self.load_segments(memory))
    }
    /// The virtual address of the first loadable segment, from program
    /// header `i` on, that starts at file offset zero; zero if there is none.
    pub open spec fn base_vaddr_from(self, i: int) -> usize
        decreases self.iter_count() - i,
    {
        if i < 0 || i >= self.iter_count() {
            0
        } else if self.ph(i).seg_type == SegmentType::Load && self.ph(i).offset == 0 {
            self.ph(i).virtual_addr as usize
        } else {
            self.base_vaddr_from(i + 1)
        }
    }

    /// The auxiliary vector of the new program, in increasing key order.
    pub open spec fn auxv_for(self) -> Seq<(usize, usize)> {
        seq![
            (AT_PHDR, (self.base_vaddr_from(0) + self.header().ph_offset) as usize),
            (AT_PHENT, self.header().ph_entry_size as usize),
            (AT_PHNUM, self.header().ph_count as usize),
            (AT_PAGESZ, PAGE_SIZE),
            (AT_RANDOM, 0usize),
        ]
    }

    /// `init_stack` can run on `mem` with these arguments without a fault.
    pub open spec fn can_init_stack(self, mem: UserMemory, stack_top: int, args: Seq<String>) -> bool {
        let len = stack_image_len(arg_strings(args), self.auxv_for());
        &&& self.table_readable()
        &&& self.base_vaddr_from(0) + self.header().ph_offset <= usize::MAX
        &&& len <= stack_top <= usize::MAX
        &&& mem.range_mapped(stack_top - len, len)
    }

    /// The virtual address the file's first byte is loaded at, if a
    /// loadable segment starts at file offset zero.
    fn find_base_vaddr(&self) -> (r: usize)
        requires
            self.table_readable(),
        ensures
            r == self.base_vaddr_from(0),
    {
        proof { use_type_invariant(self); }
        if self.header.ph_offset == 0 || self.header.ph_entry_size == 0 {
            return 0;
        }
        let count = self.header.ph_count;
        let mut i: u16 = 0;
        while i < count
            invariant
                elf_header_of(self.input@) == Some(self.header),
                self.header.class == 2,
                self.table_readable(),
                count == self.iter_count(),
                i <= count,
                self.base_vaddr_from(0) == self.base_vaddr_from(i as int),
            decreases count - i,
        {
            proof {
                lemma_table_entry(
                    self.header.ph_offset as int,
                    self.header.ph_entry_size as int,
                    count as int,
                    i as int,
                    self.input@.len() as int,
                );
            }
            let ph = read_program_header(self.input, i);
            if ph.seg_type == SegmentType::Load && ph.offset == 0 {
                let phdr = ph.virtual_addr as usize;
                return if phdr != 0 { phdr } else { 0 };
            }
            i = i + 1;
        }
        0
    }

    /// Build the initial stack of the program below `stack_top` in
    /// `memory` and return the new stack top. The stack holds `args`, no
    /// environment, the auxiliary vector `auxv_for()` and the sixteen bytes
    /// `random` that `AT_RANDOM` points to; `argc` is the word at the new
    /// top and `argv` starts eight bytes above it.
    pub fn init_stack(&self, memory: &mut UserMemory, stack_top: usize, args: Vec<String>, random: &[u8]) -> (r: usize)
        requires
            self.can_init_stack(*old(memory), stack_top as int, args@),
            random@.len() == 16,
        ensures
            r == stack_top - stack_image_len(arg_strings(args@), self.auxv_for()),
            final(memory).bytes(r as int, (stack_top - r) as nat)
                == stack_image(args@.len(), arg_strings(args@), self.auxv_for(), random@, stack_top as int),
            final(memory).same_outside(old(memory), r as int, stack_top - r),
    {
        proof { use_type_invariant(self); }
        let elf_base_vaddr = self.find_base_vaddr();
        let auxv: Vec<(usize, usize)> = vec![
            (AT_PHDR, elf_base_vaddr + self.header.ph_offset as usize),
            (AT_PHENT, self.header.ph_entry_size as usize),
            (AT_PHNUM, self.header.ph_count as usize),
            (AT_PAGESZ, PAGE_SIZE),
            (AT_RANDOM, 0),
        ];
        assert(auxv@ =~= self.auxv_for());
        let ghost args_view = args@;
        let info = InitInfo { args, envs: Vec::new(), auxv };
        assert(info.strings() =~= arg_strings(args_view));
        let init_stack = info.serialize(stack_top, random);
        let len = init_stack.len();
        let new_top = stack_top - len;
        let stack = memory.translated_byte_buffer(new_top, len);
        // Copy the image into the page pieces, in order.
        let mut pages: Vec<Vec<u8>> = Vec::new();
        let mut pos: usize = 0;
        let mut i: usize = 0;
        proof {
            assert(stack@.skip(0) =~= stack@);
            assert(pages@.map_values(|b: Vec<u8>| b@) =~= Seq::<Seq<u8>>::empty());
        }
        while i < stack.len()
            invariant
                i <= stack@.len(),
                len == init_stack@.len(),
                flatten_bufs(stack@).len() == len,
                pos + flatten_bufs(stack@.skip(i as int)).len() == len,
                flatten_bufs(pages@) =~= init_stack@.take(pos as int),
            decreases stack@.len() - i,
        {
            proof { lemma_flatten_bufs_skip(stack@, i as int); }
            let piece_len = stack[i].len();
            let mut page: Vec<u8> = Vec::new();
            let mut j: usize = 0;
            while j < piece_len
                invariant
                    j <= piece_len,
                    pos + piece_len <= len,
                    len == init_stack@.len(),
                    page@ =~= init_stack@.subrange(pos as int, pos + j),
                decreases piece_len - j,
            {
                page.push(init_stack[pos + j]);
                j = j + 1;
            }
            proof {
                lemma_flatten_bufs_push(pages@, page);
                assert(init_stack@.take(pos as int) + page@ =~= init_stack@.take(pos + piece_len));
            }
            pages.push(page);
            pos = pos + piece_len;
            i = i + 1;
        }
        proof {
            assert(stack@.skip(i as int) =~= Seq::<Vec<u8>>::empty());
            assert(stack@.skip(i as int).map_values(|b: Vec<u8>| b@) =~= Seq::<Seq<u8>>::empty());
            assert(pos == len);
            assert(init_stack@.take(pos as int) =~= init_stack@);
        }
        memory.write_buffers(new_top, &pages);
        new_top
    }
    /// Whether `init_stack` can run on `memory` with these arguments.
    pub fn can_init_stack_into(&self, memory: &UserMemory, stack_top: usize, args: &Vec<String>) -> (r: bool)
        ensures
            r == self.can_init_stack(*memory, stack_top as int, args@),
    {
        proof { use_type_invariant(self); }
        if !self.table_is_readable() {
            return false;
        }
        let base = self.find_base_vaddr();
        if base as u128 + self.header.ph_offset as u128 > usize::MAX as u128 {
            return false;
        }
        let ghost auxv = self.auxv_for();
        let ghost strs = arg_strings(args@);
        let strings_len = match c_strings_len(args) {
            Some(n) => n,
            None => {
                assert(stack_image_len(strs, auxv) >= c_strings(strs).len());
                return false;
            },
        };
        // Words: argc, argv, NULL, NULL (no environment), five auxiliary
        // pairs and the closing pair.
        let argc = args.len();
        let wide_body = 8 * (argc as u128 + 15) + 16 + strings_len as u128;
        if wide_body > usize::MAX as u128 - 15 {
            assert(stack_image_len(strs, auxv) > usize::MAX);
            return false;
        }
        let body_len = 8 * (argc + 15) + 16 + strings_len;
        let len = if body_len % 16 == 0 { body_len } else { body_len + (16 - body_len % 16) };
        assert(len == stack_image_len(strs, auxv));
        if len > stack_top {
            return false;
        }
        memory.is_range_mapped(stack_top - len, len)
    }

    /// Build the initial stack when `can_init_stack` holds and `random` has
    /// sixteen bytes; `None`, with `memory` untouched, otherwise.
    pub fn init_stack_checked(
        &self,
        memory: &mut UserMemory,
        stack_top: usize,
        args: Vec<String>,
        random: &[u8],
    ) -> (r: Option<usize>)
        ensures
            r is None <==> !self.can_init_stack(*old(memory), stack_top as int, args@)
                || random@.len() != 16,
            r is None ==> *final(memory) == *old(memory),
            r matches Some(top) ==> {
                &&& top == stack_top - stack_image_len(arg_strings(args@), self.auxv_for())
                &&& final(memory).bytes(top as int, (stack_top - top) as nat)
                    == stack_image(args@.len(), arg_strings(args@), self.auxv_for(), random@, stack_top as int)
                &&& final(memory).same_outside(old(memory), top as int, stack_top - top)
            },
    {
        if random.len() != 16 || !self.can_init_stack_into(memory, stack_top, &args) {
            return None;
        }
        Some(self.init_stack(memory, stack_top, args, random))
    }
    /// A loaded segment holds its file bytes, then zeros: byte `a` of
    /// loadable segment `i` is the file byte at the same distance from the
    /// segment's file offset, or zero past its file part.
    pub proof fn lemma_segment_byte(self, i: int, a: int)
        requires
            self.in_segment(i, a),
            self.ph(i).offset + self.ph(i).file_size <= self.data().len(),
        ensures
            self.segment_byte(i, a) == if a - self.ph(i).virtual_addr < self.ph(i).file_size {
                self.data()[self.ph(i).offset + (a - self.ph(i).virtual_addr)]
            } else {
                0u8
            },
    {
    }

    /// After loading the first `n` program headers, an address of loadable
    /// segment `i < n` that no later one of them covers holds the byte that
    /// segment `i` puts there.
    pub proof fn lemma_loaded_segment(self, mem: UserMemory, n: nat, i: int, a: int)
        requires
            0 <= i < n,
            self.in_segment(i, a),
            forall|j: int| i < j < n ==> !#[trigger] self.in_segment(j, a),
        ensures
            self.loaded_byte(mem, n, a) == self.segment_byte(i, a),
        decreases n,
    {
        if i < n - 1 {
            assert(!self.in_segment(n - 1, a));
            self.lemma_loaded_segment(mem, (n - 1) as nat, i, a);
        }
    }

    /// Loading leaves every address outside the loadable segments as it
    /// was.
    pub proof fn lemma_loaded_outside(self, mem: UserMemory, n: nat, a: int)
        requires
            forall|j: int| 0 <= j < n ==> !#[trigger] self.in_segment(j, a),
        ensures
            self.loaded_byte(mem, n, a) == mem.byte(a),
        decreases n,
    {
        if n > 0 {
            assert(!self.in_segment(n - 1, a));
            self.lemma_loaded_outside(mem, (n - 1) as nat, a);
        }
    }
    /// Program header `i`, when the table is readable and `i` is one of the
    /// headers `xmas_elf` hands out; `None` otherwise.
    pub fn program_header(&self, i: u16) -> (r: Option<ProgramHeaderInfo>)
        ensures
            r is Some <==> self.table_readable() && i < self.iter_count(),
            r is Some ==> r->0 == self.ph(i as int),
    {
        proof { use_type_invariant(self); }
        if !self.table_is_readable() || self.header.ph_offset == 0 || self.header.ph_entry_size == 0
            || i >= self.header.ph_count {
            return None;
        }
        proof {
            lemma_table_entry(
                self.header.ph_offset as int,
                self.header.ph_entry_size as int,
                self.header.ph_count as int,
                i as int,
                self.input@.len() as int,
            );
        }
        Some(read_program_header(self.input, i))
    }
    /// Among the first `k` headers, once some loadable segment covers `a`,
    /// the loaded byte at `a` no longer depends on the memory loaded over.
    proof fn lemma_loaded_covered(self, ma: UserMemory, mb: UserMemory, k: nat, a: int, j: int)
        requires
            0 <= j < k,
            self.in_segment(j, a),
        ensures
            self.loaded_byte(ma, k, a) == self.loaded_byte(mb, k, a),
        decreases k,
    {
        if !self.in_segment(k - 1, a) {
            self.lemma_loaded_covered(ma, mb, (k - 1) as nat, a, j);
        }
    }

    /// Loading twice is loading once: after a load of all segments over
    /// `m0` gave `m1`, the segments can be loaded over `m1` again, and doing
    /// so (giving `m2`) changes no byte.
    pub proof fn lemma_load_idempotent(self, m0: UserMemory, m1: UserMemory, m2: UserMemory)
        requires
            self.can_load(m0),
            m1.pages() == m0.pages(),
            forall|a: int| #[trigger] m1.byte(a) == self.loaded_byte(m0, self.iter_count(), a),
            m2.pages() == m1.pages(),
            forall|a: int| #[trigger] m2.byte(a) == self.loaded_byte(m1, self.iter_count(), a),
        ensures
            self.can_load(m1),
            forall|a: int| #[trigger] m2.byte(a) == m1.byte(a),
    {
        let n = self.iter_count();
        assert forall|i: int| 0 <= i < n && #[trigger] self.valid_before(i) implies self.segment_fits(i, m1) by {
            assert(self.segment_fits(i, m0));
            let ph = self.ph(i);
            if ph.seg_type == SegmentType::Load {
                assert forall|a: int| ph.virtual_addr <= a < ph.virtual_addr + ph.mem_size
                    implies #[trigger] m1.is_mapped(a) by {
                    assert(m0.is_mapped(a));
                }
            }
        }
        assert forall|a: int| #[trigger] m2.byte(a) == m1.byte(a) by {
            if exists|j: int| 0 <= j < n && #[trigger] self.in_segment(j, a) {
                let j = choose|j: int| 0 <= j < n && #[trigger] self.in_segment(j, a);
                self.lemma_loaded_covered(m1, m0, n, a, j);
            } else {
                self.lemma_loaded_outside(m1, n, a);
                self.lemma_loaded_outside(m0, n, a);
            }
        }
    }
    /// Header `i` is a loadable segment that starts at file offset zero.
    pub open spec fn loads_file_start(self, i: int) -> bool {
        self.ph(i).seg_type == SegmentType::Load && self.ph(i).offset == 0
    }

    proof fn lemma_base_from_found(self, k: int, i: int)
        requires
            0 <= k <= i < self.iter_count(),
            self.loads_file_start(i),
            forall|j: int| k <= j < i ==> !#[trigger] self.loads_file_start(j),
        ensures
            self.base_vaddr_from(k) == self.ph(i).virtual_addr as usize,
        decreases i - k,
    {
        if k < i {
            assert(!self.loads_file_start(k));
            self.lemma_base_from_found(k + 1, i);
        }
    }

    proof fn lemma_base_from_none(self, k: int)
        requires
            0 <= k,
            forall|j: int| k <= j < self.iter_count() ==> !#[trigger] self.loads_file_start(j),
        ensures
            self.base_vaddr_from(k) == 0,
        decreases self.iter_count() - k,
    {
        if k < self.iter_count() {
            assert(!self.loads_file_start(k));
            self.lemma_base_from_none(k + 1);
        }
    }

    /// The base that `AT_PHDR` is reckoned from is the virtual address of
    /// the first program header, among all that `xmas_elf` hands out, that
    /// is a loadable segment at file offset zero, whatever the types of the
    /// headers before it; zero when there is none.
    pub proof fn lemma_base_vaddr_is_first_load_at_file_start(self)
        ensures
            forall|i: int| 0 <= i < self.iter_count() && #[trigger] self.loads_file_start(i)
                && (forall|j: int| 0 <= j < i ==> !#[trigger] self.loads_file_start(j))
                ==> self.base_vaddr_from(0) == self.ph(i).virtual_addr as usize,
            (forall|j: int| 0 <= j < self.iter_count() ==> !#[trigger] self.loads_file_start(j))
                ==> self.base_vaddr_from(0) == 0,
            self.auxv_for().len() == 5,
            self.auxv_for()[0] == (AT_PHDR, (self.base_vaddr_from(0) + self.header().ph_offset) as usize),
            self.auxv_for()[1] == (AT_PHENT, self.header().ph_entry_size as usize),
            self.auxv_for()[2] == (AT_PHNUM, self.header().ph_count as usize),
            self.auxv_for()[3] == (AT_PAGESZ, PAGE_SIZE),
            self.auxv_for()[4].0 == AT_RANDOM,
    {
        assert forall|i: int| 0 <= i < self.iter_count() && #[trigger] self.loads_file_start(i)
            && (forall|j: int| 0 <= j < i ==> !#[trigger] self.loads_file_start(j))
            implies self.base_vaddr_from(0) == self.ph(i).virtual_addr as usize by {
            self.lemma_base_from_found(0, i);
        }
        if forall|j: int| 0 <= j < self.iter_count() ==> !#[trigger] self.loads_file_start(j) {
            self.lemma_base_from_none(0);
        }
    }
}

} // verus!
