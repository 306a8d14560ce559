//! The initial user stack of a new program: argument count, argument and
//! environment pointers, the auxiliary vector, sixteen random bytes and the
//! strings themselves.
//!
//! Laid out from the stack pointer upward, as 64-bit little-endian words:
//! `argc`, `argv[0..argc]`, `0`, `envp[..]`, `0`, the auxiliary pairs, the
//! pair `(0, 0)`; then the random bytes; then the NUL-terminated argument and
//! environment strings; then zeros up to a multiple of sixteen bytes.
use vstd::prelude::*;
use vstd::utf8::encode_utf8;
use crate::config::AT_RANDOM;

verus! {

/// The eight little-endian bytes of `w`.
pub open spec fn le_bytes(w: u64) -> Seq<u8> {
    Seq::new(8, |k: int| (w >> ((8 * k) as u64)) as u8)
}

/// The four little-endian bytes of `v`.
pub open spec fn le_bytes_u32(v: u32) -> Seq<u8> {
    Seq::new(4, |k: int| (v >> ((8 * k) as u32)) as u8)
}

/// The little-endian bytes of each word, one after another.
pub open spec fn words_bytes(ws: Seq<u64>) -> Seq<u8> {
    ws.map_values(|w: u64| le_bytes(w)).flatten()
}

/// Each string followed by a NUL byte, one after another.
pub open spec fn c_strings(strs: Seq<Seq<u8>>) -> Seq<u8> {
    strs.map_values(|s: Seq<u8>| s.push(0u8)).flatten()
}

/// `n` rounded up to a multiple of sixteen.
pub open spec fn round_up16(n: int) -> int {
    if n % 16 == 0 { n } else { n + (16 - n % 16) }
}

pub proof fn lemma_words_bytes_push(ws: Seq<u64>, w: u64)
    ensures
        words_bytes(ws.push(w)) == words_bytes(ws) + le_bytes(w),
{
    assert(ws.push(w).map_values(|w: u64| le_bytes(w)) =~= ws.map_values(|w: u64| le_bytes(w)).push(le_bytes(w)));
    ws.map_values(|w: u64| le_bytes(w)).lemma_flatten_push(le_bytes(w));
}

pub proof fn lemma_c_strings_push(strs: Seq<Seq<u8>>, s: Seq<u8>)
    ensures
        c_strings(strs.push(s)) == c_strings(strs) + s.push(0u8),
{
    assert(strs.push(s).map_values(|s: Seq<u8>| s.push(0u8)) =~= strs.map_values(|s: Seq<u8>| s.push(0u8)).push(s.push(0u8)));
    strs.map_values(|s: Seq<u8>| s.push(0u8)).lemma_flatten_push(s.push(0u8));
}

/// The words take eight bytes each, and word `i` is at byte `8 * i`.
pub proof fn lemma_words_bytes_index(ws: Seq<u64>)
    ensures
        words_bytes(ws).len() == 8 * ws.len(),
        forall|i: int| 0 <= i < ws.len() ==>
            #[trigger] words_bytes(ws).subrange(8 * i, 8 * i + 8) == le_bytes(ws[i]),
    decreases ws.len(),
{
    if ws.len() == 0 {
        assert(ws.map_values(|w: u64| le_bytes(w)) =~= Seq::<Seq<u8>>::empty());
    } else {
        let init = ws.drop_last();
        lemma_words_bytes_index(init);
        assert(init.push(ws.last()) =~= ws);
        lemma_words_bytes_push(init, ws.last());
        assert forall|i: int| 0 <= i < ws.len() implies
            #[trigger] words_bytes(ws).subrange(8 * i, 8 * i + 8) == le_bytes(ws[i]) by {
            if i < init.len() {
                assert(words_bytes(ws).subrange(8 * i, 8 * i + 8)
                    =~= words_bytes(init).subrange(8 * i, 8 * i + 8));
            } else {
                assert(words_bytes(ws).subrange(8 * i, 8 * i + 8) =~= le_bytes(ws.last()));
            }
        }
    }
}

/// What the initial stack holds: arguments, environment and auxiliary
/// vector entries (key, value), the latter in increasing key order.
pub struct InitInfo {
    pub args: Vec<String>,
    pub envs: Vec<String>,
    pub auxv: Vec<(usize, usize)>,
}

/// How many words precede the random bytes, for `strs` (arguments, then
/// environment) and the auxiliary vector `auxv`.
pub open spec fn word_count(strs: Seq<Seq<u8>>, auxv: Seq<(usize, usize)>) -> nat {
    strs.len() + 2 * auxv.len() + 5
}

/// The size of the stack image, in bytes.
pub open spec fn stack_image_len(strs: Seq<Seq<u8>>, auxv: Seq<(usize, usize)>) -> int {
    round_up16((8 * word_count(strs, auxv) + 16 + c_strings(strs).len()) as int)
}

/// The address of the random bytes, for an image ending at `stack_top`.
pub open spec fn random_addr(strs: Seq<Seq<u8>>, auxv: Seq<(usize, usize)>, stack_top: int) -> int {
    stack_top - stack_image_len(strs, auxv) + 8 * word_count(strs, auxv)
}

/// The address of string `i`, for an image ending at `stack_top`.
pub open spec fn string_addr(strs: Seq<Seq<u8>>, auxv: Seq<(usize, usize)>, stack_top: int, i: int) -> int {
    random_addr(strs, auxv, stack_top) + 16 + c_strings(strs.take(i)).len()
}

/// The auxiliary vector as words; the value of `AT_RANDOM` is the address
/// of the random bytes.
pub open spec fn auxv_words(strs: Seq<Seq<u8>>, auxv: Seq<(usize, usize)>, stack_top: int) -> Seq<u64> {
    Seq::new(
        2 * auxv.len(),
        |k: int|
            {
                let (key, val) = auxv[k / 2];
                if k % 2 == 0 {
                    key as u64
                } else if key == AT_RANDOM {
                    random_addr(strs, auxv, stack_top) as u64
                } else {
                    val as u64
                }
            },
    )
}

/// The words at the bottom of the image, for `argc` arguments followed by
/// environment strings in `strs`.
pub open spec fn header_words(argc: nat, strs: Seq<Seq<u8>>, auxv: Seq<(usize, usize)>, stack_top: int) -> Seq<u64> {
    seq![argc as u64] + Seq::new(argc, |i: int| string_addr(strs, auxv, stack_top, i) as u64)
        + seq![0u64] + Seq::new(
        (strs.len() - argc) as nat,
        |j: int| string_addr(strs, auxv, stack_top, argc + j) as u64,
    ) + seq![0u64] + auxv_words(strs, auxv, stack_top) + seq![0u64, 0u64]
}

/// The stack image for a stack whose top is `stack_top`, with the sixteen
/// bytes `random` for `AT_RANDOM` to point to.
pub open spec fn stack_image(
    argc: nat,
    strs: Seq<Seq<u8>>,
    auxv: Seq<(usize, usize)>,
    random: Seq<u8>,
    stack_top: int,
) -> Seq<u8> {
    let body = words_bytes(header_words(argc, strs, auxv, stack_top)) + random + c_strings(strs);
    body + Seq::new((stack_image_len(strs, auxv) - body.len()) as nat, |i: int| 0u8)
}

impl InitInfo {
    /// The bytes of each argument, then of each environment string.
    pub open spec fn strings(&self) -> Seq<Seq<u8>> {
        self.args@.map_values(|s: String| encode_utf8(s@)) + self.envs@.map_values(
            |s: String| encode_utf8(s@),
        )
    }

    pub open spec fn word_count(&self) -> nat {
        word_count(self.strings(), self.auxv@)
    }

    pub open spec fn image_len(&self) -> int {
        stack_image_len(self.strings(), self.auxv@)
    }

    pub open spec fn random_addr(&self, stack_top: int) -> int {
        random_addr(self.strings(), self.auxv@, stack_top)
    }

    pub open spec fn string_addr(&self, stack_top: int, i: int) -> int {
        string_addr(self.strings(), self.auxv@, stack_top, i)
    }

    pub open spec fn auxv_words(&self, stack_top: int) -> Seq<u64> {
        auxv_words(self.strings(), self.auxv@, stack_top)
    }

    pub open spec fn header_words(&self, stack_top: int) -> Seq<u64> {
        header_words(self.args@.len(), self.strings(), self.auxv@, stack_top)
    }

    /// The stack image for a stack whose top is `stack_top`.
    pub open spec fn image(&self, random: Seq<u8>, stack_top: int) -> Seq<u8> {
        stack_image(self.args@.len(), self.strings(), self.auxv@, random, stack_top)
    }
}

/// Append the eight little-endian bytes of `w`.
pub fn push_word(out: &mut Vec<u8>, w: u64)
    ensures
        final(out)@ == old(out)@ + le_bytes(w),
{
    let mut k: u64 = 0;
    while k < 8
        invariant
            k <= 8,
            out@ =~= old(out)@ + le_bytes(w).take(k as int),
        decreases 8 - k,
    {
        out.push((w >> (8 * k)) as u8);
        k = k + 1;
        assert(out@ =~= old(out)@ + le_bytes(w).take(k as int));
    }
    assert(le_bytes(w).take(8) =~= le_bytes(w));
}

impl InitInfo {
    /// The stack image for a stack whose top is `stack_top`, with the
    /// sixteen bytes `random` for `AT_RANDOM`; it is to be stored just below
    /// `stack_top`.
    pub fn serialize(&self, stack_top: usize, random: &[u8]) -> (r: Vec<u8>)
        requires
            self.image_len() <= stack_top,
            random@.len() == 16,
        ensures
            r@ == self.image(random@, stack_top as int),
            r@.len() == self.image_len(),
    {
        let argc = self.args.len();
        let envc = self.envs.len();
        let auxc = self.auxv.len();
        let ghost strs = self.strings();
        let ghost wc = self.word_count();
        assert(8 * wc + 16 + c_strings(strs).len() <= self.image_len());
        let n = argc + envc;
        assert(strs.len() == n);
        // The strings, each followed by NUL, and where each starts.
        let mut blob: Vec<u8> = Vec::new();
        let mut offsets: Vec<usize> = Vec::new();
        let mut k: usize = 0;
        proof {
            assert(strs.take(0).map_values(|s: Seq<u8>| s.push(0u8)) =~= Seq::<Seq<u8>>::empty());
            assert(blob@ =~= c_strings(strs.take(0)));
        }
        while k < n
            invariant
                n == argc + envc,
                argc == self.args@.len(),
                envc == self.envs@.len(),
                strs == self.strings(),
                strs.len() == n,
                k <= n,
                blob@ == c_strings(strs.take(k as int)),
                offsets@.len() == k,
                forall|j: int| 0 <= j < k ==> #[trigger] offsets@[j] == c_strings(strs.take(j)).len(),
                forall|j: int| 0 <= j < k ==> #[trigger] offsets@[j] <= blob@.len(),
            decreases n - k,
        {
            let s: &String = if k < argc { &self.args[k] } else { &self.envs[k - argc] };
            assert(encode_utf8(s@) == strs[k as int]);
            offsets.push(blob.len());
            let b = s.as_str().as_bytes();
            let ghost before = blob@;
            let mut j: usize = 0;
            while j < b.len()
                invariant
                    j <= b@.len(),
                    blob@ =~= before + b@.take(j as int),
                decreases b@.len() - j,
            {
                blob.push(b[j]);
                j = j + 1;
                assert(blob@ =~= before + b@.take(j as int));
            }
            blob.push(0u8);
            proof {
                assert(b@.take(j as int) =~= b@);
                lemma_c_strings_push(strs.take(k as int), strs[k as int]);
                assert(strs.take(k as int).push(strs[k as int]) =~= strs.take(k + 1));
                assert(blob@ =~= c_strings(strs.take(k + 1)));
            }
            k = k + 1;
        }
        assert(strs.take(n as int) =~= strs);
        // Sizes and addresses.
        let wc_exec = argc + envc + 2 * auxc + 5;
        let body_len = 8 * wc_exec + 16 + blob.len();
        let total = if body_len % 16 == 0 { body_len } else { body_len + (16 - body_len % 16) };
        assert(total == self.image_len());
        let base = stack_top - total;
        let random_addr = base + 8 * wc_exec;
        let strings_base = random_addr + 16;
        assert(random_addr == self.random_addr(stack_top as int));
        // The words.
        let mut words: Vec<u64> = Vec::new();
        words.push(argc as u64);
        let mut i: usize = 0;
        while i < argc
            invariant
                i <= argc,
                argc == self.args@.len(),
                n == argc + envc,
                strs == self.strings(),
                offsets@.len() == n,
                forall|j: int| 0 <= j < n ==> #[trigger] offsets@[j] == c_strings(strs.take(j)).len(),
                forall|j: int| 0 <= j < n ==> #[trigger] offsets@[j] <= blob@.len(),
                strings_base + blob@.len() <= stack_top,
                strings_base == self.random_addr(stack_top as int) + 16,
                words@ =~= seq![argc as u64] + Seq::new(i as nat, |t: int| self.string_addr(stack_top as int, t) as u64),
            decreases argc - i,
        {
            words.push((strings_base + offsets[i]) as u64);
            i = i + 1;
        }
        words.push(0u64);
        let mut i: usize = 0;
        while i < envc
            invariant
                i <= envc,
                argc == self.args@.len(),
                envc == self.envs@.len(),
                n == argc + envc,
                strs == self.strings(),
                offsets@.len() == n,
                forall|j: int| 0 <= j < n ==> #[trigger] offsets@[j] == c_strings(strs.take(j)).len(),
                forall|j: int| 0 <= j < n ==> #[trigger] offsets@[j] <= blob@.len(),
                strings_base + blob@.len() <= stack_top,
                strings_base == self.random_addr(stack_top as int) + 16,
                words@ =~= seq![argc as u64] + Seq::new(argc as nat, |t: int| self.string_addr(stack_top as int, t) as u64)
                    + seq![0u64] + Seq::new(i as nat, |t: int| self.string_addr(stack_top as int, argc + t) as u64),
            decreases envc - i,
        {
            words.push((strings_base + offsets[argc + i]) as u64);
            i = i + 1;
        }
        words.push(0u64);
        let ghost prefix = words@;
        let mut i: usize = 0;
        while i < auxc
            invariant
                i <= auxc,
                auxc == self.auxv@.len(),
                random_addr == self.random_addr(stack_top as int),
                words@ =~= prefix + self.auxv_words(stack_top as int).take(2 * i),
            decreases auxc - i,
        {
            let (key, val) = self.auxv[i];
            words.push(key as u64);
            if key == AT_RANDOM {
                words.push(random_addr as u64);
            } else {
                words.push(val as u64);
            }
            i = i + 1;
            assert(words@ =~= prefix + self.auxv_words(stack_top as int).take(2 * i));
        }
        words.push(0u64);
        words.push(0u64);
        assert(self.auxv_words(stack_top as int).take(2 * auxc) =~= self.auxv_words(stack_top as int));
        assert(words@ =~= self.header_words(stack_top as int));
        // The bytes.
        let mut out: Vec<u8> = Vec::new();
        let mut i: usize = 0;
        proof {
            assert(words@.take(0).map_values(|w: u64| le_bytes(w)) =~= Seq::<Seq<u8>>::empty());
        }
        while i < words.len()
            invariant
                i <= words@.len(),
                out@ == words_bytes(words@.take(i as int)),
            decreases words@.len() - i,
        {
            proof {
                lemma_words_bytes_push(words@.take(i as int), words@[i as int]);
                assert(words@.take(i as int).push(words@[i as int]) =~= words@.take(i + 1));
            }
            push_word(&mut out, words[i]);
            i = i + 1;
        }
        assert(words@.take(i as int) =~= words@);
        let mut j: usize = 0;
        let ghost before = out@;
        while j < 16
            invariant
                j <= 16,
                random@.len() == 16,
                out@ =~= before + random@.take(j as int),
            decreases 16 - j,
        {
            out.push(random[j]);
            j = j + 1;
            assert(out@ =~= before + random@.take(j as int));
        }
        let ghost before = out@;
        let mut j: usize = 0;
        while j < blob.len()
            invariant
                j <= blob@.len(),
                out@ =~= before + blob@.take(j as int),
            decreases blob@.len() - j,
        {
            out.push(blob[j]);
            j = j + 1;
            assert(out@ =~= before + blob@.take(j as int));
        }
        proof {
            assert(random@.take(16) =~= random@);
            assert(blob@.take(j as int) =~= blob@);
            lemma_words_bytes_index(words@);
        }
        let ghost body = out@;
        assert(body =~= words_bytes(self.header_words(stack_top as int)) + random@ + c_strings(strs));
        while out.len() < total
            invariant
                body.len() <= out@.len() <= total,
                out@ =~= body + Seq::new((out@.len() - body.len()) as nat, |t: int| 0u8),
            decreases total - out@.len(),
        {
            out.push(0u8);
        }
        out
    }
}

/// The strings of a prefix take no more room than all of them.
pub proof fn lemma_c_strings_prefix(strs: Seq<Seq<u8>>, i: int)
    requires
        0 <= i <= strs.len(),
    ensures
        c_strings(strs.take(i)).len() <= c_strings(strs).len(),
{
    let f = |s: Seq<u8>| s.push(0u8);
    assert(strs.map_values(f) =~= strs.take(i).map_values(f) + strs.skip(i).map_values(f));
    vstd::seq_lib::lemma_flatten_concat(strs.take(i).map_values(f), strs.skip(i).map_values(f));
}

/// The room the NUL-terminated `strs` take, or `None` if more than
/// `usize::MAX` bytes.
pub fn c_strings_len(strs: &Vec<String>) -> (r: Option<usize>)
    ensures
        match r {
            Some(n) => n == c_strings(strs@.map_values(|s: String| encode_utf8(s@))).len(),
            None => c_strings(strs@.map_values(|s: String| encode_utf8(s@))).len() > usize::MAX,
        },
{
    let ghost all = strs@.map_values(|s: String| encode_utf8(s@));
    let mut total: usize = 0;
    let mut i: usize = 0;
    proof {
        assert(all.take(0).map_values(|s: Seq<u8>| s.push(0u8)) =~= Seq::<Seq<u8>>::empty());
    }
    while i < strs.len()
        invariant
            i <= strs@.len(),
            all == strs@.map_values(|s: String| encode_utf8(s@)),
            total == c_strings(all.take(i as int)).len(),
        decreases strs@.len() - i,
    {
        let b = strs[i].as_str().as_bytes();
        proof {
            lemma_c_strings_push(all.take(i as int), all[i as int]);
            assert(all.take(i as int).push(all[i as int]) =~= all.take(i + 1));
            lemma_c_strings_prefix(all, i + 1);
        }
        match total.checked_add(b.len()) {
            Some(t) => match t.checked_add(1) {
                Some(t2) => total = t2,
                None => return None,
            },
            None => return None,
        }
        i = i + 1;
    }
    assert(all.take(i as int) =~= all);
    Some(total)
}

/// String `i` of `strs`, with its NUL, sits at offset
/// `c_strings(strs.take(i)).len()` of `c_strings(strs)`.
pub proof fn lemma_c_strings_index(strs: Seq<Seq<u8>>, i: int)
    requires
        0 <= i < strs.len(),
    ensures
        c_strings(strs).subrange(
            c_strings(strs.take(i)).len() as int,
            (c_strings(strs.take(i)).len() + strs[i].len() + 1) as int,
        ) == strs[i].push(0u8),
{
    let f = |s: Seq<u8>| s.push(0u8);
    assert(strs.map_values(f) =~= strs.take(i).map_values(f) + strs.skip(i).map_values(f));
    vstd::seq_lib::lemma_flatten_concat(strs.take(i).map_values(f), strs.skip(i).map_values(f));
    let rest = strs.skip(i).map_values(f);
    assert(rest.first() == strs[i].push(0u8));
    assert(rest.flatten() == rest.first() + rest.drop_first().flatten());
}

/// The layout of the initial stack, seen from its lowest address `base`
/// (the new stack pointer): `argc` is the word at `base`, `argv[i]` the
/// word at `base + 8 + 8 * i` and points to argument `i` followed by NUL,
/// `argv` ends with a zero word, the random bytes lie where `AT_RANDOM`
/// says, and the image's size is a multiple of sixteen bytes.
pub proof fn lemma_stack_layout(
    argc: nat,
    strs: Seq<Seq<u8>>,
    auxv: Seq<(usize, usize)>,
    random: Seq<u8>,
    stack_top: int,
)
    requires
        argc <= strs.len(),
        random.len() == 16,
    ensures
        ({
            let img = stack_image(argc, strs, auxv, random, stack_top);
            let base = stack_top - stack_image_len(strs, auxv);
            &&& img.len() == stack_image_len(strs, auxv)
            &&& stack_image_len(strs, auxv) % 16 == 0
            &&& img.subrange(0, 8) == le_bytes(argc as u64)
            &&& forall|i: int| 0 <= i < argc ==> #[trigger] img.subrange(8 + 8 * i, 16 + 8 * i)
                == le_bytes(string_addr(strs, auxv, stack_top, i) as u64)
            &&& img.subrange(8 + 8 * (argc as int), 16 + 8 * (argc as int)) == le_bytes(0u64)
            &&& img.subrange(random_addr(strs, auxv, stack_top) - base, random_addr(strs, auxv, stack_top) - base + 16)
                == random
            &&& forall|i: int| 0 <= i < strs.len() ==> #[trigger] img.subrange(
                string_addr(strs, auxv, stack_top, i) - base,
                string_addr(strs, auxv, stack_top, i) - base + strs[i].len() + 1,
            ) == strs[i].push(0u8)
        }),
{
    let img = stack_image(argc, strs, auxv, random, stack_top);
    let base = stack_top - stack_image_len(strs, auxv);
    let ws = header_words(argc, strs, auxv, stack_top);
    let wc = word_count(strs, auxv) as int;
    lemma_words_bytes_index(ws);
    assert(ws.len() == wc);
    let wb = words_bytes(ws);
    let cs = c_strings(strs);
    let body = wb + random + cs;
    assert(img.subrange(0, body.len() as int) =~= body);
    assert(ws[0] == argc as u64);
    assert(img.subrange(0, 8) =~= wb.subrange(0, 8));
    assert forall|i: int| 0 <= i < argc implies #[trigger] img.subrange(8 + 8 * i, 16 + 8 * i)
        == le_bytes(string_addr(strs, auxv, stack_top, i) as u64) by {
        assert(ws[1 + i] == string_addr(strs, auxv, stack_top, i) as u64);
        assert(img.subrange(8 + 8 * i, 16 + 8 * i) =~= wb.subrange(8 * (1 + i), 8 * (1 + i) + 8));
    }
    assert(ws[1 + (argc as int)] == 0u64);
    assert(img.subrange(8 + 8 * (argc as int), 16 + 8 * (argc as int)) =~= wb.subrange(8 * (1 + (argc as int)), 8 * (1 + (argc as int)) + 8));
    assert(random_addr(strs, auxv, stack_top) - base == 8 * wc);
    assert(img.subrange(8 * wc, 8 * wc + 16) =~= random);
    assert forall|i: int| 0 <= i < strs.len() implies #[trigger] img.subrange(
        string_addr(strs, auxv, stack_top, i) - base,
        string_addr(strs, auxv, stack_top, i) - base + strs[i].len() + 1,
    ) == strs[i].push(0u8) by {
        lemma_c_strings_index(strs, i);
        lemma_c_strings_push(strs.take(i), strs[i]);
        assert(strs.take(i).push(strs[i]) =~= strs.take(i + 1));
        lemma_c_strings_prefix(strs, i + 1);
        let off = c_strings(strs.take(i)).len() as int;
        assert(off + strs[i].len() + 1 <= cs.len());
        assert(body.subrange(8 * wc + 16 + off, 8 * wc + 16 + off + strs[i].len() + 1)
            =~= cs.subrange(off, off + strs[i].len() + 1));
        assert(string_addr(strs, auxv, stack_top, i) - base == 8 * wc + 16 + off);
        assert(img.subrange(8 * wc + 16 + off, 8 * wc + 16 + off + strs[i].len() + 1)
            =~= cs.subrange(off, off + strs[i].len() + 1));
    }
}

} // verus!
