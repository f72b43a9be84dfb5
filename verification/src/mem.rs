//! The byte-copying and byte-filling routines, over a region of memory that
//! holds both operands; addresses are offsets into that region.
use vstd::prelude::*;
use vstd::arithmetic::div_mod::*;

verus! {

/// `mem` after the `len` bytes at `src` were copied to `dest` as if through a
/// temporary buffer: what `memmove` promises, overlap or not.
pub open spec fn moved(mem: Seq<u8>, dest: int, src: int, len: int) -> Seq<u8> {
    Seq::new(
        mem.len(),
        |i: int|
            if dest <= i < dest + len {
                mem[src + (i - dest)]
            } else {
                mem[i]
            },
    )
}

/// `mem` after a byte-by-byte forward copy of `len` bytes from `src` to `dest`.
/// Where the destination starts inside the source, each byte copied is read
/// after an earlier step wrote it, so the first `dest - src` source bytes
/// repeat across the destination.
pub open spec fn copied_forward(mem: Seq<u8>, dest: int, src: int, len: int) -> Seq<u8> {
    Seq::new(
        mem.len(),
        |i: int|
            if dest <= i < dest + len {
                if src < dest {
                    mem[src + (i - dest) % (dest - src)]
                } else {
                    mem[src + (i - dest)]
                }
            } else {
                mem[i]
            },
    )
}

/// `mem` with the `len` bytes at `dest` set to `byte`.
pub open spec fn filled(mem: Seq<u8>, dest: int, len: int, byte: u8) -> Seq<u8> {
    Seq::new(mem.len(), |i: int| if dest <= i < dest + len { byte } else { mem[i] })
}

/// Copies `len` bytes from `src` to `dest`, one byte at a time, lowest
/// address first.
fn memcpy_inner(mem: &mut [u8], dest: usize, src: usize, len: usize)
    requires
        dest + len <= old(mem)@.len(),
        src + len <= old(mem)@.len(),
    ensures
        final(mem)@ == copied_forward(old(mem)@, dest as int, src as int, len as int),
{
    let ghost orig = mem@;
    let size = mem.len();
    let mut i: usize = 0;
    while i < len
        invariant
            i <= len,
            orig.len() == size,
            dest + len <= orig.len(),
            src + len <= orig.len(),
            mem@ == copied_forward(orig, dest as int, src as int, i as int),
        decreases len - i,
    {
        let byte = mem[src + i];
        proof {
            let d = dest as int;
            let s = src as int;
            let k = i as int;
            if s < d {
                if s + k < d {
                    lemma_small_mod(k as nat, (d - s) as nat);
                } else {
                    lemma_mod_sub_multiples_vanish(k, d - s);
                    assert((s + k - d) % (d - s) == k % (d - s));
                }
            }
        }
        mem[dest + i] = byte;
        i = i + 1;
        proof {
            assert(mem@ =~= copied_forward(orig, dest as int, src as int, i as int));
        }
    }
}

/// `memcpy`: copies `len` bytes from `src` to `dest` and returns `dest`.
///
/// The copy runs forward, byte by byte; where the regions do not overlap, or
/// the destination lies below the source, this is the copy that `moved`
/// describes (see `lemma_forward_copy_is_move`).
pub fn memcpy(mem: &mut [u8], dest: usize, src: usize, len: usize) -> (r: usize)
    requires
        dest + len <= old(mem)@.len(),
        src + len <= old(mem)@.len(),
    ensures
        r == dest,
        final(mem)@ == copied_forward(old(mem)@, dest as int, src as int, len as int),
{
    memcpy_inner(mem, dest, src, len);
    dest
}

/// `memmove`: copies `len` bytes from `src` to `dest`, correctly for
/// overlapping regions, and returns `dest`.
pub fn memmove(mem: &mut [u8], dest: usize, src: usize, len: usize) -> (r: usize)
    requires
        dest + len <= old(mem)@.len(),
        src + len <= old(mem)@.len(),
    ensures
        r == dest,
        final(mem)@ == moved(old(mem)@, dest as int, src as int, len as int),
{
    if dest < src {
        memcpy_inner(mem, dest, src, len);
        proof {
            lemma_forward_copy_is_move(old(mem)@, dest as int, src as int, len as int);
        }
    } else {
        // dest above src: copy backward to handle overlap.
        let ghost orig = mem@;
        let size = mem.len();
        let mut i: usize = len;
        while i > 0
            invariant
                i <= len,
                orig.len() == size,
                src <= dest,
                dest + len <= orig.len(),
                src + len <= orig.len(),
                mem@ =~= Seq::new(
                    orig.len(),
                    |j: int|
                        if dest + i <= j < dest + len {
                            orig[src + (j - dest)]
                        } else {
                            orig[j]
                        },
                ),
            decreases i,
        {
            i = i - 1;
            let byte = mem[src + i];
            mem[dest + i] = byte;
        }
        proof {
            assert(mem@ =~= moved(orig, dest as int, src as int, len as int));
        }
    }
    dest
}

/// `memset`: sets the `len` bytes at `dest` to the low byte of `val` and
/// returns `dest`.
pub fn memset(mem: &mut [u8], dest: usize, val: i32, len: usize) -> (r: usize)
    requires
        dest + len <= old(mem)@.len(),
    ensures
        r == dest,
        final(mem)@ == filled(old(mem)@, dest as int, len as int, val as u8),
{
    let byte: u8 = #[verifier::truncate] (val as u8);
    let ghost orig = mem@;
    let size = mem.len();
    let mut i: usize = 0;
    while i < len
        invariant
            i <= len,
            orig.len() == size,
            dest + len <= orig.len(),
            byte == val as u8,
            mem@ =~= filled(orig, dest as int, i as int, byte),
        decreases len - i,
    {
        mem[dest + i] = byte;
        i = i + 1;
    }
    dest
}

/// Copies the bytes of `src` into `dest`, two separate buffers of the same
/// length, lowest address first.
pub fn copy_disjoint(dest: &mut [u8], src: &[u8])
    requires
        old(dest)@.len() == src@.len(),
    ensures
        final(dest)@ == src@,
{
    let len = src.len();
    let mut i: usize = 0;
    while i < len
        invariant
            i <= len,
            len == src@.len(),
            dest@.len() == len,
            forall|k: int| 0 <= k < i ==> dest@[k] == src@[k],
        decreases len - i,
    {
        dest[i] = src[i];
        i = i + 1;
    }
    proof {
        assert(dest@ =~= src@);
    }
}

/// A forward copy is a move whenever no byte is read after the copy wrote
/// it: when the destination lies below the source, or the two regions are
/// disjoint.
pub proof fn lemma_forward_copy_is_move(mem: Seq<u8>, dest: int, src: int, len: int)
    requires
        0 <= len,
        dest <= src || src + len <= dest,
    ensures
        copied_forward(mem, dest, src, len) == moved(mem, dest, src, len),
{
    assert forall|i: int| 0 <= i < mem.len() implies #[trigger] copied_forward(
        mem,
        dest,
        src,
        len,
    )[i] == moved(mem, dest, src, len)[i] by {
        if dest <= i < dest + len && src < dest {
            lemma_small_mod((i - dest) as nat, (dest - src) as nat);
        }
    }
    assert(copied_forward(mem, dest, src, len) =~= moved(mem, dest, src, len));
}

/// After a move, the destination reads back the source's original bytes,
/// and every byte outside the destination is unchanged.
pub proof fn lemma_move_reads_back(mem: Seq<u8>, dest: int, src: int, len: int)
    requires
        0 <= len,
        0 <= dest,
        0 <= src,
        dest + len <= mem.len(),
        src + len <= mem.len(),
    ensures
        moved(mem, dest, src, len).len() == mem.len(),
        moved(mem, dest, src, len).subrange(dest, dest + len) == mem.subrange(src, src + len),
        forall|i: int|
            0 <= i < mem.len() && !(dest <= i < dest + len) ==> #[trigger] moved(
                mem,
                dest,
                src,
                len,
            )[i] == mem[i],
{
    assert(moved(mem, dest, src, len).subrange(dest, dest + len) =~= mem.subrange(
        src,
        src + len,
    ));
}

/// After a fill, the filled bytes read back as the byte written, and every
/// other byte is unchanged.
pub proof fn lemma_fill_reads_back(mem: Seq<u8>, dest: int, len: int, byte: u8)
    requires
        0 <= len,
        0 <= dest,
        dest + len <= mem.len(),
    ensures
        filled(mem, dest, len, byte).len() == mem.len(),
        filled(mem, dest, len, byte).subrange(dest, dest + len) == Seq::new(
            len as nat,
            |i: int| byte,
        ),
        forall|i: int|
            0 <= i < mem.len() && !(dest <= i < dest + len) ==> #[trigger] filled(
                mem,
                dest,
                len,
                byte,
            )[i] == mem[i],
{
    assert(filled(mem, dest, len, byte).subrange(dest, dest + len) =~= Seq::new(
        len as nat,
        |i: int| byte,
    ));
}

} // verus!
