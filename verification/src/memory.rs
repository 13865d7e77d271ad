//! The protected write primitive and the instruction-byte helpers built on it.
//!
//! [`write_bytes`] mutates a [`MemorySpace`] model: it locates the single
//! region that wholly contains the target range, overlays the payload there,
//! and leaves the region's protection exactly as it found it.  A live-process
//! adapter realises the same contract with an OS protection flip (make the
//! range writable and executable, copy, restore the saved protection
//! unconditionally); on the model, a flip that is always restored is
//! invisible, and what remains are its two observable guarantees: a write
//! whose range is not wholly inside one mapped region fails and changes
//! nothing, and a successful write leaves every protection value unchanged.

use crate::region::MemorySpace;
use crate::region::Region;
use crate::region::RegionModel;
use crate::region::region_at;
use crate::region::region_contains;
use crate::region::region_end;
use crate::region::lemma_region_at;
use crate::region::space_wf;
use crate::region::spec_region_at;
use vstd::prelude::*;

verus! {

/// `data` with `payload` overlaid starting at offset `at`; every byte
/// outside the overlaid range is unchanged.
pub open spec fn spec_splice(data: Seq<u8>, at: int, payload: Seq<u8>) -> Seq<u8> {
    Seq::new(
        data.len(),
        |j: int|
            if at <= j < at + payload.len() {
                payload[j - at]
            } else {
                data[j]
            },
    )
}

/// Index of the region that wholly contains a write of `len` bytes at
/// `addr`, if there is one.  A range that is not contained in a single
/// mapped region cannot have its protection changed, so a write there fails.
pub open spec fn spec_writable_at(s: Seq<RegionModel>, addr: int, len: int) -> Option<int> {
    match spec_region_at(s, addr) {
        Some(i) => if addr + len <= region_end(s[i]) {
            Some(i)
        } else {
            None
        },
        None => None,
    }
}

/// The map after `payload` is written at `addr` inside region `i`.
pub open spec fn spec_write_region(
    s: Seq<RegionModel>,
    i: int,
    addr: int,
    payload: Seq<u8>,
) -> Seq<RegionModel> {
    s.update(
        i,
        RegionModel {
            base: s[i].base,
            protect: s[i].protect,
            data: spec_splice(s[i].data, addr - s[i].base, payload),
        },
    )
}

/// The full behaviour of a protected write: how the map after (`post`)
/// relates to the map before (`pre`) when `payload` is written at `addr`
/// with result `ok`.  An empty payload is a trivial success that performs no
/// protection change and no write.
pub open spec fn spec_write_outcome(
    pre: Seq<RegionModel>,
    post: Seq<RegionModel>,
    addr: int,
    payload: Seq<u8>,
    ok: bool,
) -> bool {
    if payload.len() == 0 {
        ok && post == pre
    } else {
        match spec_writable_at(pre, addr, payload.len() as int) {
            Some(i) => ok && post == spec_write_region(pre, i, addr, payload),
            None => !ok && post == pre,
        }
    }
}

/// Write `bytes` to `address`, restoring the region's protection.
///
/// Returns `true` and overlays the payload when the whole range lies inside
/// one mapped region; returns `false` and changes nothing when it does not
/// (the model of a denied protection change).  An empty payload succeeds
/// trivially.
pub fn write_bytes(space: &mut MemorySpace, address: usize, bytes: &Vec<u8>) -> (ok: bool)
    requires
        old(space).wf(),
    ensures
        final(space).wf(),
        spec_write_outcome(old(space)@, final(space)@, address as int, bytes@, ok),
{
    if bytes.len() == 0 {
        return true;
    }
    let found = region_at(space, address);
    proof {
        lemma_region_at(space@, address as int);
    }
    match found {
        None => false,
        Some(i) => {
            let rg_base = space.regions[i].base;
            let saved = space.regions[i].protect;
            let rg_len = space.regions[i].data.len();
            proof {
                assert(region_contains(space@[i as int], address as int));
            }
            let off = address - rg_base;
            if bytes.len() <= rg_len - off {
                let ghost pre = space@;
                let ghost d = space@[i as int].data;
                let ghost target = spec_splice(d, off as int, bytes@);
                let mut new_data: Vec<u8> = Vec::new();
                let mut j: usize = 0;
                while j < rg_len
                    invariant
                        j <= rg_len,
                        off + bytes.len() <= rg_len,
                        i < space.regions.len(),
                        space@ == pre,
                        rg_len == d.len(),
                        d == space@[i as int].data,
                        target == spec_splice(d, off as int, bytes@),
                        new_data@ =~= target.take(j as int),
                    decreases rg_len - j,
                {
                    let b: u8 = if off <= j && j - off < bytes.len() {
                        bytes[j - off]
                    } else {
                        space.regions[i].data[j]
                    };
                    new_data.push(b);
                    proof {
                        assert(new_data@ =~= target.take(j as int + 1));
                    }
                    j += 1;
                }
                space.regions.set(
                    i,
                    Region { base: rg_base, protect: saved, data: new_data },
                );
                proof {
                    assert(new_data@ =~= target);
                    assert(space@ =~= spec_write_region(pre, i as int, address as int, bytes@));
                    lemma_write_region_wf(pre, i as int, address as int, bytes@);
                }
                true
            } else {
                false
            }
        },
    }
}

/// A write inside one region keeps the map well formed: it changes no
/// region's base, protection or length.
pub proof fn lemma_write_region_wf(s: Seq<RegionModel>, i: int, addr: int, payload: Seq<u8>)
    requires
        space_wf(s),
        0 <= i < s.len(),
    ensures
        space_wf(spec_write_region(s, i, addr, payload)),
        spec_write_region(s, i, addr, payload).len() == s.len(),
        forall|k: int| 0 <= k < s.len() ==> {
            let post = #[trigger] spec_write_region(s, i, addr, payload)[k];
            post.base == s[k].base && post.protect == s[k].protect && post.data.len()
                == s[k].data.len()
        },
{
    let post = spec_write_region(s, i, addr, payload);
    assert forall|k: int| 0 <= k < post.len() implies #[trigger] crate::region::region_wf(
        post[k],
    ) by {
        assert(crate::region::region_wf(s[k]));
    }
    assert forall|k: int| 0 <= k && k + 1 < post.len() implies #[trigger] region_end(post[k])
        <= post[k + 1].base by {
        assert(region_end(s[k]) <= s[k + 1].base);
    }
}

/// The byte visible at `addr`, when some region maps it.
pub open spec fn spec_byte_at(s: Seq<RegionModel>, addr: int) -> Option<u8> {
    match spec_region_at(s, addr) {
        Some(i) => Some(s[i].data[addr - s[i].base]),
        None => None,
    }
}

/// A write never moves a region and never changes a protection value: after
/// any outcome of a protected write, every region's base, length and
/// protection are exactly what they were before the write began, and the map
/// stays well formed.
pub proof fn lemma_write_preserves_layout(
    pre: Seq<RegionModel>,
    post: Seq<RegionModel>,
    addr: int,
    payload: Seq<u8>,
    ok: bool,
)
    requires
        space_wf(pre),
        spec_write_outcome(pre, post, addr, payload, ok),
    ensures
        space_wf(post),
        post.len() == pre.len(),
        forall|k: int| 0 <= k < pre.len() ==> (#[trigger] post[k]).base == pre[k].base
            && post[k].protect == pre[k].protect && post[k].data.len() == pre[k].data.len(),
{
    if payload.len() != 0 {
        match spec_writable_at(pre, addr, payload.len() as int) {
            Some(i) => {
                lemma_region_at(pre, addr);
                lemma_write_region_wf(pre, i, addr, payload);
            },
            None => {},
        }
    }
}

/// The byte-level effect of a successful protected write: every byte of the
/// target range now reads back as the payload, and every other byte of the
/// whole map is unchanged.
pub proof fn lemma_write_bytes_effect(
    pre: Seq<RegionModel>,
    post: Seq<RegionModel>,
    addr: int,
    payload: Seq<u8>,
)
    requires
        space_wf(pre),
        spec_write_outcome(pre, post, addr, payload, true),
    ensures
        forall|a: int| addr <= a < addr + payload.len() ==> #[trigger] spec_byte_at(post, a)
            == Some(payload[a - addr]),
        forall|a: int| !(addr <= a < addr + payload.len()) ==> #[trigger] spec_byte_at(post, a)
            == spec_byte_at(pre, a),
{
    if payload.len() == 0 {
        assert(post == pre);
    } else {
        lemma_region_at(pre, addr);
        let i = spec_writable_at(pre, addr, payload.len() as int)->Some_0;
        lemma_write_region_wf(pre, i, addr, payload);
        assert forall|a: int| true implies #[trigger] spec_region_at(post, a) == spec_region_at(
            pre,
            a,
        ) by {
            lemma_same_layout_same_region_at(pre, post, a);
        }
        assert forall|a: int| addr <= a < addr + payload.len() implies #[trigger] spec_byte_at(
            post,
            a,
        ) == Some(payload[a - addr]) by {
            lemma_region_at(pre, a);
            let j = spec_region_at(pre, a)->Some_0;
            assert(region_contains(pre[i], a));
            assert(j == i);
        }
        assert forall|a: int| !(addr <= a < addr + payload.len()) implies #[trigger] spec_byte_at(
            post,
            a,
        ) == spec_byte_at(pre, a) by {
            lemma_region_at(pre, a);
            match spec_region_at(pre, a) {
                Some(j) => {
                    if j == i {
                        assert(post[j].data[a - post[j].base] == pre[j].data[a - pre[j].base]);
                    }
                },
                None => {},
            }
        }
    }
}

/// Two maps with the same region geometry agree on which region any address
/// falls in.
proof fn lemma_same_layout_same_region_at(pre: Seq<RegionModel>, post: Seq<RegionModel>, a: int)
    requires
        space_wf(pre),
        space_wf(post),
        post.len() == pre.len(),
        forall|k: int| 0 <= k < pre.len() ==> (#[trigger] post[k]).base == pre[k].base
            && post[k].data.len() == pre[k].data.len(),
    ensures
        spec_region_at(post, a) == spec_region_at(pre, a),
{
    lemma_region_at(pre, a);
    lemma_region_at(post, a);
    assert forall|k: int| 0 <= k < pre.len() implies (#[trigger] region_contains(pre[k], a)
        == region_contains(post[k], a)) by {
        assert(region_end(pre[k]) == region_end(post[k]));
    }
    match spec_region_at(pre, a) {
        Some(j) => {
            assert(region_contains(post[j], a));
        },
        None => {
            if spec_region_at(post, a) is Some {
                let j = spec_region_at(post, a)->Some_0;
                assert(region_contains(pre[j], a));
            }
        },
    }
}

/// The four little-endian bytes of `v`, a value below `2^32`.
pub open spec fn spec_le32(v: int) -> Seq<u8> {
    seq![
        (v % 256) as u8,
        ((v / 256) % 256) as u8,
        ((v / 65536) % 256) as u8,
        ((v / 16777216) % 256) as u8,
    ]
}

/// The operand of a five-byte relative branch at `from` targeting `to`:
/// the displacement past the end of the instruction, reduced to 32 bits.
pub open spec fn spec_rel32(from: int, to: int) -> int {
    (to - from - 5) % 0x1_0000_0000
}

/// The five bytes of a relative `call` instruction at `from` targeting `to`.
pub open spec fn spec_call_bytes(from: int, to: int) -> Seq<u8> {
    seq![0xE8u8] + spec_le32(spec_rel32(from, to))
}

/// The five bytes of a relative `jmp` instruction at `from` targeting `to`.
pub open spec fn spec_jump_bytes(from: int, to: int) -> Seq<u8> {
    seq![0xE9u8] + spec_le32(spec_rel32(from, to))
}

/// `count` one-byte `nop` instructions.
pub open spec fn spec_nop_bytes(count: nat) -> Seq<u8> {
    Seq::new(count, |i: int| 0x90u8)
}

/// The 32-bit displacement of a five-byte branch at `from` targeting `to`.
fn rel32_to(from: usize, to: usize) -> (r: u32)
    ensures
        r as int == spec_rel32(from as int, to as int),
{
    let d: u64 = (to as u64).wrapping_sub(from as u64).wrapping_sub(5);
    let r: u32 = #[verifier::truncate] (d as u32);
    proof {
        let m: int = 0x1_0000_0000;
        let w: int = 0x1_0000_0000_0000_0000;
        let base: int = to as int - from as int - 5;
        assert(r as u64 == d % 0x1_0000_0000u64) by (bit_vector)
            requires
                r == #[verifier::truncate] (d as u32),
        ;
        assert(d as int == base || d as int == base + w || d as int == base + 2 * w);
        if d as int == base + w {
            vstd::arithmetic::div_mod::lemma_mod_multiples_vanish(m, base, m);
        } else if d as int == base + 2 * w {
            vstd::arithmetic::div_mod::lemma_mod_multiples_vanish(2 * m, base, m);
        }
        assert(d as int % m == base % m);
    }
    r
}

/// Append the little-endian encoding of `v` to `buf`.
fn push_le32(buf: &mut Vec<u8>, v: u32)
    ensures
        final(buf)@ == old(buf)@ + spec_le32(v as int),
{
    buf.push((v % 256) as u8);
    buf.push(((v / 256) % 256) as u8);
    buf.push(((v / 65536) % 256) as u8);
    buf.push(((v / 16777216) % 256) as u8);
    proof {
        assert(buf@ =~= old(buf)@ + spec_le32(v as int));
    }
}

/// Write a five-byte relative `call` at `from` targeting `to`, as a
/// protected write.
pub fn write_call(space: &mut MemorySpace, from: usize, to: usize) -> (ok: bool)
    requires
        old(space).wf(),
    ensures
        final(space).wf(),
        spec_write_outcome(
            old(space)@,
            final(space)@,
            from as int,
            spec_call_bytes(from as int, to as int),
            ok,
        ),
{
    let rel = rel32_to(from, to);
    let mut buf: Vec<u8> = Vec::new();
    buf.push(0xE8);
    push_le32(&mut buf, rel);
    proof {
        assert(buf@ =~= spec_call_bytes(from as int, to as int));
    }
    write_bytes(space, from, &buf)
}

/// Write a five-byte relative `jmp` at `from` targeting `to`, as a
/// protected write.
pub fn write_jump(space: &mut MemorySpace, from: usize, to: usize) -> (ok: bool)
    requires
        old(space).wf(),
    ensures
        final(space).wf(),
        spec_write_outcome(
            old(space)@,
            final(space)@,
            from as int,
            spec_jump_bytes(from as int, to as int),
            ok,
        ),
{
    let rel = rel32_to(from, to);
    let mut buf: Vec<u8> = Vec::new();
    buf.push(0xE9);
    push_le32(&mut buf, rel);
    proof {
        assert(buf@ =~= spec_jump_bytes(from as int, to as int));
    }
    write_bytes(space, from, &buf)
}

/// Write `count` `nop` instructions at `address`, as a protected write.
pub fn write_nops(space: &mut MemorySpace, address: usize, count: usize) -> (ok: bool)
    requires
        old(space).wf(),
    ensures
        final(space).wf(),
        spec_write_outcome(
            old(space)@,
            final(space)@,
            address as int,
            spec_nop_bytes(count as nat),
            ok,
        ),
{
    let mut buf: Vec<u8> = Vec::new();
    let mut k: usize = 0;
    while k < count
        invariant
            k <= count,
            buf@ =~= spec_nop_bytes(k as nat),
        decreases count - k,
    {
        buf.push(0x90);
        proof {
            assert(buf@ =~= spec_nop_bytes(k as nat + 1));
        }
        k += 1;
    }
    proof {
        assert(buf@ =~= spec_nop_bytes(count as nat));
    }
    write_bytes(space, address, &buf)
}

} // verus!
