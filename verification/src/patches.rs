//! The patch orchestrator.
//!
//! A patching pass takes the module base (or its absence), a catalog of
//! [`PatchTarget`]s, and the memory map, and enforces a strict "scan
//! everything before patching anything" ordering: every signature is
//! resolved against the map exactly as it stood before the first write, so
//! an earlier patch's bytes can never shift or destroy a signature a later
//! patch has not yet located.  Each patch is independent: one failing to
//! parse, resolve or write neither blocks nor invalidates its siblings, and
//! no failure propagates past the patch it belongs to.

use crate::memory::spec_byte_at;
use crate::memory::spec_writable_at;
use crate::memory::spec_write_region;
use crate::memory::write_bytes;
use crate::region::MemorySpace;
use crate::region::RegionModel;
use crate::region::region_at;
use crate::region::region_contains;
use crate::region::lemma_region_at;
use crate::sigscan::Pattern;
use crate::sigscan::scan_module;
use crate::sigscan::spec_parse;
use crate::sigscan::spec_scan_module;
use vstd::prelude::*;

verus! {

/// The replacement bytes of a patch.
pub enum PatchPayload {
    /// Write these bytes verbatim.
    Fixed(Vec<u8>),
    /// Read the byte at the target address and write back that byte plus
    /// this delta, reduced modulo 256.
    AddToByte(u8),
}

/// Model of a [`PatchPayload`].
pub enum PayloadModel {
    Fixed(Seq<u8>),
    AddToByte(u8),
}

impl View for PatchPayload {
    type V = PayloadModel;

    open spec fn view(&self) -> PayloadModel {
        match self {
            PatchPayload::Fixed(b) => PayloadModel::Fixed(b@),
            PatchPayload::AddToByte(d) => PayloadModel::AddToByte(*d),
        }
    }
}

/// One cataloged patch: a named signature, a byte offset relative to the
/// match address, and the replacement payload.
pub struct PatchTarget {
    pub name: String,
    pub signature: String,
    pub offset: isize,
    pub payload: PatchPayload,
}

/// Model of a [`PatchTarget`].
pub struct TargetModel {
    pub name: Seq<char>,
    pub signature: Seq<char>,
    pub offset: int,
    pub payload: PayloadModel,
}

impl View for PatchTarget {
    type V = TargetModel;

    open spec fn view(&self) -> TargetModel {
        TargetModel {
            name: self.name@,
            signature: self.signature@,
            offset: self.offset as int,
            payload: self.payload@,
        }
    }
}

/// Per-patch outcome: the engine's error taxonomy.  Every failure is local
/// to its own patch.
#[derive(Clone, Copy, PartialEq, Eq, Structural, Debug)]
pub enum PatchOutcome {
    /// The payload was written and the protection restored.
    Applied,
    /// The signature string was malformed; the whole pattern was treated
    /// as absent and the patch skipped.
    InvalidSignature,
    /// The scan completed without a match; expected and recoverable.
    PatternNotFound,
    /// The protection change was refused; the patch was skipped and memory
    /// left untouched.
    ProtectionChangeFailed,
}

/// A write as planned and performed: absolute address and exact bytes.
pub struct PlannedWrite {
    pub addr: usize,
    pub bytes: Vec<u8>,
}

/// Model of a [`PlannedWrite`].
pub struct WriteModel {
    pub addr: int,
    pub bytes: Seq<u8>,
}

impl View for PlannedWrite {
    type V = WriteModel;

    open spec fn view(&self) -> WriteModel {
        WriteModel { addr: self.addr as int, bytes: self.bytes@ }
    }
}

/// What happened to one cataloged patch.
pub struct PatchResult {
    /// The resolved match address, when the signature parsed and was found.
    pub address: Option<usize>,
    /// The write carried out (or attempted), when one was computed.
    pub write: Option<PlannedWrite>,
    pub outcome: PatchOutcome,
}

/// Model of a [`PatchResult`].
pub struct ResultModel {
    pub address: Option<int>,
    pub write: Option<WriteModel>,
    pub outcome: PatchOutcome,
}

impl View for PatchResult {
    type V = ResultModel;

    open spec fn view(&self) -> ResultModel {
        ResultModel {
            address: match self.address {
                Some(a) => Some(a as int),
                None => None,
            },
            write: match &self.write {
                Some(w) => Some(w@),
                None => None,
            },
            outcome: self.outcome,
        }
    }
}

/// The report of one patching pass.
pub struct PatchReport {
    /// Whether the target module was there at all.  When it is not, the
    /// pass performs zero scans and zero writes.
    pub module_found: bool,
    /// One entry per catalog entry, in catalog order.
    pub results: Vec<PatchResult>,
}

/// Resolution of one target against a map: the address of the first match
/// of its signature, `None` when the signature is malformed or absent.
pub open spec fn spec_resolve(s: Seq<RegionModel>, base: int, t: TargetModel) -> Option<int> {
    match spec_parse(t.signature) {
        None => None,
        Some(p) => spec_scan_module(s, base, p),
    }
}

/// The wrapped sum of a match address and a patch offset, as address
/// arithmetic wraps.
pub open spec fn spec_target_addr(a: int, off: int) -> int {
    let w = usize::MAX as int + 1;
    let t = a + off;
    if t < 0 {
        t + w
    } else if t >= w {
        t - w
    } else {
        t
    }
}

/// The bytes one payload denotes at write address `w` in map `s`; `None`
/// when an add-to-byte payload's source byte is unmapped (such a write
/// cannot proceed).
pub open spec fn spec_payload_bytes(s: Seq<RegionModel>, w: int, p: PayloadModel) -> Option<
    Seq<u8>,
> {
    match p {
        PayloadModel::Fixed(b) => Some(b),
        PayloadModel::AddToByte(d) => match spec_byte_at(s, w) {
            Some(b) => Some(seq![((b + d) % 256) as u8]),
            None => None,
        },
    }
}

/// Applying one resolved patch to the current map: the new map and the
/// result entry.  `a` is the pre-resolved match address.
pub open spec fn spec_apply_one(s: Seq<RegionModel>, t: TargetModel, a: int) -> (
    Seq<RegionModel>,
    ResultModel,
) {
    let w = spec_target_addr(a, t.offset);
    match spec_payload_bytes(s, w, t.payload) {
        None => (
            s,
            ResultModel {
                address: Some(a),
                write: None,
                outcome: PatchOutcome::ProtectionChangeFailed,
            },
        ),
        Some(pl) => {
            let result = ResultModel {
                address: Some(a),
                write: Some(WriteModel { addr: w, bytes: pl }),
                outcome: PatchOutcome::Applied,
            };
            if pl.len() == 0 {
                (s, result)
            } else {
                match spec_writable_at(s, w, pl.len() as int) {
                    Some(i) => (spec_write_region(s, i, w, pl), result),
                    None => (
                        s,
                        ResultModel {
                            address: Some(a),
                            write: Some(WriteModel { addr: w, bytes: pl }),
                            outcome: PatchOutcome::ProtectionChangeFailed,
                        },
                    ),
                }
            }
        },
    }
}

/// The result entry of a patch whose signature did not resolve.
pub open spec fn spec_unresolved_result(t: TargetModel) -> ResultModel {
    ResultModel {
        address: None,
        write: None,
        outcome: if spec_parse(t.signature) is None {
            PatchOutcome::InvalidSignature
        } else {
            PatchOutcome::PatternNotFound
        },
    }
}

/// The write phase from catalog index `k` on: every address was resolved
/// against the pre-pass map `s0`, and the writes run in catalog order on
/// the evolving map `s`.
pub open spec fn spec_apply_from(
    s0: Seq<RegionModel>,
    s: Seq<RegionModel>,
    base: int,
    cat: Seq<TargetModel>,
    k: int,
) -> (Seq<RegionModel>, Seq<ResultModel>)
    decreases cat.len() - k,
{
    if k < 0 || k >= cat.len() {
        (s, Seq::empty())
    } else {
        let step = match spec_resolve(s0, base, cat[k]) {
            None => (s, spec_unresolved_result(cat[k])),
            Some(a) => spec_apply_one(s, cat[k], a),
        };
        let rest = spec_apply_from(s0, step.0, base, cat, k + 1);
        (rest.0, seq![step.1] + rest.1)
    }
}

/// A whole pass: resolve every signature against the map as it stands,
/// then apply every write.
pub open spec fn spec_apply_pass(s: Seq<RegionModel>, base: int, cat: Seq<TargetModel>) -> (
    Seq<RegionModel>,
    Seq<ResultModel>,
) {
    spec_apply_from(s, s, base, cat, 0)
}

/// Ordering invariant: in a patching pass every result's address is the
/// resolution of its signature against the map exactly as it stood before
/// the first write — an earlier patch's write can never change what a
/// later patch resolved to.
pub proof fn lemma_pass_resolves_before_writes(
    s: Seq<RegionModel>,
    base: int,
    cat: Seq<TargetModel>,
)
    ensures
        ({
            let rs = spec_apply_pass(s, base, cat).1;
            rs.len() == cat.len() && forall|j: int|
                0 <= j < rs.len() ==> (#[trigger] rs[j]).address == spec_resolve(s, base, cat[j])
        }),
{
    lemma_apply_from_addresses(s, s, base, cat, 0);
}

proof fn lemma_apply_from_addresses(
    s0: Seq<RegionModel>,
    s: Seq<RegionModel>,
    base: int,
    cat: Seq<TargetModel>,
    k: int,
)
    requires
        0 <= k <= cat.len(),
    ensures
        ({
            let rs = spec_apply_from(s0, s, base, cat, k).1;
            rs.len() == cat.len() - k && forall|j: int|
                0 <= j < rs.len() ==> (#[trigger] rs[j]).address == spec_resolve(
                    s0,
                    base,
                    cat[k + j],
                )
        }),
    decreases cat.len() - k,
{
    if k < cat.len() {
        let step = match spec_resolve(s0, base, cat[k]) {
            None => (s, spec_unresolved_result(cat[k])),
            Some(a) => spec_apply_one(s, cat[k], a),
        };
        lemma_apply_from_addresses(s0, step.0, base, cat, k + 1);
        let rs = spec_apply_from(s0, s, base, cat, k).1;
        let rest = spec_apply_from(s0, step.0, base, cat, k + 1).1;
        assert(rs == seq![step.1] + rest);
        assert(rs[0] == step.1);
        assert(step.1.address == spec_resolve(s0, base, cat[k]));
        assert forall|j: int| 0 <= j < rs.len() implies (#[trigger] rs[j]).address == spec_resolve(
            s0,
            base,
            cat[k + j],
        ) by {
            if j > 0 {
                assert(rs[j] == rest[j - 1]);
            }
        }
    }
}

/// How one signature resolved, before any write is issued.
#[derive(Clone, Copy)]
enum Resolution {
    Invalid,
    NotFound,
    Found(usize),
}

/// Resolve every cataloged signature against the map, scanning everything
/// up front and writing nothing.
fn resolve_all(space: &MemorySpace, base: usize, catalog: &Vec<PatchTarget>) -> (r: Vec<
    Resolution,
>)
    requires
        space.wf(),
    ensures
        r@.len() == catalog@.len(),
        forall|k: int|
            0 <= k < catalog@.len() ==> match #[trigger] r@[k] {
                Resolution::Invalid => spec_parse(catalog@[k]@.signature) is None,
                Resolution::NotFound => spec_parse(catalog@[k]@.signature) is Some
                    && spec_resolve(space@, base as int, catalog@[k]@) is None,
                Resolution::Found(a) => spec_resolve(space@, base as int, catalog@[k]@) == Some(
                    a as int,
                ),
            },
{
    let n = catalog.len();
    let mut r: Vec<Resolution> = Vec::new();
    let mut k: usize = 0;
    while k < n
        invariant
            space.wf(),
            n == catalog@.len(),
            k <= n,
            r@.len() == k,
            forall|j: int|
                0 <= j < k ==> match #[trigger] r@[j] {
                    Resolution::Invalid => spec_parse(catalog@[j]@.signature) is None,
                    Resolution::NotFound => spec_parse(catalog@[j]@.signature) is Some
                        && spec_resolve(space@, base as int, catalog@[j]@) is None,
                    Resolution::Found(a) => spec_resolve(space@, base as int, catalog@[j]@)
                        == Some(a as int),
                },
        decreases n - k,
    {
        let t = &catalog[k];
        let res: Resolution = match Pattern::parse(t.signature.as_str()) {
            None => Resolution::Invalid,
            Some(p) => match scan_module(space, base, &p) {
                None => Resolution::NotFound,
                Some(a) => Resolution::Found(a),
            },
        };
        proof {
            assert(match res {
                Resolution::Invalid => spec_parse(catalog@[k as int]@.signature) is None,
                Resolution::NotFound => spec_parse(catalog@[k as int]@.signature) is Some
                    && spec_resolve(space@, base as int, catalog@[k as int]@) is None,
                Resolution::Found(a) => spec_resolve(space@, base as int, catalog@[k as int]@)
                    == Some(a as int),
            });
        }
        r.push(res);
        k += 1;
    }
    r
}

/// Copy a payload for the report.
fn clone_bytes(v: &Vec<u8>) -> (r: Vec<u8>)
    ensures
        r@ == v@,
{
    let mut r: Vec<u8> = Vec::new();
    let mut i: usize = 0;
    let n = v.len();
    while i < n
        invariant
            i <= n,
            n == v@.len(),
            r@ == v@.take(i as int),
        decreases n - i,
    {
        r.push(v[i]);
        proof {
            assert(r@ =~= v@.take(i as int + 1));
        }
        i += 1;
    }
    proof {
        assert(r@ =~= v@);
    }
    r
}

/// Apply one patch whose signature resolved to `a`: compute the target
/// address and payload, issue the protected write, and record the result.
fn apply_one(space: &mut MemorySpace, t: &PatchTarget, a: usize) -> (r: PatchResult)
    requires
        old(space).wf(),
    ensures
        final(space).wf(),
        final(space)@ == spec_apply_one(old(space)@, t@, a as int).0,
        r@ == spec_apply_one(old(space)@, t@, a as int).1,
{
    let w = a.wrapping_add_signed(t.offset);
    proof {
        assert(w as int == spec_target_addr(a as int, t.offset as int));
    }
    match &t.payload {
        PatchPayload::Fixed(b) => {
            let bytes = clone_bytes(b);
            let ok = write_bytes(space, w, b);
            let outcome = if ok {
                PatchOutcome::Applied
            } else {
                PatchOutcome::ProtectionChangeFailed
            };
            PatchResult {
                address: Some(a),
                write: Some(PlannedWrite { addr: w, bytes }),
                outcome,
            }
        },
        PatchPayload::AddToByte(d) => {
            let found = region_at(space, w);
            proof {
                lemma_region_at(space@, w as int);
            }
            match found {
                None => PatchResult {
                    address: Some(a),
                    write: None,
                    outcome: PatchOutcome::ProtectionChangeFailed,
                },
                Some(i) => {
                    proof {
                        assert(region_contains(space@[i as int], w as int));
                    }
                    let cur = space.regions[i].data[w - space.regions[i].base];
                    let nb = cur.wrapping_add(*d);
                    let mut buf: Vec<u8> = Vec::new();
                    buf.push(nb);
                    proof {
                        assert(buf@ =~= seq![((cur + *d) % 256) as u8]);
                    }
                    let ok = write_bytes(space, w, &buf);
                    let outcome = if ok {
                        PatchOutcome::Applied
                    } else {
                        PatchOutcome::ProtectionChangeFailed
                    };
                    PatchResult {
                        address: Some(a),
                        write: Some(PlannedWrite { addr: w, bytes: buf }),
                        outcome,
                    }
                },
            }
        },
    }
}

/// Run one patching pass: resolve every cataloged signature first, then
/// apply each write using its pre-resolved address.
///
/// When `module_base` is `None` (the target module is not loaded) the pass
/// is a no-op: zero scans, zero writes, an empty report.  Otherwise the
/// report holds one entry per catalog entry, each patch independent of its
/// siblings, and every address in it was resolved against the map as it
/// stood before the first write.
pub fn apply_patches(
    space: &mut MemorySpace,
    module_base: Option<usize>,
    catalog: &Vec<PatchTarget>,
) -> (r: PatchReport)
    requires
        old(space).wf(),
    ensures
        final(space).wf(),
        match module_base {
            None => !r.module_found && r.results@.len() == 0 && final(space)@ == old(space)@,
            Some(b) => {
                &&& r.module_found
                &&& r.results@.len() == catalog@.len()
                &&& ({
                    let pass = spec_apply_pass(
                        old(space)@,
                        b as int,
                        catalog@.map_values(|t: PatchTarget| t@),
                    );
                    final(space)@ == pass.0 && r.results@.map_values(|pr: PatchResult| pr@)
                        == pass.1
                })
                &&& forall|k: int|
                    0 <= k < catalog@.len() ==> (#[trigger] r.results@[k])@.address
                        == spec_resolve(old(space)@, b as int, catalog@[k]@)
            },
        },
{
    let base: usize = match module_base {
        None => {
            return PatchReport { module_found: false, results: Vec::new() };
        },
        Some(b) => b,
    };
    let resolved = resolve_all(space, base, catalog);
    let ghost s0 = space@;
    let ghost catm = catalog@.map_values(|t: PatchTarget| t@);
    let n = catalog.len();
    let mut results: Vec<PatchResult> = Vec::new();
    let mut k: usize = 0;
    proof {
        assert(results@.map_values(|pr: PatchResult| pr@) + spec_apply_from(
            s0,
            space@,
            base as int,
            catm,
            0,
        ).1 =~= spec_apply_pass(s0, base as int, catm).1);
    }
    while k < n
        invariant
            space.wf(),
            s0 == old(space)@,
            n == catalog@.len(),
            k <= n,
            catm == catalog@.map_values(|t: PatchTarget| t@),
            resolved@.len() == n,
            forall|j: int|
                0 <= j < n ==> match #[trigger] resolved@[j] {
                    Resolution::Invalid => spec_parse(catalog@[j]@.signature) is None,
                    Resolution::NotFound => spec_parse(catalog@[j]@.signature) is Some
                        && spec_resolve(s0, base as int, catalog@[j]@) is None,
                    Resolution::Found(a) => spec_resolve(s0, base as int, catalog@[j]@) == Some(
                        a as int,
                    ),
                },
            results@.len() == k,
            spec_apply_from(s0, space@, base as int, catm, k as int).0 == spec_apply_pass(
                s0,
                base as int,
                catm,
            ).0,
            results@.map_values(|pr: PatchResult| pr@) + spec_apply_from(
                s0,
                space@,
                base as int,
                catm,
                k as int,
            ).1 == spec_apply_pass(s0, base as int, catm).1,
        decreases n - k,
    {
        let ghost pre = space@;
        let t = &catalog[k];
        let entry: PatchResult = match resolved[k] {
            Resolution::Invalid => PatchResult {
                address: None,
                write: None,
                outcome: PatchOutcome::InvalidSignature,
            },
            Resolution::NotFound => PatchResult {
                address: None,
                write: None,
                outcome: PatchOutcome::PatternNotFound,
            },
            Resolution::Found(a) => apply_one(space, t, a),
        };
        proof {
            assert(catm[k as int] == catalog@[k as int]@);
            let step = match spec_resolve(s0, base as int, catm[k as int]) {
                None => (pre, spec_unresolved_result(catm[k as int])),
                Some(a) => spec_apply_one(pre, catm[k as int], a),
            };
            assert(space@ == step.0);
            assert(entry@ == step.1);
            assert(spec_apply_from(s0, pre, base as int, catm, k as int).0 == spec_apply_from(
                s0,
                space@,
                base as int,
                catm,
                k as int + 1,
            ).0);
            assert(spec_apply_from(s0, pre, base as int, catm, k as int).1 == seq![entry@]
                + spec_apply_from(s0, space@, base as int, catm, k as int + 1).1);
        }
        results.push(entry);
        proof {
            assert(results@.map_values(|pr: PatchResult| pr@) =~= results@.take(
                k as int,
            ).map_values(|pr: PatchResult| pr@).push(entry@));
            assert(results@.map_values(|pr: PatchResult| pr@) + spec_apply_from(
                s0,
                space@,
                base as int,
                catm,
                k as int + 1,
            ).1 =~= results@.take(k as int).map_values(|pr: PatchResult| pr@)
                + spec_apply_from(s0, pre, base as int, catm, k as int).1);
        }
        k += 1;
    }
    proof {
        assert(spec_apply_from(s0, space@, base as int, catm, n as int).1 =~= Seq::<
            ResultModel,
        >::empty());
        assert(results@.map_values(|pr: PatchResult| pr@) + Seq::<ResultModel>::empty()
            =~= results@.map_values(|pr: PatchResult| pr@));
        lemma_pass_resolves_before_writes(s0, base as int, catm);
        assert forall|kk: int| 0 <= kk < catalog@.len() implies (#[trigger] results@[kk])@.address
            == spec_resolve(s0, base as int, catalog@[kk]@) by {
            assert(results@.map_values(|pr: PatchResult| pr@)[kk] == results@[kk]@);
            assert(catm[kk] == catalog@[kk]@);
        }
    }
    PatchReport { module_found: true, results }
}

} // verus!
