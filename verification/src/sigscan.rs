//! Signature patterns and the scanner.
//!
//! A [`Pattern`] is a fixed-width byte template compiled from a signature
//! string of whitespace-separated tokens: each token is either two hex
//! digits (an exact byte) or a wildcard marker `??` / `?` (match any byte).
//! The scanner slides the template over the readable regions of a
//! [`MemorySpace`] and reports the first address, in ascending order, where
//! every non-wildcard position agrees with the bytes in memory.

use crate::region::MemorySpace;
use crate::region::RegionModel;
use crate::region::lemma_region_at;
use crate::region::region_at;
use crate::region::region_end;
use crate::region::is_readable;
use crate::region::space_wf;
use crate::region::spec_readable;
use crate::region::spec_region_at;
use vstd::prelude::*;
use vstd::string::StrSliceExecFns;

verus! {

/// A compiled signature pattern: a non-empty, fixed-width template of byte
/// specifiers, each either an exact byte or a wildcard.
pub struct Pattern {
    bytes: Vec<u8>,
    mask: Vec<bool>,  // true = must match, false = wildcard
}

impl View for Pattern {
    /// A pattern denotes a sequence of specifiers: `Some(b)` pins the byte
    /// value `b`, `None` is a wildcard.
    type V = Seq<Option<u8>>;

    closed spec fn view(&self) -> Seq<Option<u8>> {
        Seq::new(
            self.bytes@.len(),
            |i: int|
                if self.mask@[i] {
                    Some(self.bytes@[i])
                } else {
                    None
                },
        )
    }
}

/// Whitespace, the separator between signature tokens.
pub open spec fn spec_is_space(c: char) -> bool {
    let u = c as u32;
    ||| (0x09 <= u && u <= 0x0D)
    ||| u == 0x20
    ||| u == 0x85
    ||| u == 0xA0
    ||| u == 0x1680
    ||| (0x2000 <= u && u <= 0x200A)
    ||| u == 0x2028
    ||| u == 0x2029
    ||| u == 0x202F
    ||| u == 0x205F
    ||| u == 0x3000
}

fn is_space(c: char) -> (r: bool)
    ensures
        r == spec_is_space(c),
{
    let u = c as u32;
    (0x09 <= u && u <= 0x0D) || u == 0x20 || u == 0x85 || u == 0xA0 || u == 0x1680 || (0x2000 <= u
        && u <= 0x200A) || u == 0x2028 || u == 0x2029 || u == 0x202F || u == 0x205F || u == 0x3000
}

/// The value of a hexadecimal digit, upper or lower case.
pub open spec fn spec_hex_val(c: char) -> Option<u8> {
    let u = c as u32;
    if 0x30 <= u && u <= 0x39 {
        Some((u - 0x30) as u8)
    } else if 0x41 <= u && u <= 0x46 {
        Some((u - 0x41 + 10) as u8)
    } else if 0x61 <= u && u <= 0x66 {
        Some((u - 0x61 + 10) as u8)
    } else {
        None
    }
}

fn hex_val(c: char) -> (r: Option<u8>)
    ensures
        r == spec_hex_val(c),
{
    let u = c as u32;
    if 0x30 <= u && u <= 0x39 {
        Some((u - 0x30) as u8)
    } else if 0x41 <= u && u <= 0x46 {
        Some((u - 0x41 + 10) as u8)
    } else if 0x61 <= u && u <= 0x66 {
        Some((u - 0x61 + 10) as u8)
    } else {
        None
    }
}

/// What one token denotes: `Some(None)` for a wildcard marker (`?` or
/// `??`), `Some(Some(b))` for a two-hex-digit byte, and `None` for a token
/// that is neither — a hard parse error.
pub open spec fn spec_token_value(t: Seq<char>) -> Option<Option<u8>> {
    if t.len() == 1 && t[0] == '?' {
        Some(None)
    } else if t.len() == 2 && t[0] == '?' && t[1] == '?' {
        Some(None)
    } else if t.len() == 2 && spec_hex_val(t[0]) is Some && spec_hex_val(t[1]) is Some {
        Some(Some((spec_hex_val(t[0])->Some_0 * 16 + spec_hex_val(t[1])->Some_0) as u8))
    } else {
        None
    }
}

/// The length of the maximal non-whitespace prefix of `s`.
pub open spec fn spec_token_len(s: Seq<char>) -> nat
    decreases s.len(),
{
    if s.len() == 0 || spec_is_space(s[0]) {
        0
    } else {
        (1 + spec_token_len(s.drop_first())) as nat
    }
}

pub proof fn lemma_token_len_le(s: Seq<char>)
    ensures
        spec_token_len(s) <= s.len(),
    decreases s.len(),
{
    if s.len() != 0 && !spec_is_space(s[0]) {
        lemma_token_len_le(s.drop_first());
    }
}

/// The whitespace-separated tokens of `s`, in order.
pub open spec fn spec_tokens(s: Seq<char>) -> Seq<Seq<char>>
    decreases s.len(),
    via spec_tokens_decreases
{
    if s.len() == 0 {
        Seq::empty()
    } else if spec_is_space(s[0]) {
        spec_tokens(s.drop_first())
    } else {
        let n = spec_token_len(s) as int;
        seq![s.take(n)] + spec_tokens(s.skip(n))
    }
}

#[via_fn]
proof fn spec_tokens_decreases(s: Seq<char>) {
    if s.len() != 0 && !spec_is_space(s[0]) {
        lemma_token_len_le(s);
        assert(spec_token_len(s) >= 1);
    }
}

/// The meaning of a signature string: rejected (`None`) when it has no
/// tokens or any token is invalid — no partial patterns — and otherwise
/// one specifier per token, in order.
pub open spec fn spec_parse(s: Seq<char>) -> Option<Seq<Option<u8>>> {
    let toks = spec_tokens(s);
    if toks.len() == 0 {
        None
    } else if forall|i: int| 0 <= i < toks.len() ==> (#[trigger] spec_token_value(toks[i])) is Some {
        Some(Seq::new(toks.len(), |i: int| spec_token_value(toks[i])->Some_0))
    } else {
        None
    }
}

/// Parsing: a signature string parses successfully if and only if it has at
/// least one token and every token is a wildcard marker or two hex digits;
/// the pattern then has exactly one specifier per token.
pub proof fn lemma_parse_token_count(s: Seq<char>)
    ensures
        spec_parse(s) is Some <==> (spec_tokens(s).len() >= 1 && forall|i: int|
            0 <= i < spec_tokens(s).len() ==> (#[trigger] spec_token_value(
                spec_tokens(s)[i],
            )) is Some),
        spec_parse(s) is Some ==> spec_parse(s)->Some_0.len() == spec_tokens(s).len(),
{
}

/// One specifier, as stored: a pinned byte when the mask is set, a
/// wildcard otherwise.
spec fn spec_entry(b: u8, m: bool) -> Option<u8> {
    if m {
        Some(b)
    } else {
        None
    }
}

/// If the first `m` characters of `u` are non-space and the next one (if
/// any) is a space, the maximal non-space prefix has length exactly `m`.
proof fn lemma_token_len_eq(u: Seq<char>, m: int)
    requires
        0 <= m <= u.len(),
        forall|k: int| 0 <= k < m ==> !spec_is_space(#[trigger] u[k]),
        m < u.len() ==> spec_is_space(u[m]),
    ensures
        spec_token_len(u) == m,
    decreases m,
{
    if m == 0 {
    } else {
        assert(!spec_is_space(u[0]));
        let v = u.drop_first();
        assert forall|k: int| 0 <= k < m - 1 implies !spec_is_space(#[trigger] v[k]) by {
            assert(v[k] == u[k + 1]);
        }
        assert(m - 1 < v.len() ==> spec_is_space(v[m - 1]));
        lemma_token_len_eq(v, m - 1);
    }
}

fn collect_chars(s: &str) -> (v: Vec<char>)
    ensures
        v@ == s@,
{
    let n = s.unicode_len();
    let mut v: Vec<char> = Vec::new();
    let mut i: usize = 0;
    while i < n
        invariant
            i <= n,
            n == s@.len(),
            v@ == s@.take(i as int),
        decreases n - i,
    {
        let c = s.get_char(i);
        v.push(c);
        proof {
            assert(v@ =~= s@.take(i as int + 1));
        }
        i += 1;
    }
    proof {
        assert(v@ =~= s@);
    }
    v
}

/// The match predicate: the template `p` laid over `data` at offset `off`
/// agrees at every pinned position.  Callers are responsible for keeping
/// `off` and `off + p.len()` within the buffer.
pub open spec fn spec_matches_at(p: Seq<Option<u8>>, data: Seq<u8>, off: int) -> bool {
    forall|k: int|
        0 <= k < p.len() ==> match #[trigger] p[k] {
            Some(b) => data[off + k] == b,
            None => true,
        }
}

/// The first offset at or after `from` where the template matches, sliding
/// one byte at a time; `None` when no start position up to
/// `data.len() - p.len()` matches.
pub open spec fn spec_first_match(p: Seq<Option<u8>>, data: Seq<u8>, from: int) -> Option<int>
    decreases data.len() - from,
{
    if from < 0 || from + p.len() > data.len() {
        None
    } else if spec_matches_at(p, data, from) {
        Some(from)
    } else {
        spec_first_match(p, data, from + 1)
    }
}

/// The absolute address of the first match of `p` in a region with base
/// address `base` and contents `data`.
pub open spec fn spec_scan_region(base: int, data: Seq<u8>, p: Seq<Option<u8>>) -> Option<int> {
    match spec_first_match(p, data, 0) {
        Some(i) => Some(base + i),
        None => None,
    }
}

impl Pattern {
    /// Internal consistency: one mask entry per byte, at least one
    /// specifier.
    pub closed spec fn wf(&self) -> bool {
        self.bytes@.len() == self.mask@.len() && self.bytes@.len() >= 1
    }

    /// Compile a signature string such as `"80 79 ?? ?? 8B 54"`.
    ///
    /// The string is whitespace-tokenized and each token classified
    /// independently: `??` or `?` is a wildcard, two hex digits are an
    /// exact byte.  A string with no tokens, or with any token that is
    /// neither, is rejected whole — the caller must treat the pattern as
    /// absent, and no partial pattern exists.
    pub fn parse(signature: &str) -> (r: Option<Pattern>)
        ensures
            match r {
                Some(p) => p.wf() && spec_parse(signature@) == Some(p@),
                None => spec_parse(signature@) is None,
            },
    {
        let chars = collect_chars(signature);
        let ghost full = signature@;
        let n = chars.len();
        let mut bytes: Vec<u8> = Vec::new();
        let mut mask: Vec<bool> = Vec::new();
        let ghost mut toks_done: Seq<Seq<char>> = Seq::empty();
        let mut i: usize = 0;
        proof {
            assert(full.skip(0) =~= full);
            assert(toks_done + spec_tokens(full.skip(0)) =~= spec_tokens(full));
        }
        while i < n
            invariant
                full == signature@,
                n == full.len(),
                chars@ == full,
                i <= n,
                bytes@.len() == mask@.len(),
                bytes@.len() == toks_done.len(),
                spec_tokens(full) == toks_done + spec_tokens(full.skip(i as int)),
                forall|jj: int|
                    0 <= jj < toks_done.len() ==> spec_token_value(#[trigger] toks_done[jj])
                        == Some(spec_entry(bytes@[jj], mask@[jj])),
            decreases n - i,
        {
            if is_space(chars[i]) {
                proof {
                    let u = full.skip(i as int);
                    assert(u[0] == full[i as int]);
                    assert(u.drop_first() =~= full.skip(i as int + 1));
                }
                i += 1;
            } else {
                let mut j: usize = i + 1;
                while j < n
                    invariant
                        n == full.len(),
                        chars@ == full,
                        i < j <= n,
                        forall|k: int| i <= k < j ==> !spec_is_space(#[trigger] full[k]),
                    ensures
                        i < j <= n,
                        forall|k: int| i <= k < j ==> !spec_is_space(#[trigger] full[k]),
                        j == n || spec_is_space(full[j as int]),
                    decreases n - j,
                {
                    if is_space(chars[j]) {
                        break ;
                    }
                    j += 1;
                }
                let ghost t = full.subrange(i as int, j as int);
                proof {
                    let u = full.skip(i as int);
                    let m = j as int - i as int;
                    assert forall|k: int| 0 <= k < m implies !spec_is_space(#[trigger] u[k]) by {
                        assert(u[k] == full[i + k]);
                    }
                    assert(m < u.len() ==> spec_is_space(u[m]));
                    lemma_token_len_eq(u, m);
                    assert(spec_tokens(u) == seq![u.take(m)] + spec_tokens(u.skip(m)));
                    assert(u.take(m) =~= t);
                    assert(u.skip(m) =~= full.skip(j as int));
                    assert(spec_tokens(full) == toks_done + (seq![t] + spec_tokens(
                        full.skip(j as int),
                    )));
                }
                let tlen = j - i;
                let entry: Option<(u8, bool)> = if tlen == 1 && chars[i] == '?' {
                    Some((0u8, false))
                } else if tlen == 2 && chars[i] == '?' && chars[i + 1] == '?' {
                    Some((0u8, false))
                } else if tlen == 2 {
                    match (hex_val(chars[i]), hex_val(chars[i + 1])) {
                        (Some(hi), Some(lo)) => Some((hi * 16 + lo, true)),
                        _ => None,
                    }
                } else {
                    None
                };
                proof {
                    assert(t.len() == tlen);
                    assert(t[0] == full[i as int]);
                    assert(tlen >= 2 ==> t[1] == full[i as int + 1]);
                }
                match entry {
                    Some((b, m)) => {
                        bytes.push(b);
                        mask.push(m);
                        proof {
                            assert(spec_token_value(t) == Some(spec_entry(b, m)));
                            toks_done = toks_done.push(t);
                            assert(spec_tokens(full) == toks_done + spec_tokens(
                                full.skip(j as int),
                            )) by {
                                assert(toks_done + spec_tokens(full.skip(j as int)) =~= (
                                toks_done.drop_last() + (seq![t] + spec_tokens(
                                    full.skip(j as int),
                                ))));
                            }
                        }
                        i = j;
                    },
                    None => {
                        proof {
                            assert(spec_token_value(t) is None);
                            let toks = spec_tokens(full);
                            let idx = toks_done.len() as int;
                            assert(toks =~= toks_done + seq![t] + spec_tokens(full.skip(j as int)));
                            assert(0 <= idx < toks.len());
                            assert(toks[idx] == t);
                            assert(spec_token_value(toks[idx]) is None);
                            assert(spec_parse(full) is None);
                        }
                        return None;
                    },
                }
            }
        }
        proof {
            assert(full.skip(n as int).len() == 0);
            assert(spec_tokens(full.skip(n as int)) =~= Seq::<Seq<char>>::empty());
            assert(spec_tokens(full) =~= toks_done);
        }
        if bytes.len() == 0 {
            proof {
                assert(spec_tokens(full).len() == 0);
                assert(spec_parse(full) is None);
            }
            return None;
        }
        let p = Pattern { bytes, mask };
        proof {
            let toks = spec_tokens(full);
            assert forall|ii: int| 0 <= ii < toks.len() implies (#[trigger] spec_token_value(
                toks[ii],
            )) is Some by {
                assert(spec_token_value(toks_done[ii]) == Some(
                    spec_entry(p.bytes@[ii], p.mask@[ii]),
                ));
            }
            let parsed = Seq::new(toks.len(), |k: int| spec_token_value(toks[k])->Some_0);
            assert(spec_parse(full) == Some(parsed));
            assert(p@ =~= parsed);
        }
        Some(p)
    }

    /// The number of byte specifiers in the pattern.
    pub fn len(&self) -> (n: usize)
        ensures
            n == self@.len(),
    {
        self.bytes.len()
    }

    /// Whether the pattern matches the buffer at the given offset.
    ///
    /// The caller guarantees that the whole template lies within the
    /// buffer, mirroring the scanner's duty to never lay a pattern past the
    /// end of a region.
    pub fn matches_at(&self, data: &Vec<u8>, offset: usize) -> (r: bool)
        requires
            self.wf(),
            offset + self@.len() <= data@.len(),
        ensures
            r == spec_matches_at(self@, data@, offset as int),
    {
        let n = self.bytes.len();
        let dl = data.len();
        let mut k: usize = 0;
        while k < n
            invariant
                self.wf(),
                n == self@.len(),
                k <= n,
                dl == data@.len(),
                offset + n <= dl,
                forall|j: int|
                    0 <= j < k ==> match #[trigger] self@[j] {
                        Some(b) => data@[offset + j] == b,
                        None => true,
                    },
            decreases n - k,
        {
            if self.mask[k] && data[offset + k] != self.bytes[k] {
                proof {
                    assert(self@[k as int] == Some(self.bytes@[k as int]));
                }
                return false;
            }
            proof {
                assert(match self@[k as int] {
                    Some(b) => data@[offset + k as int] == b,
                    None => true,
                });
            }
            k += 1;
        }
        true
    }
}

/// Scan one region, base address `base` and contents `data`, for the first
/// match of `pattern`; a region smaller than the pattern is skipped whole.
pub fn scan_region(base: usize, data: &Vec<u8>, pattern: &Pattern) -> (r: Option<usize>)
    requires
        pattern.wf(),
        base + data@.len() <= usize::MAX as int + 1,
    ensures
        ({
            let s = spec_scan_region(base as int, data@, pattern@);
            match s {
                Some(a) => 0 <= a <= usize::MAX && r == Some(a as usize),
                None => r is None,
            }
        }),
{
    let plen = pattern.len();
    let dlen = data.len();
    if dlen < plen {
        return None;
    }
    let end = dlen - plen;
    let mut off: usize = 0;
    while off <= end
        invariant
            pattern.wf(),
            plen == pattern@.len(),
            1 <= plen,
            dlen == data@.len(),
            plen <= dlen,
            end == dlen - plen,
            off <= end + 1,
            base + dlen <= usize::MAX as int + 1,
            spec_first_match(pattern@, data@, 0) == spec_first_match(pattern@, data@, off as int),
        decreases end + 1 - off,
    {
        if pattern.matches_at(data, off) {
            proof {
                assert(spec_first_match(pattern@, data@, off as int) == Some(off as int));
            }
            return Some(base + off);
        }
        proof {
            assert(spec_first_match(pattern@, data@, off as int) == spec_first_match(
                pattern@,
                data@,
                off as int + 1,
            ));
        }
        off += 1;
    }
    proof {
        assert(spec_first_match(pattern@, data@, off as int) is None);
    }
    None
}

/// First-match semantics: what the sliding scan returns is a real match,
/// and no admissible start position before it matches; when it reports
/// nothing, no admissible start position at or after `from` matches.
pub proof fn lemma_first_match_is_first(p: Seq<Option<u8>>, data: Seq<u8>, from: int)
    requires
        0 <= from,
    ensures
        match spec_first_match(p, data, from) {
            Some(i) => from <= i && i + p.len() <= data.len() && spec_matches_at(p, data, i)
                && forall|j: int| from <= j < i ==> !spec_matches_at(p, data, j),
            None => forall|j: int|
                from <= j && j + p.len() <= data.len() ==> !spec_matches_at(p, data, j),
        },
    decreases data.len() - from,
{
    if from + p.len() > data.len() {
    } else if spec_matches_at(p, data, from) {
    } else {
        lemma_first_match_is_first(p, data, from + 1);
    }
}

/// Matching exactness, first half: where the buffer holds the pattern's
/// bytes at offset `k` and at no earlier offset, scanning the buffer as a
/// single region returns exactly `base + k`.
pub proof fn lemma_scan_region_hits(base: int, data: Seq<u8>, p: Seq<Option<u8>>, k: int)
    requires
        0 <= k,
        k + p.len() <= data.len(),
        spec_matches_at(p, data, k),
        forall|j: int| 0 <= j < k ==> !spec_matches_at(p, data, j),
    ensures
        spec_scan_region(base, data, p) == Some(base + k),
{
    lemma_first_match_is_first(p, data, 0);
    match spec_first_match(p, data, 0) {
        Some(i) => {
            if i < k {
                assert(!spec_matches_at(p, data, i));
            }
            if k < i {
                assert(!spec_matches_at(p, data, k));
            }
        },
        None => {
            assert(!spec_matches_at(p, data, k));
        },
    }
}

/// Matching exactness, second half: altering the buffer byte under any
/// pinned position destroys the match at that offset.
pub proof fn lemma_pinned_mismatch(p: Seq<Option<u8>>, data: Seq<u8>, k: int, i: int)
    requires
        0 <= i < p.len(),
        p[i] is Some,
        data[k + i] != p[i]->Some_0,
    ensures
        !spec_matches_at(p, data, k),
{
    assert(p[i] matches Some(b) && data[k + i] != b);
}

/// The scan ceiling: a fixed 256 MiB past the module base (reduced modulo
/// the address-space size, exactly as the address arithmetic wraps).
/// Target modules are known a priori to be smaller than this; the ceiling
/// also guards against runaway enumeration over a corrupted memory map.
pub open spec fn spec_scan_bound(base: int) -> int {
    if base + 0x10000000 <= usize::MAX as int {
        base + 0x10000000
    } else {
        base + 0x10000000 - (usize::MAX as int + 1)
    }
}

/// One step of the enumeration: scan the region containing `addr`, then
/// continue from its end.  Enumeration stops at the ceiling, at an address
/// no region maps, or when the next address fails to strictly increase.
pub open spec fn spec_scan_from(
    s: Seq<RegionModel>,
    addr: int,
    bound: int,
    p: Seq<Option<u8>>,
) -> Option<int>
    decreases bound - addr,
{
    if addr >= bound {
        None
    } else {
        match spec_region_at(s, addr) {
            None => None,
            Some(i) => {
                let found = if spec_readable(s[i].protect) {
                    spec_scan_region(s[i].base, s[i].data, p)
                } else {
                    None
                };
                match found {
                    Some(a) => Some(a),
                    None => {
                        let next = region_end(s[i]);
                        if addr < next && next < bound {
                            spec_scan_from(s, next, bound, p)
                        } else {
                            None
                        }
                    },
                }
            },
        }
    }
}

/// The first match of `p` in the candidate regions of the module based at
/// `base`, in enumeration order.
pub open spec fn spec_scan_module(s: Seq<RegionModel>, base: int, p: Seq<Option<u8>>) -> Option<
    int,
> {
    spec_scan_from(s, base, spec_scan_bound(base), p)
}

/// Scan a module's address space for the first match of `pattern`.
///
/// Walks the memory map upward from `module_base`, scanning each candidate
/// (readable) region whole and skipping the rest, up to a fixed 256 MiB
/// ceiling past the base.  Reports the first matching address, or `None`
/// when no candidate region up to the ceiling holds a match — an expected,
/// recoverable outcome, not an error.
pub fn scan_module(space: &MemorySpace, module_base: usize, pattern: &Pattern) -> (r: Option<
    usize,
>)
    requires
        space.wf(),
        pattern.wf(),
    ensures
        ({
            let s = spec_scan_module(space@, module_base as int, pattern@);
            match s {
                Some(a) => 0 <= a <= usize::MAX && r == Some(a as usize),
                None => r is None,
            }
        }),
{
    let bound = module_base.wrapping_add(0x10000000);
    let mut addr = module_base;
    while addr < bound
        invariant
            space.wf(),
            pattern.wf(),
            bound as int == spec_scan_bound(module_base as int),
            spec_scan_from(space@, addr as int, bound as int, pattern@) == spec_scan_module(
                space@,
                module_base as int,
                pattern@,
            ),
        decreases bound - addr,
    {
        let found = region_at(space, addr);
        proof {
            lemma_region_at(space@, addr as int);
        }
        match found {
            None => {
                return None;
            },
            Some(i) => {
                let rg = &space.regions[i];
                proof {
                    assert(space@[i as int] == rg@);
                    assert(crate::region::region_wf(space@[i as int]));
                }
                if is_readable(rg.protect) {
                    if let Some(a) = scan_region(rg.base, &rg.data, pattern) {
                        return Some(a);
                    }
                }
                let next = rg.base.wrapping_add(rg.data.len());
                if next <= addr {
                    // A region descriptor whose end wrapped around: stop
                    // rather than loop.
                    return None;
                }
                if next >= bound {
                    return None;
                }
                addr = next;
            },
        }
    }
    None
}

/// Region boundary: every address the module scan reports is a match lying
/// wholly inside a single candidate region.  A pattern whose bytes would
/// straddle the end of one region and the start of the next is never
/// reported, even when the two regions are contiguous and both readable.
pub proof fn lemma_scan_module_within_region(s: Seq<RegionModel>, base: int, p: Seq<Option<u8>>)
    requires
        space_wf(s),
    ensures
        match spec_scan_module(s, base, p) {
            Some(a) => exists|i: int|
                0 <= i < s.len() && spec_readable(#[trigger] s[i].protect) && s[i].base <= a && a
                    + p.len() <= region_end(s[i]) && spec_matches_at(p, s[i].data, a - s[i].base),
            None => true,
        },
{
    lemma_scan_from_within_region(s, base, spec_scan_bound(base), p);
}

proof fn lemma_scan_from_within_region(s: Seq<RegionModel>, addr: int, bound: int, p: Seq<
    Option<u8>,
>)
    requires
        space_wf(s),
    ensures
        match spec_scan_from(s, addr, bound, p) {
            Some(a) => exists|i: int|
                0 <= i < s.len() && spec_readable(#[trigger] s[i].protect) && s[i].base <= a && a
                    + p.len() <= region_end(s[i]) && spec_matches_at(p, s[i].data, a - s[i].base),
            None => true,
        },
    decreases bound - addr,
{
    if addr >= bound {
    } else {
        lemma_region_at(s, addr);
        match spec_region_at(s, addr) {
            None => {},
            Some(i) => {
                let found = if spec_readable(s[i].protect) {
                    spec_scan_region(s[i].base, s[i].data, p)
                } else {
                    None
                };
                match found {
                    Some(a) => {
                        lemma_first_match_is_first(p, s[i].data, 0);
                        let off = spec_first_match(p, s[i].data, 0)->Some_0;
                        assert(a == s[i].base + off);
                        assert(spec_readable(s[i].protect) && s[i].base <= a && a + p.len()
                            <= region_end(s[i]) && spec_matches_at(p, s[i].data, a - s[i].base));
                    },
                    None => {
                        let next = region_end(s[i]);
                        if addr < next && next < bound {
                            lemma_scan_from_within_region(s, next, bound, p);
                        }
                    },
                }
            },
        }
    }
}

/// Wildcard tolerance: the byte under a wildcard position never affects
/// whether the pattern matches — substituting any value there leaves the
/// match predicate unchanged, while every pinned position still demands its
/// exact byte.
pub proof fn lemma_wildcard_tolerance(
    p: Seq<Option<u8>>,
    data: Seq<u8>,
    off: int,
    i: int,
    b: u8,
)
    requires
        0 <= i < p.len(),
        p[i] is None,
        0 <= off,
        off + p.len() <= data.len(),
    ensures
        spec_matches_at(p, data.update(off + i, b), off) == spec_matches_at(p, data, off),
{
    let d2 = data.update(off + i, b);
    if spec_matches_at(p, data, off) {
        assert forall|k: int|
            0 <= k < p.len() implies match #[trigger] p[k] {
            Some(v) => d2[off + k] == v,
            None => true,
        } by {
            if k != i {
                assert(d2[off + k] == data[off + k]);
            }
        }
    }
    if spec_matches_at(p, d2, off) {
        assert forall|k: int|
            0 <= k < p.len() implies match #[trigger] p[k] {
            Some(v) => data[off + k] == v,
            None => true,
        } by {
            if k != i {
                assert(d2[off + k] == data[off + k]);
            }
        }
    }
}

} // verus!
