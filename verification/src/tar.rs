//! Walking the sequential 512-byte headers of a tar archive to find one
//! entry by path and return its payload.
//!
//! A header carries the entry's name in bytes 0..100, terminated by a NUL,
//! and the payload size in bytes 124..136 as octal digits terminated by a
//! NUL or a space. The payload follows, padded to a 512-byte boundary. A
//! block of zeroes, or the end of the data, ends the archive.

use vstd::prelude::*;
use vstd::slice::{slice_subrange, slice_to_vec};

verus! {

/// Outcome of searching a byte sequence for an entry: the payload of the
/// first entry whose name is the path, or the reason there is none.
pub enum TarFind {
    Found(Seq<u8>),
    Absent,
    Corrupt,
}

/// Error returned when no entry payload can be produced.
#[derive(Debug, PartialEq, Eq, Structural, Clone, Copy)]
pub enum TarError {
    NotFound,
    Corrupt,
}

/// An ASCII octal digit.
pub open spec fn is_octal_digit(b: u8) -> bool {
    48 <= b && b <= 55
}

/// Number of leading octal digits of `f`.
pub open spec fn octal_digits_len(f: Seq<u8>) -> int
    decreases f.len(),
{
    if f.len() == 0 {
        0
    } else if is_octal_digit(f.first()) {
        1 + octal_digits_len(f.drop_first())
    } else {
        0
    }
}

/// Value of the first `k` octal digits of `f`.
pub open spec fn octal_value(f: Seq<u8>, k: int) -> int
    decreases k,
{
    if k <= 0 {
        0
    } else {
        octal_value(f, k - 1) * 8 + (f[k - 1] - 48)
    }
}

/// The size field parses when it starts with at least one octal digit and
/// the digits end at the field's end or at a NUL or space byte.
pub open spec fn parse_octal(f: Seq<u8>) -> Option<int> {
    let k = octal_digits_len(f);
    if k == 0 {
        None
    } else if k < f.len() && !(f[k] == 0 || f[k] == 32) {
        None
    } else if octal_value(f, k) < 0 {
        None
    } else {
        Some(octal_value(f, k))
    }
}

/// Index of the first NUL among bytes `i..100` of a header, or 100.
pub open spec fn name_end(h: Seq<u8>, i: int) -> int
    decreases 100 - i,
{
    if i < 0 || i >= 100 {
        100
    } else if h[i] == 0 {
        i
    } else {
        name_end(h, i + 1)
    }
}

/// The entry name a header carries.
pub open spec fn header_name(h: Seq<u8>) -> Seq<u8> {
    h.subrange(0, name_end(h, 0))
}

/// A block of 512 zero bytes.
pub open spec fn is_zero_block(h: Seq<u8>) -> bool {
    forall|i: int| 0 <= i < 512 ==> h[i] == 0
}

/// `n` rounded up to a multiple of 512.
pub open spec fn round_up_512(n: int) -> int {
    ((n + 511) / 512) * 512
}

/// The payload of the first entry of `data` named `path`: entries are walked
/// in storage order; a zero block or the end of the data ends the walk; a
/// header whose size field does not parse, or data too short for an entry it
/// announces, is corrupt.
pub open spec fn tar_find(data: Seq<u8>, path: Seq<u8>) -> TarFind
    decreases data.len(),
{
    if data.len() < 512 {
        TarFind::Absent
    } else {
        let h = data.subrange(0, 512);
        if is_zero_block(h) {
            TarFind::Absent
        } else {
            match parse_octal(h.subrange(124, 136)) {
                Option::None => TarFind::Corrupt,
                Option::Some(sz) => {
                    if header_name(h) == path {
                        if 512 + sz <= data.len() {
                            TarFind::Found(data.subrange(512, 512 + sz))
                        } else {
                            TarFind::Corrupt
                        }
                    } else {
                        let skip = 512 + round_up_512(sz);
                        if skip <= data.len() {
                            tar_find(data.skip(skip), path)
                        } else {
                            TarFind::Corrupt
                        }
                    }
                },
            }
        }
    }
}

/// Octal digits stop exactly at the first non-digit.
proof fn lemma_octal_digits_len_props(f: Seq<u8>)
    ensures
        0 <= octal_digits_len(f) <= f.len(),
        forall|j: int| 0 <= j < octal_digits_len(f) ==> is_octal_digit(#[trigger] f[j]),
        octal_digits_len(f) < f.len() ==> !is_octal_digit(f[octal_digits_len(f)]),
    decreases f.len(),
{
    if f.len() > 0 && is_octal_digit(f.first()) {
        let d = f.drop_first();
        lemma_octal_digits_len_props(d);
        assert(forall|j: int| 0 <= j < d.len() ==> #[trigger] d[j] == f[j + 1]);
        assert forall|j: int| 0 <= j < octal_digits_len(f) implies is_octal_digit(
            #[trigger] f[j],
        ) by {
            if j > 0 {
                assert(is_octal_digit(d[j - 1]));
            }
        }
    }
}

/// Eighth powers, for bounding parsed sizes.
pub open spec fn pow8(k: int) -> int
    decreases k,
{
    if k <= 0 {
        1
    } else {
        8 * pow8(k - 1)
    }
}

/// The value of `k` octal digits stays below the `k`-th power of eight.
proof fn lemma_octal_value_bound(f: Seq<u8>, k: int)
    requires
        0 <= k,
        forall|j: int| 0 <= j < k ==> is_octal_digit(#[trigger] f[j]),
    ensures
        0 <= octal_value(f, k) < pow8(k),
    decreases k,
{
    if k > 0 {
        lemma_octal_value_bound(f, k - 1);
    }
}

/// The name field ends exactly at the first NUL.
proof fn lemma_name_end_props(h: Seq<u8>, i: int)
    requires
        0 <= i <= 100,
    ensures
        i <= name_end(h, i) <= 100,
        forall|j: int| i <= j < name_end(h, i) ==> #[trigger] h[j] != 0,
        name_end(h, i) < 100 ==> h[name_end(h, i)] == 0,
    decreases 100 - i,
{
    if i < 100 && h[i] != 0 {
        lemma_name_end_props(h, i + 1);
    }
}

/// Whether the 512 bytes at `off` are all zero.
fn block_is_zero(data: &[u8], off: usize) -> (r: bool)
    requires
        off + 512 <= data@.len(),
        data@.len() <= usize::MAX,
    ensures
        r == is_zero_block(data@.subrange(off as int, off as int + 512)),
{
    let ghost h = data@.subrange(off as int, off as int + 512);
    let mut i: usize = 0;
    while i < 512
        invariant
            i <= 512,
            off + 512 <= data@.len(),
            data@.len() <= usize::MAX,
            h == data@.subrange(off as int, off as int + 512),
            forall|j: int| 0 <= j < i ==> #[trigger] h[j] == 0,
        decreases 512 - i,
    {
        if data[off + i] != 0 {
            proof {
                assert(h[i as int] == data@[off + i]);
            }
            return false;
        }
        i = i + 1;
    }
    true
}

/// Parses the octal size field at `off`, with its value, or nothing where
/// the field is malformed.
fn parse_size(data: &[u8], off: usize) -> (r: Option<u64>)
    requires
        off + 12 <= data@.len(),
        data@.len() <= usize::MAX,
    ensures
        match r {
            Some(v) => parse_octal(data@.subrange(off as int, off as int + 12)) == Some(
                v as int,
            ) && v < 68719476736u64,
            None => parse_octal(data@.subrange(off as int, off as int + 12)) is None,
        },
{
    let ghost f = data@.subrange(off as int, off as int + 12);
    proof {
        lemma_octal_digits_len_props(f);
    }
    let mut k: usize = 0;
    let mut value: u64 = 0;
    let mut stopped: bool = false;
    while k < 12 && !stopped
        invariant
            k <= 12,
            off + 12 <= data@.len(),
            data@.len() <= usize::MAX,
            f == data@.subrange(off as int, off as int + 12),
            forall|j: int| 0 <= j < k ==> is_octal_digit(#[trigger] f[j]),
            value as int == octal_value(f, k as int),
            value < 68719476736u64,
            stopped ==> k < 12 && !is_octal_digit(f[k as int]),
        decreases 12 - k + (if stopped { 0int } else { 1int }),
    {
        let b = data[off + k];
        proof {
            assert(f[k as int] == data@[off + k]);
        }
        if 48 <= b && b <= 55 {
            proof {
                lemma_octal_value_bound(f, k as int);
                reveal_with_fuel(pow8, 13);
                assert(octal_value(f, k as int) < pow8(11)) by {
                    assert(pow8(k as int) <= pow8(11)) by {
                        lemma_pow8_mono(k as int, 11);
                    }
                }
            }
            value = value * 8 + ((b - 48) as u64);
            k = k + 1;
        } else {
            stopped = true;
        }
    }
    proof {
        assert(k as int == octal_digits_len(f)) by {
            lemma_octal_digits_len_props(f);
            if (k as int) < octal_digits_len(f) {
                assert(is_octal_digit(f[k as int]));
            }
            if octal_digits_len(f) < k as int {
                assert(is_octal_digit(f[octal_digits_len(f)]));
            }
        }
        lemma_octal_value_bound(f, k as int);
    }
    if k == 0 {
        return None;
    }
    if k < 12 {
        let t = data[off + k];
        proof {
            assert(f[k as int] == data@[off + k]);
        }
        if !(t == 0 || t == 32) {
            return None;
        }
    }
    Some(value)
}

/// Powers of eight are monotone.
proof fn lemma_pow8_mono(a: int, b: int)
    requires
        0 <= a <= b,
    ensures
        pow8(a) <= pow8(b),
    decreases b,
{
    if a < b {
        lemma_pow8_mono(a, b - 1);
        assert(pow8(b) == 8 * pow8(b - 1));
        assert(pow8(b - 1) > 0) by {
            lemma_pow8_pos(b - 1);
        }
    }
}

/// Powers of eight are positive.
proof fn lemma_pow8_pos(k: int)
    ensures
        pow8(k) > 0,
    decreases k,
{
    if k > 0 {
        lemma_pow8_pos(k - 1);
    }
}

/// Whether the header at `off` names exactly `path`.
fn name_matches(data: &[u8], off: usize, path: &[u8]) -> (r: bool)
    requires
        off + 512 <= data@.len(),
        data@.len() <= usize::MAX,
    ensures
        r == (header_name(data@.subrange(off as int, off as int + 512)) == path@),
{
    let ghost h = data@.subrange(off as int, off as int + 512);
    proof {
        lemma_name_end_props(h, 0);
    }
    let mut nl: usize = 0;
    let mut found: bool = false;
    while nl < 100 && !found
        invariant
            nl <= 100,
            off + 512 <= data@.len(),
            data@.len() <= usize::MAX,
            h == data@.subrange(off as int, off as int + 512),
            forall|j: int| 0 <= j < nl ==> #[trigger] h[j] != 0,
            found ==> nl < 100 && h[nl as int] == 0,
        decreases 100 - nl + (if found { 0int } else { 1int }),
    {
        let b = data[off + nl];
        proof {
            assert(h[nl as int] == data@[off + nl]);
        }
        if b == 0 {
            found = true;
        } else {
            nl = nl + 1;
        }
    }
    proof {
        assert(nl as int == name_end(h, 0)) by {
            lemma_name_end_props(h, 0);
            if (nl as int) < name_end(h, 0) {
                assert(h[nl as int] != 0);
            }
            if name_end(h, 0) < nl as int {
                assert(h[name_end(h, 0)] != 0);
            }
        }
    }
    if nl != path.len() {
        proof {
            assert(header_name(h).len() == nl as int);
        }
        return false;
    }
    let mut j: usize = 0;
    while j < nl
        invariant
            j <= nl,
            nl <= 100,
            off + 512 <= data@.len(),
            data@.len() <= usize::MAX,
            h == data@.subrange(off as int, off as int + 512),
            nl as int == name_end(h, 0),
            nl as int == path@.len(),
            forall|m: int| 0 <= m < j ==> #[trigger] h[m] == path@[m],
        decreases nl - j,
    {
        let a = data[off + j];
        proof {
            assert(h[j as int] == data@[off + j]);
        }
        if a != path[j] {
            proof {
                assert(header_name(h)[j as int] == h[j as int]);
            }
            return false;
        }
        j = j + 1;
    }
    proof {
        assert(header_name(h) =~= path@);
    }
    true
}

/// Finds the payload of the first entry of `data` named `path`, walking
/// headers in storage order and stopping at the first match.
pub fn tar_find_entry(data: &[u8], path: &[u8]) -> (r: Result<Vec<u8>, TarError>)
    ensures
        match r {
            Ok(v) => tar_find(data@, path@) == TarFind::Found(v@),
            Err(e) => match e {
                TarError::NotFound => tar_find(data@, path@) == TarFind::Absent,
                TarError::Corrupt => tar_find(data@, path@) == TarFind::Corrupt,
            },
        },
{
    let n = data.len();
    let mut off: usize = 0;
    proof {
        assert(data@.skip(0) =~= data@);
    }
    loop
        invariant
            off <= n,
            n == data@.len(),
            tar_find(data@, path@) == tar_find(data@.skip(off as int), path@),
        decreases n - off,
    {
        let ghost rest = data@.skip(off as int);
        if n - off < 512 {
            return Err(TarError::NotFound);
        }
        let ghost h = rest.subrange(0, 512);
        proof {
            assert(h =~= data@.subrange(off as int, off as int + 512));
            assert(h.subrange(124, 136) =~= data@.subrange(off as int + 124, off as int + 136));
        }
        if block_is_zero(data, off) {
            return Err(TarError::NotFound);
        }
        match parse_size(data, off + 124) {
            None => {
                return Err(TarError::Corrupt);
            },
            Some(sz64) => {
                if name_matches(data, off, path) {
                    if sz64 <= (n - off - 512) as u64 {
                        let sz = sz64 as usize;
                        let payload = slice_to_vec(slice_subrange(data, off + 512, off + 512 + sz));
                        proof {
                            assert(rest.subrange(512, 512 + sz64 as int) =~= data@.subrange(
                                off as int + 512,
                                off as int + 512 + sz64 as int,
                            ));
                        }
                        return Ok(payload);
                    } else {
                        return Err(TarError::Corrupt);
                    }
                } else {
                    let pad = (sz64 + 511) / 512 * 512;
                    proof {
                        assert(pad as int == round_up_512(sz64 as int));
                    }
                    let skip = 512 + pad;
                    if skip <= (n - off) as u64 {
                        let skipu = skip as usize;
                        proof {
                            assert(rest.skip(skipu as int) =~= data@.skip(off as int + skipu));
                        }
                        off = off + skipu;
                    } else {
                        return Err(TarError::Corrupt);
                    }
                }
            },
        }
    }
}

/// Outcome of probing a prefix of an archive's bytes: as `TarFind`, with
/// `NeedMore` where the prefix ends before the walk can decide.
pub enum TarProbe {
    Found(Seq<u8>),
    Absent,
    Corrupt,
    NeedMore,
}

/// Step result of probing a prefix of an archive for an entry.
#[derive(Debug, PartialEq, Eq)]
pub enum ProbeStep {
    Found(Vec<u8>),
    Absent,
    Corrupt,
    NeedMore,
}

/// The verdict the first `data.len()` bytes of an archive already determine:
/// as `tar_find`, except that running out of bytes is `NeedMore`, never a
/// final verdict.
pub open spec fn tar_probe(data: Seq<u8>, path: Seq<u8>) -> TarProbe
    decreases data.len(),
{
    if data.len() < 512 {
        TarProbe::NeedMore
    } else {
        let h = data.subrange(0, 512);
        if is_zero_block(h) {
            TarProbe::Absent
        } else {
            match parse_octal(h.subrange(124, 136)) {
                Option::None => TarProbe::Corrupt,
                Option::Some(sz) => {
                    if header_name(h) == path {
                        if 512 + sz <= data.len() {
                            TarProbe::Found(data.subrange(512, 512 + sz))
                        } else {
                            TarProbe::NeedMore
                        }
                    } else {
                        let skip = 512 + round_up_512(sz);
                        if skip <= data.len() {
                            tar_probe(data.skip(skip), path)
                        } else {
                            TarProbe::NeedMore
                        }
                    }
                },
            }
        }
    }
}

/// A probe verdict on a prefix is final: whatever bytes follow, the walk
/// over the whole data ends the same way. Early termination of a streamed
/// read is therefore sound.
pub proof fn lemma_probe_decides(data: Seq<u8>, rest: Seq<u8>, path: Seq<u8>)
    ensures
        tar_probe(data, path) matches TarProbe::Found(p) ==> tar_find(data + rest, path)
            == TarFind::Found(p),
        tar_probe(data, path) is Absent ==> tar_find(data + rest, path) == TarFind::Absent,
        tar_probe(data, path) is Corrupt ==> tar_find(data + rest, path) == TarFind::Corrupt,
    decreases data.len(),
{
    let all = data + rest;
    if data.len() >= 512 {
        assert(all.subrange(0, 512) =~= data.subrange(0, 512));
        let h = data.subrange(0, 512);
        if !is_zero_block(h) {
            match parse_octal(h.subrange(124, 136)) {
                Option::None => {},
                Option::Some(sz) => {
                    if header_name(h) == path {
                        if 512 + sz <= data.len() {
                            assert(all.subrange(512, 512 + sz) =~= data.subrange(512, 512 + sz));
                        }
                    } else {
                        let skip = 512 + round_up_512(sz);
                        if skip <= data.len() {
                            assert(all.skip(skip) =~= data.skip(skip) + rest);
                            lemma_probe_decides(data.skip(skip), rest, path);
                        }
                    }
                },
            }
        }
    }
}

/// Probes the prefix `data` of an archive's bytes for the entry named
/// `path`: a verdict other than `NeedMore` is final for every continuation
/// of the stream, so a caller may stop reading at `Found`.
pub fn tar_probe_entry(data: &[u8], path: &[u8]) -> (r: ProbeStep)
    ensures
        match r {
            ProbeStep::Found(v) => tar_probe(data@, path@) == TarProbe::Found(v@),
            ProbeStep::Absent => tar_probe(data@, path@) == TarProbe::Absent,
            ProbeStep::Corrupt => tar_probe(data@, path@) == TarProbe::Corrupt,
            ProbeStep::NeedMore => tar_probe(data@, path@) == TarProbe::NeedMore,
        },
{
    let n = data.len();
    let mut off: usize = 0;
    proof {
        assert(data@.skip(0) =~= data@);
    }
    loop
        invariant
            off <= n,
            n == data@.len(),
            tar_probe(data@, path@) == tar_probe(data@.skip(off as int), path@),
        decreases n - off,
    {
        let ghost rest = data@.skip(off as int);
        if n - off < 512 {
            return ProbeStep::NeedMore;
        }
        let ghost h = rest.subrange(0, 512);
        proof {
            assert(h =~= data@.subrange(off as int, off as int + 512));
            assert(h.subrange(124, 136) =~= data@.subrange(off as int + 124, off as int + 136));
        }
        if block_is_zero(data, off) {
            return ProbeStep::Absent;
        }
        match parse_size(data, off + 124) {
            None => {
                return ProbeStep::Corrupt;
            },
            Some(sz64) => {
                if name_matches(data, off, path) {
                    if sz64 <= (n - off - 512) as u64 {
                        let sz = sz64 as usize;
                        let payload = slice_to_vec(slice_subrange(data, off + 512, off + 512 + sz));
                        proof {
                            assert(rest.subrange(512, 512 + sz64 as int) =~= data@.subrange(
                                off as int + 512,
                                off as int + 512 + sz64 as int,
                            ));
                        }
                        return ProbeStep::Found(payload);
                    } else {
                        return ProbeStep::NeedMore;
                    }
                } else {
                    let pad = (sz64 + 511) / 512 * 512;
                    proof {
                        assert(pad as int == round_up_512(sz64 as int));
                    }
                    let skip = 512 + pad;
                    if skip <= (n - off) as u64 {
                        let skipu = skip as usize;
                        proof {
                            assert(rest.skip(skipu as int) =~= data@.skip(off as int + skipu));
                        }
                        off = off + skipu;
                    } else {
                        return ProbeStep::NeedMore;
                    }
                }
            },
        }
    }
}

} // verus!
