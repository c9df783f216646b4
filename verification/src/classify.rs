//! Filename classification: two mutually exclusive grammars, tried in a
//! fixed order, recover a descriptor from an artifact's filename.
//!
//! Standalone grammar:
//! `<implementation>-<version>+<releaseTag>-<triple>-install_only.tar.gz`.
//! Full grammar:
//! `<implementation>-<version>+<releaseTag>-<triple>-<buildConfig>-full.tar.zst`,
//! with `<buildConfig>` drawn from a closed set.
//!
//! `<implementation>` is a nonempty run of word characters, `<version>` is
//! free-form, `<releaseTag>` is exactly eight digits, and `<triple>` is a
//! nonempty run of word characters optionally separated by single dashes.

use vstd::prelude::*;
use vstd::string::*;

use crate::model::{ArtifactDescriptor, Variant};
use crate::select::{cfg_debug, cfg_lto, cfg_noopt, cfg_pgo, cfg_pgo_lto, config_order_spec,
    get_config_order, ConfigOrder};

verus! {

/// Error raised when a filename matches neither grammar.
#[derive(Debug)]
pub enum ClassifyError {
    UnsupportedFilename(String),
}

/// A word character: an ASCII letter, digit, or underscore.
pub open spec fn is_word_char(c: char) -> bool {
    ||| 97 <= c as u32 && c as u32 <= 122
    ||| 65 <= c as u32 && c as u32 <= 90
    ||| 48 <= c as u32 && c as u32 <= 57
    ||| c as u32 == 95
}

/// An ASCII decimal digit.
pub open spec fn is_digit_char(c: char) -> bool {
    48 <= c as u32 && c as u32 <= 57
}

/// A character allowed inside a platform triple: a word character or a dash.
pub open spec fn is_triple_char(c: char) -> bool {
    is_word_char(c) || c == '-'
}

/// `s[a..b)` is a valid platform triple: nonempty, made of triple
/// characters, with no two adjacent dashes and no trailing dash.
pub open spec fn triple_range(s: Seq<char>, a: int, b: int) -> bool {
    &&& 0 <= a < b <= s.len()
    &&& forall|i: int| a <= i < b ==> is_triple_char(#[trigger] s[i])
    &&& forall|i: int| a + 1 <= i < b ==> !(s[i - 1] == '-' && #[trigger] s[i] == '-')
    &&& s[b - 1] != '-'
}

/// The literal tail of every standalone filename.
pub open spec fn standalone_suffix() -> Seq<char> {
    seq!['-', 'i', 'n', 's', 't', 'a', 'l', 'l', '_', 'o', 'n', 'l', 'y', '.', 't', 'a', 'r', '.',
        'g', 'z']
}

/// The literal tail of every full filename.
pub open spec fn full_suffix() -> Seq<char> {
    seq!['-', 'f', 'u', 'l', 'l', '.', 't', 'a', 'r', '.', 'z', 's', 't']
}

/// `suf` stands at the very end of `s`, starting at index `a`.
pub open spec fn has_suffix_at(s: Seq<char>, a: int, suf: Seq<char>) -> bool {
    &&& 0 <= a
    &&& a + suf.len() == s.len()
    &&& forall|i: int| 0 <= i < suf.len() ==> s[a + i] == #[trigger] suf[i]
}

/// The closed set of build configurations a full filename may carry.
pub open spec fn is_full_config(c: Seq<char>) -> bool {
    ||| c == cfg_pgo_lto()
    ||| c == cfg_pgo()
    ||| c == cfg_lto()
    ||| c == cfg_noopt()
    ||| c == cfg_debug()
}

/// `s` decomposes into the standalone grammar with the given parts.
pub open spec fn standalone_parts(
    s: Seq<char>,
    im: Seq<char>,
    ver: Seq<char>,
    tag: Seq<char>,
    tri: Seq<char>,
) -> bool {
    &&& im.len() > 0
    &&& forall|i: int| 0 <= i < im.len() ==> is_word_char(#[trigger] im[i])
    &&& tag.len() == 8
    &&& forall|i: int| 0 <= i < tag.len() ==> is_digit_char(#[trigger] tag[i])
    &&& triple_range(tri, 0, tri.len() as int)
    &&& s == im + seq!['-'] + ver + seq!['+'] + tag + seq!['-'] + tri + standalone_suffix()
}

/// `s` matches the standalone grammar.
pub open spec fn is_standalone_name(s: Seq<char>) -> bool {
    exists|im: Seq<char>, ver: Seq<char>, tag: Seq<char>, tri: Seq<char>|
        standalone_parts(s, im, ver, tag, tri)
}

/// `s` decomposes into the full grammar with the given parts.
pub open spec fn full_parts(
    s: Seq<char>,
    im: Seq<char>,
    ver: Seq<char>,
    tag: Seq<char>,
    tri: Seq<char>,
    cfg: Seq<char>,
) -> bool {
    &&& im.len() > 0
    &&& forall|i: int| 0 <= i < im.len() ==> is_word_char(#[trigger] im[i])
    &&& tag.len() == 8
    &&& forall|i: int| 0 <= i < tag.len() ==> is_digit_char(#[trigger] tag[i])
    &&& triple_range(tri, 0, tri.len() as int)
    &&& is_full_config(cfg)
    &&& s == im + seq!['-'] + ver + seq!['+'] + tag + seq!['-'] + tri + seq!['-'] + cfg
        + full_suffix()
}

/// `s` matches the full grammar.
pub open spec fn is_full_name(s: Seq<char>) -> bool {
    exists|im: Seq<char>, ver: Seq<char>, tag: Seq<char>, tri: Seq<char>, cfg: Seq<char>|
        full_parts(s, im, ver, tag, tri, cfg)
}

/// Position form of the standalone grammar: the implementation ends at `w`
/// and the `+` before the release tag stands at `p`.
pub open spec fn standalone_split_at(s: Seq<char>, w: int, p: int) -> bool {
    &&& 1 <= w < p
    &&& p + 31 <= s.len()
    &&& forall|i: int| 0 <= i < w ==> is_word_char(#[trigger] s[i])
    &&& s[w] == '-'
    &&& s[p] == '+'
    &&& forall|i: int| p + 1 <= i < p + 9 ==> is_digit_char(#[trigger] s[i])
    &&& s[p + 9] == '-'
    &&& triple_range(s, p + 10, s.len() - 20)
    &&& has_suffix_at(s, s.len() - 20, standalone_suffix())
}

/// Position form of the full grammar: as for the standalone grammar, with
/// the build configuration starting at `e`.
pub open spec fn full_split_at(s: Seq<char>, w: int, p: int, e: int) -> bool {
    &&& 1 <= w < p
    &&& p + 12 <= e <= s.len() - 16
    &&& forall|i: int| 0 <= i < w ==> is_word_char(#[trigger] s[i])
    &&& s[w] == '-'
    &&& s[p] == '+'
    &&& forall|i: int| p + 1 <= i < p + 9 ==> is_digit_char(#[trigger] s[i])
    &&& s[p + 9] == '-'
    &&& triple_range(s, p + 10, e - 1)
    &&& s[e - 1] == '-'
    &&& is_full_config(s.subrange(e, s.len() - 13))
    &&& has_suffix_at(s, s.len() - 13, full_suffix())
}

/// Whether `c` is a word character.
fn word_char(c: char) -> (r: bool)
    ensures
        r == is_word_char(c),
{
    let u = c as u32;
    (97 <= u && u <= 122) || (65 <= u && u <= 90) || (48 <= u && u <= 57) || u == 95
}

/// Whether `c` is an ASCII digit.
fn digit_char(c: char) -> (r: bool)
    ensures
        r == is_digit_char(c),
{
    let u = c as u32;
    48 <= u && u <= 57
}

/// Whether `c` may occur inside a platform triple.
fn triple_char(c: char) -> (r: bool)
    ensures
        r == is_triple_char(c),
{
    word_char(c) || c == '-'
}

/// Length of the leading run of word characters of `s`.
fn word_prefix_len(s: &str) -> (w: usize)
    ensures
        w <= s@.len(),
        forall|i: int| 0 <= i < w ==> is_word_char(#[trigger] s@[i]),
        w < s@.len() ==> !is_word_char(s@[w as int]),
{
    let n = s.unicode_len();
    let mut i: usize = 0;
    while i < n
        invariant
            i <= n,
            n == s@.len(),
            forall|j: int| 0 <= j < i ==> is_word_char(#[trigger] s@[j]),
        decreases n - i,
    {
        if !word_char(s.get_char(i)) {
            return i;
        }
        i = i + 1;
    }
    i
}

/// Whether the eight characters starting at `a` are all digits.
fn digits_at(s: &str, a: usize) -> (r: bool)
    requires
        a + 8 <= s@.len(),
        s@.len() <= usize::MAX,
    ensures
        r == forall|i: int| a <= i < a + 8 ==> is_digit_char(#[trigger] s@[i]),
{
    let mut i: usize = 0;
    while i < 8
        invariant
            i <= 8,
            a + 8 <= s@.len(),
            s@.len() <= usize::MAX,
            forall|j: int| a <= j < a + i ==> is_digit_char(#[trigger] s@[j]),
        decreases 8 - i,
    {
        if !digit_char(s.get_char(a + i)) {
            return false;
        }
        i = i + 1;
    }
    true
}

/// Whether `s[a..b)` is a valid platform triple.
fn triple_at(s: &str, a: usize, b: usize) -> (r: bool)
    requires
        a <= b <= s@.len(),
    ensures
        r == triple_range(s@, a as int, b as int),
{
    if a >= b {
        return false;
    }
    let mut i: usize = a;
    let mut prev_dash: bool = false;
    while i < b
        invariant
            a <= i <= b <= s@.len(),
            a < b,
            forall|j: int| a <= j < i ==> is_triple_char(#[trigger] s@[j]),
            forall|j: int| a + 1 <= j < i ==> !(s@[j - 1] == '-' && #[trigger] s@[j] == '-'),
            prev_dash == (i > a && s@[i as int - 1] == '-'),
        decreases b - i,
    {
        let c = s.get_char(i);
        if !triple_char(c) {
            return false;
        }
        let dash = c == '-';
        if dash && prev_dash {
            return false;
        }
        prev_dash = dash;
        i = i + 1;
    }
    if prev_dash {
        return false;
    }
    true
}

/// The character at position `i` of the standalone suffix.
fn standalone_suffix_char(i: usize) -> (c: char)
    requires
        i < 20,
    ensures
        c == standalone_suffix()[i as int],
{
    match i {
        0 => '-',
        1 => 'i',
        2 => 'n',
        3 => 's',
        4 => 't',
        5 => 'a',
        6 => 'l',
        7 => 'l',
        8 => '_',
        9 => 'o',
        10 => 'n',
        11 => 'l',
        12 => 'y',
        13 => '.',
        14 => 't',
        15 => 'a',
        16 => 'r',
        17 => '.',
        18 => 'g',
        _ => 'z',
    }
}

/// The character at position `i` of the full suffix.
fn full_suffix_char(i: usize) -> (c: char)
    requires
        i < 13,
    ensures
        c == full_suffix()[i as int],
{
    match i {
        0 => '-',
        1 => 'f',
        2 => 'u',
        3 => 'l',
        4 => 'l',
        5 => '.',
        6 => 't',
        7 => 'a',
        8 => 'r',
        9 => '.',
        10 => 'z',
        11 => 's',
        _ => 't',
    }
}

/// Whether the standalone suffix stands at the end of `s`.
fn has_standalone_suffix(s: &str) -> (r: bool)
    ensures
        r == (s@.len() >= 20 && has_suffix_at(s@, s@.len() - 20, standalone_suffix())),
{
    let n = s.unicode_len();
    if n < 20 {
        return false;
    }
    let a = n - 20;
    let mut i: usize = 0;
    while i < 20
        invariant
            i <= 20,
            n == s@.len(),
            n >= 20,
            a == n - 20,
            forall|j: int| 0 <= j < i ==> s@[a + j] == #[trigger] standalone_suffix()[j],
        decreases 20 - i,
    {
        if s.get_char(a + i) != standalone_suffix_char(i) {
            return false;
        }
        i = i + 1;
    }
    true
}

/// Whether the full suffix stands at the end of `s`.
fn has_full_suffix(s: &str) -> (r: bool)
    ensures
        r == (s@.len() >= 13 && has_suffix_at(s@, s@.len() - 13, full_suffix())),
{
    let n = s.unicode_len();
    if n < 13 {
        return false;
    }
    let a = n - 13;
    let mut i: usize = 0;
    while i < 13
        invariant
            i <= 13,
            n == s@.len(),
            n >= 13,
            a == n - 13,
            forall|j: int| 0 <= j < i ==> s@[a + j] == #[trigger] full_suffix()[j],
        decreases 13 - i,
    {
        if s.get_char(a + i) != full_suffix_char(i) {
            return false;
        }
        i = i + 1;
    }
    true
}

/// Whether `s` is one of the closed set of full build configurations.
fn full_config_at(s: &str) -> (r: bool)
    ensures
        r == is_full_config(s@),
{
    match get_config_order(s) {
        Ok(o) => {
            match o {
                ConfigOrder::Unspecified => {
                    proof {
                        assert(s@ == Seq::<char>::empty());
                        assert(cfg_pgo_lto().len() == 7);
                        assert(cfg_pgo().len() == 3);
                        assert(cfg_lto().len() == 3);
                        assert(cfg_noopt().len() == 5);
                        assert(cfg_debug().len() == 5);
                    }
                    false
                },
                _ => true,
            }
        },
        Err(_) => false,
    }
}

/// A position-form standalone match yields a grammar decomposition whose
/// parts are the corresponding segments of `s`.
proof fn lemma_standalone_split_to_parts(s: Seq<char>, w: int, p: int)
    requires
        standalone_split_at(s, w, p),
    ensures
        standalone_parts(
            s,
            s.subrange(0, w),
            s.subrange(w + 1, p),
            s.subrange(p + 1, p + 9),
            s.subrange(p + 10, s.len() - 20),
        ),
{
    let im = s.subrange(0, w);
    let ver = s.subrange(w + 1, p);
    let tag = s.subrange(p + 1, p + 9);
    let tri = s.subrange(p + 10, s.len() - 20);
    assert(s =~= im + seq!['-'] + ver + seq!['+'] + tag + seq!['-'] + tri + standalone_suffix());
}

/// A grammar decomposition determines the position-form match at the ends of
/// its implementation and version parts, and each part is the corresponding
/// segment of `s`.
proof fn lemma_standalone_parts_to_split(
    s: Seq<char>,
    im: Seq<char>,
    ver: Seq<char>,
    tag: Seq<char>,
    tri: Seq<char>,
)
    requires
        standalone_parts(s, im, ver, tag, tri),
    ensures
        standalone_split_at(s, im.len() as int, (im.len() + 1 + ver.len()) as int),
        im == s.subrange(0, im.len() as int),
        ver == s.subrange(im.len() as int + 1, (im.len() + 1 + ver.len()) as int),
        tag == s.subrange((im.len() + 2 + ver.len()) as int, (im.len() + 10 + ver.len()) as int),
        tri == s.subrange((im.len() + 11 + ver.len()) as int, s.len() - 20),
{
    let w = im.len() as int;
    let p = (im.len() + 1 + ver.len()) as int;
    assert(s.len() == im.len() + 1 + ver.len() + 1 + 8 + 1 + tri.len() + 20);
    assert(im =~= s.subrange(0, w));
    assert(ver =~= s.subrange(w + 1, p));
    assert(tag =~= s.subrange(p + 1, p + 9));
    assert(tri =~= s.subrange(p + 10, s.len() - 20));
    assert(standalone_suffix() =~= s.subrange(s.len() - 20, s.len() as int));
}

/// A position-form full match yields a grammar decomposition whose parts are
/// the corresponding segments of `s`.
proof fn lemma_full_split_to_parts(s: Seq<char>, w: int, p: int, e: int)
    requires
        full_split_at(s, w, p, e),
    ensures
        full_parts(
            s,
            s.subrange(0, w),
            s.subrange(w + 1, p),
            s.subrange(p + 1, p + 9),
            s.subrange(p + 10, e - 1),
            s.subrange(e, s.len() - 13),
        ),
{
    let im = s.subrange(0, w);
    let ver = s.subrange(w + 1, p);
    let tag = s.subrange(p + 1, p + 9);
    let tri = s.subrange(p + 10, e - 1);
    let cfg = s.subrange(e, s.len() - 13);
    assert(s =~= im + seq!['-'] + ver + seq!['+'] + tag + seq!['-'] + tri + seq!['-'] + cfg
        + full_suffix());
}

/// The length a recognized build configuration may have.
proof fn lemma_full_config_len(c: Seq<char>)
    requires
        is_full_config(c),
    ensures
        c.len() == 3 || c.len() == 5 || c.len() == 7,
{
    assert(cfg_pgo_lto().len() == 7);
    assert(cfg_pgo().len() == 3);
    assert(cfg_lto().len() == 3);
    assert(cfg_noopt().len() == 5);
    assert(cfg_debug().len() == 5);
}

/// A full grammar decomposition determines the position-form match, and each
/// part is the corresponding segment of `s`.
proof fn lemma_full_parts_to_split(
    s: Seq<char>,
    im: Seq<char>,
    ver: Seq<char>,
    tag: Seq<char>,
    tri: Seq<char>,
    cfg: Seq<char>,
)
    requires
        full_parts(s, im, ver, tag, tri, cfg),
    ensures
        full_split_at(
            s,
            im.len() as int,
            (im.len() + 1 + ver.len()) as int,
            s.len() - 13 - cfg.len(),
        ),
        im == s.subrange(0, im.len() as int),
        ver == s.subrange(im.len() as int + 1, (im.len() + 1 + ver.len()) as int),
        tag == s.subrange((im.len() + 2 + ver.len()) as int, (im.len() + 10 + ver.len()) as int),
        tri == s.subrange((im.len() + 11 + ver.len()) as int, s.len() - 14 - cfg.len()),
        cfg == s.subrange(s.len() - 13 - cfg.len(), s.len() - 13),
{
    let w = im.len() as int;
    let p = (im.len() + 1 + ver.len()) as int;
    let e = s.len() - 13 - cfg.len();
    lemma_full_config_len(cfg);
    assert(s.len() == im.len() + 1 + ver.len() + 1 + 8 + 1 + tri.len() + 1 + cfg.len() + 13);
    assert(im =~= s.subrange(0, w));
    assert(ver =~= s.subrange(w + 1, p));
    assert(tag =~= s.subrange(p + 1, p + 9));
    assert(tri =~= s.subrange(p + 10, e - 1));
    assert(cfg =~= s.subrange(e, s.len() - 13));
    assert(full_suffix() =~= s.subrange(s.len() - 13, s.len() as int));
}

/// Finds the position-form standalone match of `name`, if there is one.
fn find_standalone_split(name: &str) -> (r: Option<(usize, usize)>)
    ensures
        match r {
            Some(wp) => standalone_split_at(name@, wp.0 as int, wp.1 as int),
            None => forall|w: int, p: int| !standalone_split_at(name@, w, p),
        },
{
    let n = name.unicode_len();
    if !has_standalone_suffix(name) {
        return None;
    }
    if n < 33 {
        return None;
    }
    let w = word_prefix_len(name);
    if w == 0 || w >= n || name.get_char(w) != '-' {
        proof {
            assert forall|w2: int, p2: int| !standalone_split_at(name@, w2, p2) by {
                if standalone_split_at(name@, w2, p2) {
                    lemma_word_run_unique(name@, w2, w as int);
                }
            }
        }
        return None;
    }
    if w > n - 31 {
        proof {
            assert forall|w2: int, p2: int| !standalone_split_at(name@, w2, p2) by {
                if standalone_split_at(name@, w2, p2) {
                    lemma_word_run_unique(name@, w2, w as int);
                }
            }
        }
        return None;
    }
    let mut q: usize = n - 31;
    while q > w
        invariant
            n == name@.len(),
            n >= 33,
            1 <= w < n,
            w <= q <= n - 31,
            has_suffix_at(name@, n - 20, standalone_suffix()),
            name@[w as int] == '-',
            forall|i: int| 0 <= i < w ==> is_word_char(#[trigger] name@[i]),
            !is_word_char(name@[w as int]),
            forall|p2: int| q < p2 ==> !standalone_split_at(name@, w as int, p2),
        decreases q,
    {
        if name.get_char(q) == '+' && digits_at(name, q + 1) && name.get_char(q + 9) == '-'
            && triple_at(name, q + 10, n - 20) {
            return Some((w, q));
        }
        q = q - 1;
    }
    proof {
        assert forall|w2: int, p2: int| !standalone_split_at(name@, w2, p2) by {
            if standalone_split_at(name@, w2, p2) {
                lemma_word_run_unique(name@, w2, w as int);
            }
        }
    }
    None
}

/// Checks the full-grammar conditions that depend on the configuration
/// boundary `e`.
fn try_full_at(name: &str, p: usize, e: usize) -> (r: bool)
    requires
        p + 12 <= e,
        e + 16 <= name@.len(),
        name@.len() <= usize::MAX,
    ensures
        r == (name@[e as int - 1] == '-' && triple_range(name@, p as int + 10, e as int - 1)
            && is_full_config(name@.subrange(e as int, name@.len() - 13))),
{
    let n = name.unicode_len();
    if name.get_char(e - 1) != '-' {
        return false;
    }
    if !triple_at(name, p + 10, e - 1) {
        return false;
    }
    let cfg = name.substring_char(e, n - 13);
    full_config_at(cfg)
}

/// Finds the position-form full match of `name`, if there is one.
fn find_full_split(name: &str) -> (r: Option<(usize, usize, usize)>)
    ensures
        match r {
            Some(wpe) => full_split_at(name@, wpe.0 as int, wpe.1 as int, wpe.2 as int),
            None => forall|w: int, p: int, e: int| !full_split_at(name@, w, p, e),
        },
{
    let n = name.unicode_len();
    if !has_full_suffix(name) {
        return None;
    }
    if n < 30 {
        return None;
    }
    let w = word_prefix_len(name);
    if w == 0 || w >= n || name.get_char(w) != '-' {
        proof {
            assert forall|w2: int, p2: int, e2: int| !full_split_at(name@, w2, p2, e2) by {
                if full_split_at(name@, w2, p2, e2) {
                    lemma_word_run_unique(name@, w2, w as int);
                }
            }
        }
        return None;
    }
    if w > n - 28 {
        proof {
            assert forall|w2: int, p2: int, e2: int| !full_split_at(name@, w2, p2, e2) by {
                if full_split_at(name@, w2, p2, e2) {
                    lemma_word_run_unique(name@, w2, w as int);
                }
            }
        }
        return None;
    }
    let mut q: usize = n - 28;
    while q > w
        invariant
            n == name@.len(),
            n >= 30,
            1 <= w < n,
            w <= q <= n - 28,
            has_suffix_at(name@, n - 13, full_suffix()),
            name@[w as int] == '-',
            forall|i: int| 0 <= i < w ==> is_word_char(#[trigger] name@[i]),
            !is_word_char(name@[w as int]),
            forall|p2: int, e2: int| q < p2 ==> !full_split_at(name@, w as int, p2, e2),
        decreases q,
    {
        if name.get_char(q) == '+' && digits_at(name, q + 1) && name.get_char(q + 9) == '-' {
            let c20 = q + 12 <= n - 20 && try_full_at(name, q, n - 20);
            if c20 {
                return Some((w, q, n - 20));
            }
            let c18 = q + 12 <= n - 18 && try_full_at(name, q, n - 18);
            if c18 {
                return Some((w, q, n - 18));
            }
            let c16 = q + 12 <= n - 16 && try_full_at(name, q, n - 16);
            if c16 {
                return Some((w, q, n - 16));
            }
            proof {
                assert forall|e2: int| !full_split_at(name@, w as int, q as int, e2) by {
                    if full_split_at(name@, w as int, q as int, e2) {
                        lemma_full_config_len(name@.subrange(e2, name@.len() - 13));
                    }
                }
            }
        }
        q = q - 1;
    }
    proof {
        assert forall|w2: int, p2: int, e2: int| !full_split_at(name@, w2, p2, e2) by {
            if full_split_at(name@, w2, p2, e2) {
                lemma_word_run_unique(name@, w2, w as int);
            }
        }
    }
    None
}

/// The end of the leading word-character run of `s` is unique.
proof fn lemma_word_run_unique(s: Seq<char>, w1: int, w2: int)
    requires
        0 <= w1 <= s.len(),
        0 <= w2 <= s.len(),
        forall|i: int| 0 <= i < w1 ==> is_word_char(#[trigger] s[i]),
        forall|i: int| 0 <= i < w2 ==> is_word_char(#[trigger] s[i]),
        w1 < s.len() ==> !is_word_char(s[w1]),
        w2 < s.len() ==> !is_word_char(s[w2]),
    ensures
        w1 == w2,
{
    if w1 < w2 {
        assert(is_word_char(s[w1]));
    }
    if w2 < w1 {
        assert(is_word_char(s[w2]));
    }
}

/// A standalone filename ends in the character `z`.
proof fn lemma_standalone_last_char(s: Seq<char>)
    requires
        is_standalone_name(s),
    ensures
        s.len() > 0 && s[s.len() - 1] == 'z',
{
    let (im, ver, tag, tri) = choose|im: Seq<char>, ver: Seq<char>, tag: Seq<char>,
        tri: Seq<char>| standalone_parts(s, im, ver, tag, tri);
    let head = im + seq!['-'] + ver + seq!['+'] + tag + seq!['-'] + tri;
    assert(s == head + standalone_suffix());
    assert(standalone_suffix()[19] == 'z');
    assert(s[s.len() - 1] == standalone_suffix()[19]);
}

/// A full filename ends in the character `t`.
proof fn lemma_full_last_char(s: Seq<char>)
    requires
        is_full_name(s),
    ensures
        s.len() > 0 && s[s.len() - 1] == 't',
{
    let (im, ver, tag, tri, cfg) = choose|im: Seq<char>, ver: Seq<char>, tag: Seq<char>,
        tri: Seq<char>, cfg: Seq<char>| full_parts(s, im, ver, tag, tri, cfg);
    let head = im + seq!['-'] + ver + seq!['+'] + tag + seq!['-'] + tri + seq!['-'] + cfg;
    assert(s == head + full_suffix());
    assert(full_suffix()[12] == 't');
    assert(s[s.len() - 1] == full_suffix()[12]);
}

/// A filename never matches both grammars: the two literal suffixes differ
/// in their last character.
pub proof fn lemma_grammars_exclusive(s: Seq<char>)
    ensures
        !(is_standalone_name(s) && is_full_name(s)),
{
    if is_standalone_name(s) && is_full_name(s) {
        lemma_standalone_last_char(s);
        lemma_full_last_char(s);
        assert(false);
    }
}

/// Every configuration of the closed set has a place in the preference
/// order.
pub proof fn lemma_full_config_ranked(c: Seq<char>)
    requires
        is_full_config(c),
    ensures
        config_order_spec(c) is Some,
{
}

/// No recognized build configuration is empty, so a descriptor's
/// configuration is empty exactly when it is standalone.
pub proof fn lemma_full_config_nonempty(c: Seq<char>)
    requires
        is_full_config(c),
    ensures
        c.len() > 0,
{
    lemma_full_config_len(c);
}

/// The position of the `+` of a standalone match is unique.
proof fn lemma_standalone_plus_unique(s: Seq<char>, w: int, p1: int, p2: int)
    requires
        standalone_split_at(s, w, p1),
        standalone_split_at(s, w, p2),
    ensures
        p1 == p2,
{
    if p1 < p2 {
        if p2 <= p1 + 8 {
            assert(is_digit_char(s[p2]));
        } else if p2 == p1 + 9 {
            assert(s[p2] == '-');
        } else {
            assert(p1 + 10 <= p2 < s.len() - 20);
            assert(is_triple_char(s[p2]));
        }
        assert(false);
    }
    if p2 < p1 {
        if p1 <= p2 + 8 {
            assert(is_digit_char(s[p1]));
        } else if p1 == p2 + 9 {
            assert(s[p1] == '-');
        } else {
            assert(p2 + 10 <= p1 < s.len() - 20);
            assert(is_triple_char(s[p1]));
        }
        assert(false);
    }
}

/// The decomposition of a standalone filename is unique: classification
/// recovers exactly one tuple of identity fields.
pub proof fn lemma_standalone_parts_unique(
    s: Seq<char>,
    im1: Seq<char>,
    ver1: Seq<char>,
    tag1: Seq<char>,
    tri1: Seq<char>,
    im2: Seq<char>,
    ver2: Seq<char>,
    tag2: Seq<char>,
    tri2: Seq<char>,
)
    requires
        standalone_parts(s, im1, ver1, tag1, tri1),
        standalone_parts(s, im2, ver2, tag2, tri2),
    ensures
        im1 == im2,
        ver1 == ver2,
        tag1 == tag2,
        tri1 == tri2,
{
    lemma_standalone_parts_to_split(s, im1, ver1, tag1, tri1);
    lemma_standalone_parts_to_split(s, im2, ver2, tag2, tri2);
    let w1 = im1.len() as int;
    let p1 = (im1.len() + 1 + ver1.len()) as int;
    let w2 = im2.len() as int;
    let p2 = (im2.len() + 1 + ver2.len()) as int;
    lemma_word_run_unique(s, w1, w2);
    lemma_standalone_plus_unique(s, w1, p1, p2);
}

/// No recognized build configuration contains a dash.
proof fn lemma_config_no_dash(c: Seq<char>)
    requires
        is_full_config(c),
    ensures
        forall|j: int| 0 <= j < c.len() ==> #[trigger] c[j] != '-',
{
    if c == cfg_pgo_lto() {
        assert(forall|j: int| 0 <= j < 7 ==> #[trigger] cfg_pgo_lto()[j] != '-');
    } else if c == cfg_pgo() {
        assert(forall|j: int| 0 <= j < 3 ==> #[trigger] cfg_pgo()[j] != '-');
    } else if c == cfg_lto() {
        assert(forall|j: int| 0 <= j < 3 ==> #[trigger] cfg_lto()[j] != '-');
    } else if c == cfg_noopt() {
        assert(forall|j: int| 0 <= j < 5 ==> #[trigger] cfg_noopt()[j] != '-');
    } else {
        assert(forall|j: int| 0 <= j < 5 ==> #[trigger] cfg_debug()[j] != '-');
    }
}

/// The position of the `+` of a full match is unique.
proof fn lemma_full_plus_unique(s: Seq<char>, w: int, p1: int, e1: int, p2: int, e2: int)
    requires
        full_split_at(s, w, p1, e1),
        full_split_at(s, w, p2, e2),
    ensures
        p1 == p2,
{
    lemma_full_config_len(s.subrange(e1, s.len() - 13));
    lemma_full_config_len(s.subrange(e2, s.len() - 13));
    if p1 < p2 {
        assert(p2 <= s.len() - 28);
        assert(e1 >= s.len() - 20);
        if p2 <= p1 + 8 {
            assert(is_digit_char(s[p2]));
        } else if p2 == p1 + 9 {
            assert(s[p2] == '-');
        } else {
            assert(p1 + 10 <= p2 < e1 - 1);
            assert(is_triple_char(s[p2]));
        }
        assert(false);
    }
    if p2 < p1 {
        assert(p1 <= s.len() - 28);
        assert(e2 >= s.len() - 20);
        if p1 <= p2 + 8 {
            assert(is_digit_char(s[p1]));
        } else if p1 == p2 + 9 {
            assert(s[p1] == '-');
        } else {
            assert(p2 + 10 <= p1 < e2 - 1);
            assert(is_triple_char(s[p1]));
        }
        assert(false);
    }
}

/// The start of the build configuration of a full match is unique.
proof fn lemma_full_cfg_unique(s: Seq<char>, w: int, p: int, e1: int, e2: int)
    requires
        full_split_at(s, w, p, e1),
        full_split_at(s, w, p, e2),
    ensures
        e1 == e2,
{
    if e1 < e2 {
        let cfg1 = s.subrange(e1, s.len() - 13);
        lemma_config_no_dash(cfg1);
        assert(cfg1[e2 - 1 - e1] == '-');
        assert(false);
    }
    if e2 < e1 {
        let cfg2 = s.subrange(e2, s.len() - 13);
        lemma_config_no_dash(cfg2);
        assert(cfg2[e1 - 1 - e2] == '-');
        assert(false);
    }
}

/// The decomposition of a full filename is unique: classification recovers
/// exactly one tuple of identity fields and one build configuration.
pub proof fn lemma_full_parts_unique(
    s: Seq<char>,
    im1: Seq<char>,
    ver1: Seq<char>,
    tag1: Seq<char>,
    tri1: Seq<char>,
    cfg1: Seq<char>,
    im2: Seq<char>,
    ver2: Seq<char>,
    tag2: Seq<char>,
    tri2: Seq<char>,
    cfg2: Seq<char>,
)
    requires
        full_parts(s, im1, ver1, tag1, tri1, cfg1),
        full_parts(s, im2, ver2, tag2, tri2, cfg2),
    ensures
        im1 == im2,
        ver1 == ver2,
        tag1 == tag2,
        tri1 == tri2,
        cfg1 == cfg2,
{
    lemma_full_parts_to_split(s, im1, ver1, tag1, tri1, cfg1);
    lemma_full_parts_to_split(s, im2, ver2, tag2, tri2, cfg2);
    let w1 = im1.len() as int;
    let p1 = (im1.len() + 1 + ver1.len()) as int;
    let e1 = s.len() - 13 - cfg1.len();
    let w2 = im2.len() as int;
    let p2 = (im2.len() + 1 + ver2.len()) as int;
    let e2 = s.len() - 13 - cfg2.len();
    lemma_word_run_unique(s, w1, w2);
    lemma_full_plus_unique(s, w1, p1, e1, p2, e2);
    lemma_full_cfg_unique(s, w1, p1, e1, e2);
}

/// Classifies a filename under the two grammars, standalone first, and
/// builds the descriptor carrying the download URL.
pub fn classify(name: &str, url: &str) -> (r: Result<ArtifactDescriptor, ClassifyError>)
    ensures
        match r {
            Ok(d) => {
                &&& d.download_url@ == url@
                &&& (d.variant is Standalone <==> is_standalone_name(name@))
                &&& (d.variant is Full <==> is_full_name(name@))
                &&& d.variant is Standalone ==> standalone_parts(
                    name@,
                    d.implementation@,
                    d.version@,
                    d.release_tag@,
                    d.platform_triple@,
                ) && d.build_config@ == Seq::<char>::empty()
                &&& d.variant is Full ==> full_parts(
                    name@,
                    d.implementation@,
                    d.version@,
                    d.release_tag@,
                    d.platform_triple@,
                    d.build_config@,
                )
            },
            Err(e) => {
                &&& !is_standalone_name(name@)
                &&& !is_full_name(name@)
                &&& e matches ClassifyError::UnsupportedFilename(f) && f@ == name@
            },
        },
{
    let n = name.unicode_len();
    if let Some((w, p)) = find_standalone_split(name) {
        proof {
            lemma_standalone_split_to_parts(name@, w as int, p as int);
        }
        let d = ArtifactDescriptor {
            implementation: name.substring_char(0, w).to_owned(),
            version: name.substring_char(w + 1, p).to_owned(),
            release_tag: name.substring_char(p + 1, p + 9).to_owned(),
            platform_triple: name.substring_char(p + 10, n - 20).to_owned(),
            build_config: String::new(),
            variant: Variant::Standalone,
            download_url: url.to_owned(),
        };
        proof {
            assert(is_standalone_name(name@));
            lemma_grammars_exclusive(name@);
        }
        return Ok(d);
    }
    if let Some((w, p, e)) = find_full_split(name) {
        proof {
            lemma_full_split_to_parts(name@, w as int, p as int, e as int);
        }
        let d = ArtifactDescriptor {
            implementation: name.substring_char(0, w).to_owned(),
            version: name.substring_char(w + 1, p).to_owned(),
            release_tag: name.substring_char(p + 1, p + 9).to_owned(),
            platform_triple: name.substring_char(p + 10, e - 1).to_owned(),
            build_config: name.substring_char(e, n - 13).to_owned(),
            variant: Variant::Full,
            download_url: url.to_owned(),
        };
        proof {
            assert(is_full_name(name@));
            lemma_grammars_exclusive(name@);
        }
        return Ok(d);
    }
    proof {
        assert(!is_standalone_name(name@)) by {
            if is_standalone_name(name@) {
                let (im, ver, tag, tri) = choose|im: Seq<char>, ver: Seq<char>, tag: Seq<char>,
                    tri: Seq<char>| standalone_parts(name@, im, ver, tag, tri);
                lemma_standalone_parts_to_split(name@, im, ver, tag, tri);
            }
        }
        assert(!is_full_name(name@)) by {
            if is_full_name(name@) {
                let (im, ver, tag, tri, cfg) = choose|im: Seq<char>, ver: Seq<char>,
                    tag: Seq<char>, tri: Seq<char>, cfg: Seq<char>| full_parts(
                    name@, im, ver, tag, tri, cfg,
                );
                lemma_full_parts_to_split(name@, im, ver, tag, tri, cfg);
            }
        }
    }
    Err(ClassifyError::UnsupportedFilename(name.to_owned()))
}

} // verus!
