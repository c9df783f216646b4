//! The pure pipeline over a release listing: keep the archive filenames,
//! classify each into a descriptor, split the two populations, group the
//! full descriptors, and pair every standalone descriptor with the best
//! member of its group.

use vstd::prelude::*;
use vstd::string::*;

use crate::classify::{classify, full_parts, has_suffix_at, is_full_name, is_standalone_name,
    lemma_full_config_ranked, lemma_full_parts_unique, lemma_standalone_parts_unique,
    standalone_parts, ClassifyError};
use crate::model::{desc_has_key, same_key, ArtifactDescriptor, GroupKey, SelectionResult, Variant};
use crate::select::{all_ranked, best_index, config_order_spec, full_with_key, group_and_rank,
    group_missing, lemma_full_with_key_members, lemma_full_with_key_subset, pair, pairing_ok,
    SelectError};

verus! {

/// Error that aborts the whole run, as stage contracts detail.
#[derive(Debug)]
pub enum PipelineError {
    UnsupportedFilename(String),
    EmptyGroup,
    UnknownBuildConfig(String),
}

/// The gzip archive suffix a listing keeps.
pub open spec fn gz_suffix() -> Seq<char> {
    seq!['.', 't', 'a', 'r', '.', 'g', 'z']
}

/// The zstd archive suffix a listing keeps.
pub open spec fn zst_suffix() -> Seq<char> {
    seq!['.', 't', 'a', 'r', '.', 'z', 's', 't']
}

/// Whether a filename ends in one of the two recognized archive suffixes.
pub open spec fn has_archive_suffix(s: Seq<char>) -> bool {
    ||| s.len() >= 7 && has_suffix_at(s, s.len() - 7, gz_suffix())
    ||| s.len() >= 8 && has_suffix_at(s, s.len() - 8, zst_suffix())
}

/// The character at position `i` of the gzip archive suffix.
fn gz_suffix_char(i: usize) -> (c: char)
    requires
        i < 7,
    ensures
        c == gz_suffix()[i as int],
{
    match i {
        0 => '.',
        1 => 't',
        2 => 'a',
        3 => 'r',
        4 => '.',
        5 => 'g',
        _ => 'z',
    }
}

/// The character at position `i` of the zstd archive suffix.
fn zst_suffix_char(i: usize) -> (c: char)
    requires
        i < 8,
    ensures
        c == zst_suffix()[i as int],
{
    match i {
        0 => '.',
        1 => 't',
        2 => 'a',
        3 => 'r',
        4 => '.',
        5 => 'z',
        6 => 's',
        _ => 't',
    }
}

/// Whether `name` ends in the gzip archive suffix.
fn ends_with_gz(name: &str) -> (r: bool)
    ensures
        r == (name@.len() >= 7 && has_suffix_at(name@, name@.len() - 7, gz_suffix())),
{
    let n = name.unicode_len();
    if n < 7 {
        return false;
    }
    let a = n - 7;
    let mut i: usize = 0;
    while i < 7
        invariant
            i <= 7,
            n == name@.len(),
            n >= 7,
            a == n - 7,
            forall|j: int| 0 <= j < i ==> name@[a + j] == #[trigger] gz_suffix()[j],
        decreases 7 - i,
    {
        if name.get_char(a + i) != gz_suffix_char(i) {
            return false;
        }
        i = i + 1;
    }
    true
}

/// Whether `name` ends in the zstd archive suffix.
fn ends_with_zst(name: &str) -> (r: bool)
    ensures
        r == (name@.len() >= 8 && has_suffix_at(name@, name@.len() - 8, zst_suffix())),
{
    let n = name.unicode_len();
    if n < 8 {
        return false;
    }
    let a = n - 8;
    let mut i: usize = 0;
    while i < 8
        invariant
            i <= 8,
            n == name@.len(),
            n >= 8,
            a == n - 8,
            forall|j: int| 0 <= j < i ==> name@[a + j] == #[trigger] zst_suffix()[j],
        decreases 8 - i,
    {
        if name.get_char(a + i) != zst_suffix_char(i) {
            return false;
        }
        i = i + 1;
    }
    true
}

/// Whether `name` ends in one of the two recognized archive suffixes.
pub fn archive_suffix(name: &str) -> (r: bool)
    ensures
        r == has_archive_suffix(name@),
{
    ends_with_gz(name) || ends_with_zst(name)
}

/// `d` is the classification of a standalone filename `name` published at
/// `url`.
pub open spec fn classifies_standalone(
    name: Seq<char>,
    url: Seq<char>,
    d: ArtifactDescriptor,
) -> bool {
    &&& standalone_parts(name, d.implementation@, d.version@, d.release_tag@, d.platform_triple@)
    &&& d.build_config@ == Seq::<char>::empty()
    &&& d.variant is Standalone
    &&& d.download_url@ == url
}

/// `d` is the classification of a full filename `name` published at `url`.
pub open spec fn classifies_full(name: Seq<char>, url: Seq<char>, d: ArtifactDescriptor) -> bool {
    &&& full_parts(
        name,
        d.implementation@,
        d.version@,
        d.release_tag@,
        d.platform_triple@,
        d.build_config@,
    )
    &&& d.variant is Full
    &&& d.download_url@ == url
}

/// A descriptor classified under the standalone grammar carries exactly the
/// four identity fields of any decomposition of its filename, and an empty
/// configuration.
pub proof fn lemma_classified_standalone_exact(
    name: Seq<char>,
    url: Seq<char>,
    d: ArtifactDescriptor,
    im: Seq<char>,
    ver: Seq<char>,
    tag: Seq<char>,
    tri: Seq<char>,
)
    requires
        classifies_standalone(name, url, d),
        standalone_parts(name, im, ver, tag, tri),
    ensures
        d.implementation@ == im,
        d.version@ == ver,
        d.release_tag@ == tag,
        d.platform_triple@ == tri,
        d.build_config@ == Seq::<char>::empty(),
{
    crate::classify::lemma_standalone_parts_unique(
        name,
        d.implementation@,
        d.version@,
        d.release_tag@,
        d.platform_triple@,
        im,
        ver,
        tag,
        tri,
    );
}

/// A descriptor classified under the full grammar carries exactly the four
/// identity fields and the configuration of any decomposition of its
/// filename.
pub proof fn lemma_classified_full_exact(
    name: Seq<char>,
    url: Seq<char>,
    d: ArtifactDescriptor,
    im: Seq<char>,
    ver: Seq<char>,
    tag: Seq<char>,
    tri: Seq<char>,
    cfg: Seq<char>,
)
    requires
        classifies_full(name, url, d),
        full_parts(name, im, ver, tag, tri, cfg),
    ensures
        d.implementation@ == im,
        d.version@ == ver,
        d.release_tag@ == tag,
        d.platform_triple@ == tri,
        d.build_config@ == cfg,
{
    crate::classify::lemma_full_parts_unique(
        name,
        d.implementation@,
        d.version@,
        d.release_tag@,
        d.platform_triple@,
        d.build_config@,
        im,
        ver,
        tag,
        tri,
        cfg,
    );
}

/// The kept listing entries whose filenames match the standalone grammar,
/// in listing order.
pub open spec fn standalone_entries(listing: Seq<(String, String)>) -> Seq<(String, String)>
    decreases listing.len(),
{
    if listing.len() == 0 {
        Seq::empty()
    } else {
        let rest = standalone_entries(listing.drop_last());
        if has_archive_suffix(listing.last().0@) && is_standalone_name(listing.last().0@) {
            rest.push(listing.last())
        } else {
            rest
        }
    }
}

/// The kept listing entries whose filenames match the full grammar, in
/// listing order.
pub open spec fn full_entries(listing: Seq<(String, String)>) -> Seq<(String, String)>
    decreases listing.len(),
{
    if listing.len() == 0 {
        Seq::empty()
    } else {
        let rest = full_entries(listing.drop_last());
        if has_archive_suffix(listing.last().0@) && is_full_name(listing.last().0@) {
            rest.push(listing.last())
        } else {
            rest
        }
    }
}

/// Every kept filename of the listing matches one of the two grammars.
pub open spec fn all_kept_classifiable(listing: Seq<(String, String)>) -> bool {
    forall|j: int|
        0 <= j < listing.len() && has_archive_suffix((#[trigger] listing[j]).0@)
            ==> is_standalone_name(listing[j].0@) || is_full_name(listing[j].0@)
}

/// The two filenames decompose under their grammars with the same four
/// identity fields: their descriptors belong to one group.
pub open spec fn grouped_together(sname: Seq<char>, fname: Seq<char>) -> bool {
    exists|im: Seq<char>, ver: Seq<char>, tag: Seq<char>, tri: Seq<char>, cfg: Seq<char>|
        standalone_parts(sname, im, ver, tag, tri) && #[trigger] full_parts(
            fname,
            im,
            ver,
            tag,
            tri,
            cfg,
        )
}

/// The `i`-th standalone entry of the listing shares its identity fields
/// with no full entry.
pub open spec fn unmatched_standalone(listing: Seq<(String, String)>, i: int) -> bool {
    forall|k: int|
        0 <= k < full_entries(listing).len() ==> !grouped_together(
            standalone_entries(listing)[i].0@,
            (#[trigger] full_entries(listing)[k]).0@,
        )
}

/// A listing that some run pairs completely has no unmatched standalone
/// entry: the outcome of a run is decided by the listing alone, so an
/// identical listing cannot be paired by one run and refused with an absent
/// group by another.
pub proof fn lemma_paired_listing_has_no_unmatched(
    listing: Seq<(String, String)>,
    sa: Seq<ArtifactDescriptor>,
    fu: Seq<ArtifactDescriptor>,
    groups: Seq<(GroupKey, Vec<ArtifactDescriptor>)>,
    rs: Seq<SelectionResult>,
)
    requires
        sa.len() == standalone_entries(listing).len(),
        forall|k: int|
            0 <= k < sa.len() ==> classifies_standalone(
                standalone_entries(listing)[k].0@,
                standalone_entries(listing)[k].1@,
                #[trigger] sa[k],
            ),
        fu.len() == full_entries(listing).len(),
        forall|k: int|
            0 <= k < fu.len() ==> classifies_full(
                full_entries(listing)[k].0@,
                full_entries(listing)[k].1@,
                #[trigger] fu[k],
            ),
        forall|g: int|
            0 <= g < groups.len() ==> (#[trigger] groups[g]).1@ == full_with_key(fu, groups[g].0),
        pairing_ok(sa, groups, rs),
    ensures
        forall|i: int|
            0 <= i < standalone_entries(listing).len() ==> !(#[trigger] unmatched_standalone(
                listing,
                i,
            )),
{
    assert forall|i: int|
        0 <= i < standalone_entries(listing).len() implies !(#[trigger] unmatched_standalone(
        listing,
        i,
    )) by {
        let paired = rs[i];
        let gi = choose|gi: int|
            0 <= gi < groups.len() && desc_has_key(sa[i], (#[trigger] groups[gi]).0)
                && groups[gi].1@.len() > 0 && all_ranked(groups[gi].1@) && paired.best_full
                == groups[gi].1@[best_index(groups[gi].1@)];
        lemma_full_with_key_members(fu, groups[gi].0);
        let j = choose|j: int|
            0 <= j < fu.len() && (#[trigger] fu[j]).variant is Full && desc_has_key(
                fu[j],
                groups[gi].0,
            );
        if unmatched_standalone(listing, i) {
            assert(full_parts(
                full_entries(listing)[j].0@,
                sa[i].implementation@,
                sa[i].version@,
                sa[i].release_tag@,
                sa[i].platform_triple@,
                fu[j].build_config@,
            ));
            assert(grouped_together(
                standalone_entries(listing)[i].0@,
                full_entries(listing)[j].0@,
            ));
            assert(false);
        }
    }
}

/// Classifies every kept entry of the listing, splitting the descriptors
/// into the standalone and the full population, both in listing order; the
/// first kept filename that matches neither grammar aborts the run.
pub fn classify_listing(listing: &Vec<(String, String)>) -> (r: Result<
    (Vec<ArtifactDescriptor>, Vec<ArtifactDescriptor>),
    ClassifyError,
>)
    ensures
        match r {
            Ok(sf) => {
                &&& all_kept_classifiable(listing@)
                &&& sf.0@.len() == standalone_entries(listing@).len()
                &&& forall|k: int|
                    0 <= k < sf.0@.len() ==> classifies_standalone(
                        standalone_entries(listing@)[k].0@,
                        standalone_entries(listing@)[k].1@,
                        #[trigger] sf.0@[k],
                    )
                &&& sf.1@.len() == full_entries(listing@).len()
                &&& forall|k: int|
                    0 <= k < sf.1@.len() ==> classifies_full(
                        full_entries(listing@)[k].0@,
                        full_entries(listing@)[k].1@,
                        #[trigger] sf.1@[k],
                    )
            },
            Err(e) => {
                &&& !all_kept_classifiable(listing@)
                &&& e matches ClassifyError::UnsupportedFilename(f) && exists|j: int|
                    0 <= j < listing@.len() && (#[trigger] listing@[j]).0@ == f@
                        && has_archive_suffix(f@) && !is_standalone_name(f@) && !is_full_name(f@)
            },
        },
{
    let mut sa: Vec<ArtifactDescriptor> = Vec::new();
    let mut fu: Vec<ArtifactDescriptor> = Vec::new();
    let mut j: usize = 0;
    while j < listing.len()
        invariant
            j <= listing@.len(),
            forall|m: int|
                0 <= m < j && has_archive_suffix((#[trigger] listing@[m]).0@)
                    ==> is_standalone_name(listing@[m].0@) || is_full_name(listing@[m].0@),
            sa@.len() == standalone_entries(listing@.take(j as int)).len(),
            forall|k: int|
                0 <= k < sa@.len() ==> classifies_standalone(
                    standalone_entries(listing@.take(j as int))[k].0@,
                    standalone_entries(listing@.take(j as int))[k].1@,
                    #[trigger] sa@[k],
                ),
            fu@.len() == full_entries(listing@.take(j as int)).len(),
            forall|k: int|
                0 <= k < fu@.len() ==> classifies_full(
                    full_entries(listing@.take(j as int))[k].0@,
                    full_entries(listing@.take(j as int))[k].1@,
                    #[trigger] fu@[k],
                ),
        decreases listing@.len() - j,
    {
        let ghost prefix = listing@.take(j as int);
        let entry = &listing[j];
        proof {
            assert(listing@.take(j + 1).drop_last() =~= prefix);
            assert(listing@.take(j + 1).last() == listing@[j as int]);
        }
        if archive_suffix(entry.0.as_str()) {
            match classify(entry.0.as_str(), entry.1.as_str()) {
                Ok(d) => {
                    match d.variant {
                        Variant::Standalone => {
                            sa.push(d);
                        },
                        Variant::Full => {
                            fu.push(d);
                        },
                    }
                },
                Err(e) => {
                    return Err(e);
                },
            }
        }
        j = j + 1;
    }
    proof {
        assert(listing@.take(listing@.len() as int) =~= listing@);
    }
    Ok((sa, fu))
}

/// What one run of the pipeline produces: the standalone and full
/// populations in listing order, the groups of the full population, and the
/// pairings.
pub struct SelectionRun {
    pub standalones: Vec<ArtifactDescriptor>,
    pub fulls: Vec<ArtifactDescriptor>,
    pub groups: Vec<(GroupKey, Vec<ArtifactDescriptor>)>,
    pub results: Vec<SelectionResult>,
}

/// Runs the pure pipeline over a listing: classification, grouping and
/// pairing; any classification failure, absent group, or unrecognized
/// configuration aborts the run, as the stage contracts detail.
pub fn run_selection(listing: &Vec<(String, String)>) -> (r: Result<SelectionRun, PipelineError>)
    ensures
        match r {
            Ok(run) => {
                &&& all_kept_classifiable(listing@)
                &&& run.standalones@.len() == standalone_entries(listing@).len()
                &&& forall|k: int|
                    0 <= k < run.standalones@.len() ==> classifies_standalone(
                        standalone_entries(listing@)[k].0@,
                        standalone_entries(listing@)[k].1@,
                        #[trigger] run.standalones@[k],
                    )
                &&& run.fulls@.len() == full_entries(listing@).len()
                &&& forall|k: int|
                    0 <= k < run.fulls@.len() ==> classifies_full(
                        full_entries(listing@)[k].0@,
                        full_entries(listing@)[k].1@,
                        #[trigger] run.fulls@[k],
                    )
                &&& forall|i: int|
                    0 <= i < run.groups@.len() ==> (#[trigger] run.groups@[i]).1@ == full_with_key(
                        run.fulls@,
                        run.groups@[i].0,
                    )
                &&& forall|i: int, j: int|
                    0 <= i < j < run.groups@.len() ==> !same_key(
                        (#[trigger] run.groups@[i]).0,
                        (#[trigger] run.groups@[j]).0,
                    )
                &&& pairing_ok(run.standalones@, run.groups@, run.results@)
            },
            Err(e) => match e {
                PipelineError::UnsupportedFilename(f) => !all_kept_classifiable(listing@)
                    && exists|j: int|
                    0 <= j < listing@.len() && (#[trigger] listing@[j]).0@ == f@
                        && has_archive_suffix(f@) && !is_standalone_name(f@) && !is_full_name(f@),
                PipelineError::EmptyGroup => exists|i: int|
                    0 <= i < standalone_entries(listing@).len() && #[trigger] unmatched_standalone(
                        listing@,
                        i,
                    ),
                PipelineError::UnknownBuildConfig(_) => false,
            },
        },
{
    let (sa, fu) = match classify_listing(listing) {
        Ok(sf) => sf,
        Err(ClassifyError::UnsupportedFilename(f)) => {
            return Err(PipelineError::UnsupportedFilename(f));
        },
    };
    let groups = group_and_rank(&fu);
    match pair(&sa, &groups) {
        Ok(results) => Ok(SelectionRun { standalones: sa, fulls: fu, groups, results }),
        Err(SelectError::EmptyGroup) => {
            proof {
                let i = choose|i: int|
                    0 <= i < sa@.len() && group_missing(#[trigger] sa@[i], groups@);
                let sname = standalone_entries(listing@)[i].0@;
                assert forall|k: int|
                    0 <= k < full_entries(listing@).len() implies !grouped_together(
                    sname,
                    (#[trigger] full_entries(listing@)[k]).0@,
                ) by {
                    let fname = full_entries(listing@)[k].0@;
                    if grouped_together(sname, fname) {
                        let (im, ver, tag, tri, cfg) = choose|im: Seq<char>, ver: Seq<char>,
                            tag: Seq<char>, tri: Seq<char>, cfg: Seq<char>|
                            standalone_parts(sname, im, ver, tag, tri) && #[trigger] full_parts(
                                fname,
                                im,
                                ver,
                                tag,
                                tri,
                                cfg,
                            );
                        lemma_standalone_parts_unique(
                            sname,
                            sa@[i].implementation@,
                            sa@[i].version@,
                            sa@[i].release_tag@,
                            sa@[i].platform_triple@,
                            im,
                            ver,
                            tag,
                            tri,
                        );
                        lemma_full_parts_unique(
                            fname,
                            fu@[k].implementation@,
                            fu@[k].version@,
                            fu@[k].release_tag@,
                            fu@[k].platform_triple@,
                            fu@[k].build_config@,
                            im,
                            ver,
                            tag,
                            tri,
                            cfg,
                        );
                        assert(fu@[k].variant is Full);
                        let gi = choose|gi: int|
                            0 <= gi < groups@.len() && desc_has_key(
                                fu@[k],
                                (#[trigger] groups@[gi]).0,
                            );
                        assert(groups@[gi].1@.len() > 0);
                        assert(desc_has_key(sa@[i], groups@[gi].0));
                        assert(false);
                    }
                }
                assert(unmatched_standalone(listing@, i));
            }
            Err(PipelineError::EmptyGroup)
        },
        Err(SelectError::UnknownBuildConfig(c)) => {
            proof {
                let (gi, m) = choose|gi: int, m: int|
                    0 <= gi < groups@.len() && 0 <= m < groups@[gi].1@.len() && config_order_spec(
                        (#[trigger] groups@[gi].1@[m]).build_config@,
                    ) is None && groups@[gi].1@[m].build_config@ == c@;
                lemma_full_with_key_subset(fu@, groups@[gi].0);
                assert(groups@[gi].1@ == full_with_key(fu@, groups@[gi].0));
                let j = choose|j: int|
                    0 <= j < fu@.len() && fu@[j] == full_with_key(fu@, groups@[gi].0)[m];
                lemma_full_config_ranked(fu@[j].build_config@);
                assert(false);
            }
            Err(PipelineError::UnknownBuildConfig(c))
        },
    }
}

} // verus!
