//! Ranking of build configurations, grouping of full descriptors, and
//! selection of the best configuration within a group.

use vstd::prelude::*;
use vstd::seq_lib::group_to_multiset_ensures;

use crate::model::{desc_has_key, group_key, keys_equal, same_key, ArtifactDescriptor, GroupKey,
    SelectionResult, Variant};

verus! {

/// Total preference order over recognized build configurations, best first.
#[derive(Clone, Copy, Debug, PartialEq, Eq, Structural)]
pub enum ConfigOrder {
    PgoLto,
    Pgo,
    Lto,
    Noopt,
    Unspecified,
    Debug,
}

/// Error raised while ranking or selecting within a group.
#[derive(Debug)]
pub enum SelectError {
    UnknownBuildConfig(String),
    EmptyGroup,
}

pub open spec fn cfg_pgo_lto() -> Seq<char> {
    seq!['p', 'g', 'o', '+', 'l', 't', 'o']
}

pub open spec fn cfg_pgo() -> Seq<char> {
    seq!['p', 'g', 'o']
}

pub open spec fn cfg_lto() -> Seq<char> {
    seq!['l', 't', 'o']
}

pub open spec fn cfg_noopt() -> Seq<char> {
    seq!['n', 'o', 'o', 'p', 't']
}

pub open spec fn cfg_debug() -> Seq<char> {
    seq!['d', 'e', 'b', 'u', 'g']
}

/// The rank a configuration string maps to, if it is recognized.
pub open spec fn config_order_spec(c: Seq<char>) -> Option<ConfigOrder> {
    if c == cfg_pgo_lto() {
        Some(ConfigOrder::PgoLto)
    } else if c == cfg_pgo() {
        Some(ConfigOrder::Pgo)
    } else if c == cfg_lto() {
        Some(ConfigOrder::Lto)
    } else if c == cfg_noopt() {
        Some(ConfigOrder::Noopt)
    } else if c == Seq::<char>::empty() {
        Some(ConfigOrder::Unspecified)
    } else if c == cfg_debug() {
        Some(ConfigOrder::Debug)
    } else {
        None
    }
}

/// Numeric position of a configuration in the preference order; lower is
/// better.
pub open spec fn rank_of(o: ConfigOrder) -> int {
    match o {
        ConfigOrder::PgoLto => 0,
        ConfigOrder::Pgo => 1,
        ConfigOrder::Lto => 2,
        ConfigOrder::Noopt => 3,
        ConfigOrder::Unspecified => 4,
        ConfigOrder::Debug => 5,
    }
}

/// Maps a configuration string to its place in the preference order, or
/// reports it as unknown.
pub fn get_config_order(config: &str) -> (r: Result<ConfigOrder, SelectError>)
    ensures
        match r {
            Ok(o) => config_order_spec(config@) == Some(o),
            Err(e) => {
                &&& config_order_spec(config@) is None
                &&& e matches SelectError::UnknownBuildConfig(s) && s@ == config@
            },
        },
{
    proof {
        reveal_strlit("pgo+lto");
        reveal_strlit("pgo");
        reveal_strlit("lto");
        reveal_strlit("noopt");
        reveal_strlit("");
        reveal_strlit("debug");
        assert("pgo+lto"@ =~= cfg_pgo_lto());
        assert("pgo"@ =~= cfg_pgo());
        assert("lto"@ =~= cfg_lto());
        assert("noopt"@ =~= cfg_noopt());
        assert(""@ =~= Seq::<char>::empty());
        assert("debug"@ =~= cfg_debug());
    }
    let c = config.to_owned();
    if c == "pgo+lto".to_owned() {
        Ok(ConfigOrder::PgoLto)
    } else if c == "pgo".to_owned() {
        Ok(ConfigOrder::Pgo)
    } else if c == "lto".to_owned() {
        Ok(ConfigOrder::Lto)
    } else if c == "noopt".to_owned() {
        Ok(ConfigOrder::Noopt)
    } else if c == "".to_owned() {
        Ok(ConfigOrder::Unspecified)
    } else if c == "debug".to_owned() {
        Ok(ConfigOrder::Debug)
    } else {
        Err(SelectError::UnknownBuildConfig(config.to_owned()))
    }
}

/// Numeric rank of a configuration; lower is preferred.
pub fn rank(o: ConfigOrder) -> (r: u8)
    ensures
        r as int == rank_of(o),
{
    match o {
        ConfigOrder::PgoLto => 0,
        ConfigOrder::Pgo => 1,
        ConfigOrder::Lto => 2,
        ConfigOrder::Noopt => 3,
        ConfigOrder::Unspecified => 4,
        ConfigOrder::Debug => 5,
    }
}

/// The full-variant descriptors of `descs` that carry the key `k`, in
/// encounter order.
pub open spec fn full_with_key(descs: Seq<ArtifactDescriptor>, k: GroupKey) -> Seq<
    ArtifactDescriptor,
>
    decreases descs.len(),
{
    if descs.len() == 0 {
        Seq::empty()
    } else {
        let rest = full_with_key(descs.drop_last(), k);
        if descs.last().variant is Full && desc_has_key(descs.last(), k) {
            rest.push(descs.last())
        } else {
            rest
        }
    }
}

/// Every member of the group has a recognized build configuration.
pub open spec fn all_ranked(g: Seq<ArtifactDescriptor>) -> bool {
    forall|i: int| 0 <= i < g.len() ==> config_order_spec((#[trigger] g[i]).build_config@) is Some
}

/// The rank of a descriptor's build configuration; meaningful only when the
/// configuration is recognized.
pub open spec fn desc_rank(d: ArtifactDescriptor) -> int {
    rank_of(config_order_spec(d.build_config@)->Some_0)
}

/// The index of the best-ranked member of `g`, earliest first on ties.
pub open spec fn best_index(g: Seq<ArtifactDescriptor>) -> int
    decreases g.len(),
{
    if g.len() <= 1 {
        0
    } else {
        let b = best_index(g.drop_last());
        if desc_rank(g.last()) < desc_rank(g[b]) {
            g.len() - 1
        } else {
            b
        }
    }
}

/// `best_index` names the first member of lowest rank.
pub proof fn lemma_best_index_min(g: Seq<ArtifactDescriptor>)
    requires
        g.len() > 0,
    ensures
        0 <= best_index(g) < g.len(),
        forall|j: int| 0 <= j < g.len() ==> desc_rank(g[best_index(g)]) <= desc_rank(#[trigger] g[j]),
        forall|j: int| 0 <= j < best_index(g) ==> desc_rank(#[trigger] g[j]) > desc_rank(
            g[best_index(g)],
        ),
    decreases g.len(),
{
    if g.len() > 1 {
        let gd = g.drop_last();
        lemma_best_index_min(gd);
        let b = best_index(gd);
        assert(forall|j: int| 0 <= j < g.len() - 1 ==> #[trigger] gd[j] == g[j]);
        if desc_rank(g.last()) < desc_rank(g[b]) {
            assert(best_index(g) == g.len() - 1);
            assert forall|j: int| 0 <= j < g.len() - 1 implies desc_rank(
                #[trigger] g[j],
            ) > desc_rank(g[best_index(g)]) by {
                assert(desc_rank(gd[b]) <= desc_rank(gd[j]));
            }
            assert forall|j: int| 0 <= j < g.len() implies desc_rank(g[best_index(g)])
                <= desc_rank(#[trigger] g[j]) by {
                if j < g.len() - 1 {
                    assert(desc_rank(gd[b]) <= desc_rank(gd[j]));
                }
            }
        } else {
            assert(best_index(g) == b);
            assert forall|j: int| 0 <= j < g.len() implies desc_rank(g[best_index(g)])
                <= desc_rank(#[trigger] g[j]) by {
                if j < g.len() - 1 {
                    assert(desc_rank(gd[b]) <= desc_rank(gd[j]));
                }
            }
            assert forall|j: int| 0 <= j < best_index(g) implies desc_rank(
                #[trigger] g[j],
            ) > desc_rank(g[best_index(g)]) by {
                assert(desc_rank(gd[j]) > desc_rank(gd[b]));
            }
        }
    }
}

/// A group with exactly one member selects that member, whatever its
/// configuration.
pub proof fn lemma_singleton_selects_only_member(g: Seq<ArtifactDescriptor>)
    requires
        g.len() == 1,
    ensures
        best_index(g) == 0,
{
}

/// Selection is deterministic: over two arrangements of the same
/// descriptors, with pairwise distinct ranks, the selected descriptor is the
/// same, and it is one of lowest rank.
pub proof fn lemma_select_best_deterministic(
    g1: Seq<ArtifactDescriptor>,
    g2: Seq<ArtifactDescriptor>,
)
    requires
        g1.to_multiset() == g2.to_multiset(),
        g1.len() > 0,
        forall|i: int, j: int| 0 <= i < j < g1.len() ==> desc_rank(#[trigger] g1[i]) != desc_rank(
            #[trigger] g1[j],
        ),
    ensures
        g2.len() > 0,
        g1[best_index(g1)] == g2[best_index(g2)],
        forall|j: int| 0 <= j < g1.len() ==> desc_rank(g1[best_index(g1)]) <= desc_rank(
            #[trigger] g1[j],
        ),
{
    broadcast use group_to_multiset_ensures;

    let b1 = best_index(g1);
    assert(g1.to_multiset().len() == g1.len());
    assert(g2.to_multiset().len() == g2.len());
    assert(g2.len() == g1.len());
    lemma_best_index_min(g1);
    lemma_best_index_min(g2);
    let b2 = best_index(g2);
    assert(g1.contains(g1[b1]));
    assert(g1.to_multiset().count(g1[b1]) > 0);
    assert(g2.to_multiset().count(g1[b1]) > 0);
    assert(g2.contains(g1[b1]));
    let m = choose|m: int| 0 <= m < g2.len() && g2[m] == g1[b1];
    assert(desc_rank(g2[b2]) <= desc_rank(g2[m]));
    assert(g2.contains(g2[b2]));
    assert(g2.to_multiset().count(g2[b2]) > 0);
    assert(g1.to_multiset().count(g2[b2]) > 0);
    assert(g1.contains(g2[b2]));
    let k = choose|k: int| 0 <= k < g1.len() && g1[k] == g2[b2];
    assert(desc_rank(g1[b1]) <= desc_rank(g1[k]));
    assert(desc_rank(g1[b1]) == desc_rank(g2[b2]));
    if k != b1 {
        assert(desc_rank(g1[k]) != desc_rank(g1[b1]));
        assert(false);
    }
}

/// Every member of a key-filtered selection is a member of `descs`.
pub proof fn lemma_full_with_key_subset(descs: Seq<ArtifactDescriptor>, k: GroupKey)
    ensures
        forall|m: int|
            0 <= m < full_with_key(descs, k).len() ==> exists|j: int|
                0 <= j < descs.len() && descs[j] == #[trigger] full_with_key(descs, k)[m],
    decreases descs.len(),
{
    if descs.len() > 0 {
        let rest = full_with_key(descs.drop_last(), k);
        lemma_full_with_key_subset(descs.drop_last(), k);
        assert forall|m: int|
            0 <= m < full_with_key(descs, k).len() implies exists|j: int|
                0 <= j < descs.len() && descs[j] == #[trigger] full_with_key(descs, k)[m] by {
            if m < rest.len() {
                let j = choose|j: int|
                    0 <= j < descs.drop_last().len() && descs.drop_last()[j] == #[trigger] rest[m];
                assert(descs[j] == full_with_key(descs, k)[m]);
            } else {
                assert(full_with_key(descs, k)[m] == descs[descs.len() - 1]);
            }
        }
    }
}

/// A nonempty key-filtered selection names a full member of `descs` with
/// that key.
pub proof fn lemma_full_with_key_members(descs: Seq<ArtifactDescriptor>, k: GroupKey)
    ensures
        full_with_key(descs, k).len() > 0 ==> exists|j: int|
            0 <= j < descs.len() && (#[trigger] descs[j]).variant is Full && desc_has_key(
                descs[j],
                k,
            ),
    decreases descs.len(),
{
    if descs.len() > 0 {
        lemma_full_with_key_members(descs.drop_last(), k);
        if full_with_key(descs, k).len() > 0 {
            if descs.last().variant is Full && desc_has_key(descs.last(), k) {
                assert(descs[descs.len() - 1].variant is Full && desc_has_key(
                    descs[descs.len() - 1],
                    k,
                ));
            } else {
                let j = choose|j: int|
                    0 <= j < descs.drop_last().len() && (#[trigger]
                    descs.drop_last()[j]).variant is Full && desc_has_key(descs.drop_last()[j], k);
                assert(descs[j].variant is Full && desc_has_key(descs[j], k));
            }
        }
    }
}

/// Finds the first group whose key matches `k`.
fn find_group(
    groups: &Vec<(GroupKey, Vec<ArtifactDescriptor>)>,
    k: &GroupKey,
) -> (o: Option<usize>)
    ensures
        match o {
            Some(i) => 0 <= i < groups@.len() && same_key(groups@[i as int].0, *k) && forall|
                m: int,
            | 0 <= m < i ==> !same_key((#[trigger] groups@[m]).0, *k),
            None => forall|m: int| 0 <= m < groups@.len() ==> !same_key(
                (#[trigger] groups@[m]).0,
                *k,
            ),
        },
{
    let mut i: usize = 0;
    while i < groups.len()
        invariant
            i <= groups@.len(),
            forall|m: int| 0 <= m < i ==> !same_key((#[trigger] groups@[m]).0, *k),
        decreases groups@.len() - i,
    {
        if keys_equal(&groups[i].0, k) {
            return Some(i);
        }
        i = i + 1;
    }
    None
}

/// Groups the full-variant descriptors of `descs` by their identity key,
/// keeping encounter order within each group; descriptors of other variants
/// are ignored.
pub fn group_and_rank(descs: &Vec<ArtifactDescriptor>) -> (r: Vec<
    (GroupKey, Vec<ArtifactDescriptor>),
>)
    ensures
        forall|i: int| 0 <= i < r@.len() ==> (#[trigger] r@[i]).1@ == full_with_key(
            descs@,
            r@[i].0,
        ),
        forall|i: int| 0 <= i < r@.len() ==> (#[trigger] r@[i]).1@.len() > 0,
        forall|i: int, j: int| 0 <= i < j < r@.len() ==> !same_key(
            (#[trigger] r@[i]).0,
            (#[trigger] r@[j]).0,
        ),
        forall|j: int|
            0 <= j < descs@.len() && (#[trigger] descs@[j]).variant is Full ==> exists|i: int|
                0 <= i < r@.len() && desc_has_key(descs@[j], (#[trigger] r@[i]).0),
{
    let mut groups: Vec<(GroupKey, Vec<ArtifactDescriptor>)> = Vec::new();
    let mut idx: usize = 0;
    while idx < descs.len()
        invariant
            idx <= descs@.len(),
            forall|i: int| 0 <= i < groups@.len() ==> (#[trigger] groups@[i]).1@ == full_with_key(
                descs@.take(idx as int),
                groups@[i].0,
            ),
            forall|i: int| 0 <= i < groups@.len() ==> (#[trigger] groups@[i]).1@.len() > 0,
            forall|i: int, j: int| 0 <= i < j < groups@.len() ==> !same_key(
                (#[trigger] groups@[i]).0,
                (#[trigger] groups@[j]).0,
            ),
            forall|j: int|
                0 <= j < idx && (#[trigger] descs@[j]).variant is Full ==> exists|i: int|
                    0 <= i < groups@.len() && desc_has_key(descs@[j], (#[trigger] groups@[i]).0),
        decreases descs@.len() - idx,
    {
        let ghost prefix = descs@.take(idx as int);
        let d = &descs[idx];
        proof {
            assert(descs@.take(idx + 1).drop_last() =~= prefix);
            assert(descs@.take(idx + 1).last() == descs@[idx as int]);
        }
        match d.variant {
            Variant::Full => {
                let k = group_key(d);
                match find_group(&groups, &k) {
                    Some(gi) => {
                        let dd = d.clone();
                        let ghost old_groups = groups@;
                        let mut slot = groups.remove(gi);
                        slot.1.push(dd);
                        groups.insert(gi, slot);
                        proof {
                            assert(groups@ =~= old_groups.update(gi as int, groups@[gi as int]));
                            assert(groups@[gi as int].1@ =~= old_groups[gi as int].1@.push(
                                descs@[idx as int],
                            ));
                            assert(groups@.len() == old_groups.len());
                            assert(forall|i: int| 0 <= i < groups@.len() ==> (#[trigger]
                            groups@[i]).0 == old_groups[i].0);
                            assert(desc_has_key(descs@[idx as int], groups@[gi as int].0));
                            assert forall|j: int|
                                0 <= j < idx + 1 && (#[trigger] descs@[j]).variant is Full implies
                            exists|i: int|
                                0 <= i < groups@.len() && desc_has_key(
                                    descs@[j],
                                    (#[trigger] groups@[i]).0,
                                ) by {
                                if j < idx {
                                    let i0 = choose|i: int|
                                        0 <= i < old_groups.len() && desc_has_key(
                                            descs@[j],
                                            (#[trigger] old_groups[i]).0,
                                        );
                                    assert(groups@[i0].0 == old_groups[i0].0);
                                    assert(desc_has_key(descs@[j], groups@[i0].0));
                                } else {
                                    assert(desc_has_key(descs@[j], groups@[gi as int].0));
                                }
                            }
                            assert forall|i: int| 0 <= i < groups@.len() implies (#[trigger]
                            groups@[i]).1@ == full_with_key(
                                descs@.take(idx + 1),
                                groups@[i].0,
                            ) by {
                                if i == gi {
                                    assert(desc_has_key(descs@[idx as int], groups@[i].0));
                                } else {
                                    assert(groups@[i] == old_groups[i]);
                                    if i < gi {
                                        assert(!same_key(old_groups[i].0, old_groups[gi as int].0));
                                    } else {
                                        assert(!same_key(old_groups[gi as int].0, old_groups[i].0));
                                    }
                                    assert(!desc_has_key(descs@[idx as int], groups@[i].0));
                                }
                            }
                        }
                    },
                    None => {
                        let dd = d.clone();
                        let mut members: Vec<ArtifactDescriptor> = Vec::new();
                        members.push(dd);
                        let ghost old_groups = groups@;
                        groups.push((k, members));
                        proof {
                            assert(forall|i: int| 0 <= i < old_groups.len() ==> (#[trigger]
                            groups@[i]) == old_groups[i]);
                            assert(groups@[groups@.len() - 1].0 == k);
                            assert(desc_has_key(descs@[idx as int], k));
                            assert forall|j: int|
                                0 <= j < idx + 1 && (#[trigger] descs@[j]).variant is Full implies
                            exists|i: int|
                                0 <= i < groups@.len() && desc_has_key(
                                    descs@[j],
                                    (#[trigger] groups@[i]).0,
                                ) by {
                                if j < idx {
                                    let i0 = choose|i: int|
                                        0 <= i < old_groups.len() && desc_has_key(
                                            descs@[j],
                                            (#[trigger] old_groups[i]).0,
                                        );
                                    assert(groups@[i0].0 == old_groups[i0].0);
                                    assert(desc_has_key(descs@[j], groups@[i0].0));
                                } else {
                                    assert(desc_has_key(descs@[j], groups@[groups@.len() - 1].0));
                                }
                            }
                            assert forall|i: int| 0 <= i < groups@.len() implies (#[trigger]
                            groups@[i]).1@ == full_with_key(
                                descs@.take(idx + 1),
                                groups@[i].0,
                            ) by {
                                if i < old_groups.len() {
                                    assert(groups@[i] == old_groups[i]);
                                    assert(!same_key(old_groups[i].0, k));
                                    assert(!desc_has_key(descs@[idx as int], groups@[i].0));
                                } else {
                                    assert(groups@[i].0 == k);
                                    assert(full_with_key(prefix, k) =~= Seq::<
                                        ArtifactDescriptor,
                                    >::empty()) by {
                                        lemma_full_with_key_members(prefix, k);
                                        if full_with_key(prefix, k).len() > 0 {
                                            let j = choose|j: int|
                                                0 <= j < prefix.len() && (#[trigger]
                                                prefix[j]).variant is Full && desc_has_key(
                                                    prefix[j],
                                                    k,
                                                );
                                            assert(descs@[j].variant is Full);
                                            assert(false);
                                        }
                                    }
                                    assert(groups@[i].1@ =~= full_with_key(
                                        descs@.take(idx + 1),
                                        k,
                                    ));
                                }
                            }
                        }
                    },
                }
            },
            Variant::Standalone => {
                proof {
                    assert forall|i: int| 0 <= i < groups@.len() implies (#[trigger]
                    groups@[i]).1@ == full_with_key(descs@.take(idx + 1), groups@[i].0) by {
                        assert(!(descs@[idx as int].variant is Full));
                    }
                }
            },
        }
        idx = idx + 1;
    }
    proof {
        assert(descs@.take(descs@.len() as int) =~= descs@);
    }
    groups
}

/// Selects the best-ranked member of a group, earliest first on ties; an
/// empty group and an unrecognized configuration are distinct errors.
pub fn select_best(group: &Vec<ArtifactDescriptor>) -> (r: Result<ArtifactDescriptor, SelectError>)
    ensures
        match r {
            Ok(d) => group@.len() > 0 && all_ranked(group@) && d == group@[best_index(group@)],
            Err(e) => match e {
                SelectError::EmptyGroup => group@.len() == 0,
                SelectError::UnknownBuildConfig(c) => exists|i: int|
                    0 <= i < group@.len() && config_order_spec(
                        (#[trigger] group@[i]).build_config@,
                    ) is None && c@ == group@[i].build_config@,
            },
        },
{
    if group.len() == 0 {
        return Err(SelectError::EmptyGroup);
    }
    let mut bi: usize = 0;
    let mut br: u8;
    match get_config_order(group[0].build_config.as_str()) {
        Ok(o) => {
            br = rank(o);
        },
        Err(e) => {
            return Err(e);
        },
    }
    proof {
        assert(group@.take(1).len() == 1);
        assert(group@.take(1)[0] == group@[0]);
    }
    let mut i: usize = 1;
    while i < group.len()
        invariant
            1 <= i <= group@.len(),
            bi < i,
            all_ranked(group@.take(i as int)),
            bi as int == best_index(group@.take(i as int)),
            br as int == desc_rank(group@[bi as int]),
        decreases group@.len() - i,
    {
        let ghost told = group@.take(i as int);
        match get_config_order(group[i].build_config.as_str()) {
            Ok(o) => {
                let ri = rank(o);
                proof {
                    let t1 = group@.take(i + 1);
                    assert(t1.drop_last() =~= told);
                    assert(t1.last() == group@[i as int]);
                    assert(forall|j: int| 0 <= j < told.len() ==> #[trigger] told[j] == group@[j]);
                    assert(desc_rank(group@[i as int]) == ri as int);
                    assert(all_ranked(t1));
                }
                if ri < br {
                    bi = i;
                    br = ri;
                }
            },
            Err(e) => {
                return Err(e);
            },
        }
        i = i + 1;
    }
    proof {
        assert(group@.take(group@.len() as int) =~= group@);
    }
    Ok(group[bi].clone())
}

/// The relation a successful pairing establishes: the results follow the
/// standalone descriptors in order, and each carries the best-ranked member
/// of the group its descriptor belongs to.
pub open spec fn pairing_ok(
    standalones: Seq<ArtifactDescriptor>,
    groups: Seq<(GroupKey, Vec<ArtifactDescriptor>)>,
    rs: Seq<SelectionResult>,
) -> bool {
    &&& rs.len() == standalones.len()
    &&& forall|i: int| 0 <= i < rs.len() ==> (#[trigger] rs[i]).standalone == standalones[i]
    &&& forall|i: int| #![trigger rs[i]]
        0 <= i < rs.len() ==> exists|gi: int|
            0 <= gi < groups.len() && desc_has_key(standalones[i], (#[trigger] groups[gi]).0)
                && groups[gi].1@.len() > 0 && all_ranked(groups[gi].1@) && rs[i].best_full
                == groups[gi].1@[best_index(groups[gi].1@)]
}

/// `d` belongs to no nonempty group of `groups`.
pub open spec fn group_missing(
    d: ArtifactDescriptor,
    groups: Seq<(GroupKey, Vec<ArtifactDescriptor>)>,
) -> bool {
    forall|gi: int|
        0 <= gi < groups.len() ==> !desc_has_key(d, (#[trigger] groups[gi]).0) || groups[gi].1@.len()
            == 0
}

/// Some group member carries the unrecognized configuration `c`.
pub open spec fn has_unranked_member(
    groups: Seq<(GroupKey, Vec<ArtifactDescriptor>)>,
    c: Seq<char>,
) -> bool {
    exists|gi: int, m: int|
        0 <= gi < groups.len() && 0 <= m < groups[gi].1@.len() && config_order_spec(
            (#[trigger] groups[gi].1@[m]).build_config@,
        ) is None && groups[gi].1@[m].build_config@ == c
}

/// Pairs every standalone descriptor with the best full descriptor of its
/// group; a descriptor whose group is absent or empty, or a group member
/// with an unrecognized configuration, aborts the pairing.
pub fn pair(
    standalones: &Vec<ArtifactDescriptor>,
    groups: &Vec<(GroupKey, Vec<ArtifactDescriptor>)>,
) -> (r: Result<Vec<SelectionResult>, SelectError>)
    requires
        forall|i: int, j: int| 0 <= i < j < groups@.len() ==> !same_key(
            (#[trigger] groups@[i]).0,
            (#[trigger] groups@[j]).0,
        ),
    ensures
        match r {
            Ok(rs) => pairing_ok(standalones@, groups@, rs@),
            Err(e) => match e {
                SelectError::EmptyGroup => exists|i: int|
                    0 <= i < standalones@.len() && group_missing(
                        #[trigger] standalones@[i],
                        groups@,
                    ),
                SelectError::UnknownBuildConfig(c) => has_unranked_member(groups@, c@),
            },
        },
{
    let mut rs: Vec<SelectionResult> = Vec::new();
    let mut i: usize = 0;
    while i < standalones.len()
        invariant
            i <= standalones@.len(),
            rs@.len() == i,
            forall|m: int, j: int| 0 <= m < j < groups@.len() ==> !same_key(
                (#[trigger] groups@[m]).0,
                (#[trigger] groups@[j]).0,
            ),
            forall|j: int| 0 <= j < i ==> (#[trigger] rs@[j]).standalone == standalones@[j],
            forall|j: int| #![trigger rs@[j]]
                0 <= j < i ==> exists|gi: int|
                    0 <= gi < groups@.len() && desc_has_key(
                        standalones@[j],
                        (#[trigger] groups@[gi]).0,
                    ) && groups@[gi].1@.len() > 0 && all_ranked(groups@[gi].1@) && rs@[j].best_full
                    == groups@[gi].1@[best_index(groups@[gi].1@)],
        decreases standalones@.len() - i,
    {
        let d = &standalones[i];
        let k = group_key(d);
        match find_group(groups, &k) {
            Some(gi) => {
                match select_best(&groups[gi].1) {
                    Ok(best) => {
                        proof {
                            assert(desc_has_key(standalones@[i as int], groups@[gi as int].0));
                        }
                        rs.push(SelectionResult { standalone: d.clone(), best_full: best });
                    },
                    Err(SelectError::EmptyGroup) => {
                        proof {
                            assert forall|g2: int|
                                0 <= g2 < groups@.len() implies !desc_has_key(
                                standalones@[i as int],
                                (#[trigger] groups@[g2]).0,
                            ) || groups@[g2].1@.len() == 0 by {
                                if g2 != gi && desc_has_key(
                                    standalones@[i as int],
                                    groups@[g2].0,
                                ) {
                                    assert(same_key(groups@[g2].0, groups@[gi as int].0));
                                }
                            }
                            assert(group_missing(standalones@[i as int], groups@));
                        }
                        return Err(SelectError::EmptyGroup);
                    },
                    Err(SelectError::UnknownBuildConfig(c)) => {
                        return Err(SelectError::UnknownBuildConfig(c));
                    },
                }
            },
            None => {
                proof {
                    assert forall|g2: int|
                        0 <= g2 < groups@.len() implies !desc_has_key(
                        standalones@[i as int],
                        (#[trigger] groups@[g2]).0,
                    ) || groups@[g2].1@.len() == 0 by {
                        if desc_has_key(standalones@[i as int], groups@[g2].0) {
                            assert(same_key(groups@[g2].0, k));
                        }
                    }
                    assert(group_missing(standalones@[i as int], groups@));
                }
                return Err(SelectError::EmptyGroup);
            },
        }
        i = i + 1;
    }
    Ok(rs)
}

/// Pairing is deterministic: two pairings of the same descriptors against
/// the same groups agree item for item.
pub proof fn lemma_pair_deterministic(
    standalones: Seq<ArtifactDescriptor>,
    groups: Seq<(GroupKey, Vec<ArtifactDescriptor>)>,
    rs1: Seq<SelectionResult>,
    rs2: Seq<SelectionResult>,
)
    requires
        forall|i: int, j: int| 0 <= i < j < groups.len() ==> !same_key(
            (#[trigger] groups[i]).0,
            (#[trigger] groups[j]).0,
        ),
        pairing_ok(standalones, groups, rs1),
        pairing_ok(standalones, groups, rs2),
    ensures
        rs1 == rs2,
{
    assert forall|i: int| 0 <= i < rs1.len() implies rs1[i] == rs2[i] by {
        let g1 = choose|gi: int|
            0 <= gi < groups.len() && desc_has_key(standalones[i], (#[trigger] groups[gi]).0)
                && groups[gi].1@.len() > 0 && all_ranked(groups[gi].1@) && rs1[i].best_full
                == groups[gi].1@[best_index(groups[gi].1@)];
        let g2 = choose|gi: int|
            0 <= gi < groups.len() && desc_has_key(standalones[i], (#[trigger] groups[gi]).0)
                && groups[gi].1@.len() > 0 && all_ranked(groups[gi].1@) && rs2[i].best_full
                == groups[gi].1@[best_index(groups[gi].1@)];
        assert(same_key(groups[g1].0, groups[g2].0));
        if g1 != g2 {
            assert(false);
        }
        assert(rs1[i].standalone == rs2[i].standalone);
        assert(rs1[i].best_full == rs2[i].best_full);
    }
    assert(rs1 =~= rs2);
}

} // verus!
