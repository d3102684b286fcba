//! Grouping candidates that share a fingerprint.

use vstd::prelude::*;
use vstd::seq_lib::*;
use vstd::multiset::Multiset;
use crate::scanner::path_views;
use crate::seq_facts::{lemma_filter_contains_iff, lemma_filter_push};

verus! {

/// One scanned candidate: its path and the fingerprint of its contents.
#[derive(Clone)]
pub struct PathFingerprint {
    pub path: String,
    pub fingerprint: String,
}

impl View for PathFingerprint {
    type V = (Seq<char>, Seq<char>);

    open spec fn view(&self) -> (Seq<char>, Seq<char>) {
        (self.path@, self.fingerprint@)
    }
}

/// The views of a sequence of candidates: (path, fingerprint) pairs.
pub open spec fn pair_views(s: Seq<PathFingerprint>) -> Seq<(Seq<char>, Seq<char>)> {
    s.map_values(|p: PathFingerprint| p@)
}

/// The paths of `ps` that carry fingerprint `fp`, in input order.
pub open spec fn paths_with(ps: Seq<(Seq<char>, Seq<char>)>, fp: Seq<char>) -> Seq<Seq<char>>
    decreases ps.len(),
{
    if ps.len() == 0 {
        Seq::empty()
    } else {
        let rest = paths_with(ps.drop_last(), fp);
        if ps.last().1 == fp {
            rest.push(ps.last().0)
        } else {
            rest
        }
    }
}

/// Whether at least two candidates of `ps` share fingerprint `fp`.
pub open spec fn is_duplicated(ps: Seq<(Seq<char>, Seq<char>)>, fp: Seq<char>) -> bool {
    paths_with(ps, fp).len() >= 2
}

/// The duplicate test of `ps` as a predicate on fingerprints.
pub open spec fn duplicated_of(ps: Seq<(Seq<char>, Seq<char>)>) -> spec_fn(Seq<char>) -> bool {
    |fp: Seq<char>| is_duplicated(ps, fp)
}

/// The distinct fingerprints of `ps`, each in the position where it was
/// first seen.
pub open spec fn first_seen_fingerprints(ps: Seq<(Seq<char>, Seq<char>)>) -> Seq<Seq<char>>
    decreases ps.len(),
{
    if ps.len() == 0 {
        Seq::empty()
    } else {
        let rest = first_seen_fingerprints(ps.drop_last());
        if rest.contains(ps.last().1) {
            rest
        } else {
            rest.push(ps.last().1)
        }
    }
}

/// One duplicate group: a fingerprint and the paths that share it, in
/// discovery order.
pub struct DuplicateGroup {
    pub fingerprint: String,
    pub paths: Vec<String>,
}

impl View for DuplicateGroup {
    type V = (Seq<char>, Seq<Seq<char>>);

    open spec fn view(&self) -> (Seq<char>, Seq<Seq<char>>) {
        (self.fingerprint@, path_views(self.paths@))
    }
}

/// The fingerprints of a sequence of groups, in order.
pub open spec fn group_fingerprints(gs: Seq<DuplicateGroup>) -> Seq<Seq<char>> {
    gs.map_values(|g: DuplicateGroup| g.fingerprint@)
}

/// Whether some group of `gs` has the same view as `g`.
spec fn appears_in(gs: Seq<DuplicateGroup>, g: DuplicateGroup) -> bool {
    exists|m: int| 0 <= m < gs.len() && #[trigger] gs[m]@ == g@
}

/// Appending one pair extends the first-seen fingerprints with the pair's
/// fingerprint exactly when it is new.
pub proof fn lemma_first_seen_push(ps: Seq<(Seq<char>, Seq<char>)>, pr: (Seq<char>, Seq<char>))
    ensures
        first_seen_fingerprints(ps.push(pr)) == if first_seen_fingerprints(ps).contains(pr.1) {
            first_seen_fingerprints(ps)
        } else {
            first_seen_fingerprints(ps).push(pr.1)
        },
{
    assert(ps.push(pr).drop_last() =~= ps);
    assert(ps.push(pr).last() == pr);
}

/// The first-seen fingerprints hold a fingerprint exactly when some pair
/// of the input carries it.
pub proof fn lemma_first_seen_contains(ps: Seq<(Seq<char>, Seq<char>)>, fp: Seq<char>)
    ensures
        first_seen_fingerprints(ps).contains(fp) <==> exists|j: int|
            0 <= j < ps.len() && ps[j].1 == fp,
    decreases ps.len(),
{
    if ps.len() > 0 {
        lemma_first_seen_contains(ps.drop_last(), fp);
        let rest = first_seen_fingerprints(ps.drop_last());
        if ps.last().1 == fp {
            if rest.contains(fp) {
                assert(first_seen_fingerprints(ps) == rest);
            } else {
                assert(first_seen_fingerprints(ps) == rest.push(fp));
                assert(rest.push(fp)[rest.len() as int] == fp);
            }
            assert(ps[ps.len() - 1].1 == fp);
        } else {
            if rest.contains(fp) {
                let i = choose|i: int| 0 <= i < rest.len() && rest[i] == fp;
                if !rest.contains(ps.last().1) {
                    assert(rest.push(ps.last().1)[i] == fp);
                }
                let j = choose|j: int| 0 <= j < ps.drop_last().len() && ps.drop_last()[j].1 == fp;
                assert(ps[j].1 == fp);
            } else {
                if first_seen_fingerprints(ps).contains(fp) {
                    let i = choose|i: int|
                        0 <= i < first_seen_fingerprints(ps).len() && first_seen_fingerprints(
                            ps,
                        )[i] == fp;
                    assert(rest[i] == fp);
                }
                if exists|j: int| 0 <= j < ps.len() && ps[j].1 == fp {
                    let j = choose|j: int| 0 <= j < ps.len() && ps[j].1 == fp;
                    assert(j < ps.len() - 1);
                    assert(ps.drop_last()[j].1 == fp);
                }
            }
        }
    }
}

/// The first-seen fingerprints are pairwise distinct.
pub proof fn lemma_first_seen_distinct(ps: Seq<(Seq<char>, Seq<char>)>)
    ensures
        forall|i: int, j: int|
            0 <= i < j < first_seen_fingerprints(ps).len() ==> first_seen_fingerprints(ps)[i]
                != first_seen_fingerprints(ps)[j],
    decreases ps.len(),
{
    if ps.len() > 0 {
        lemma_first_seen_distinct(ps.drop_last());
        let rest = first_seen_fingerprints(ps.drop_last());
        if !rest.contains(ps.last().1) {
            assert forall|i: int, j: int|
                0 <= i < j < rest.push(ps.last().1).len() implies rest.push(ps.last().1)[i]
                != rest.push(ps.last().1)[j] by {
                if j == rest.len() {
                    assert(rest[i] == rest.push(ps.last().1)[i]);
                    assert(rest.contains(rest[i])) by {
                        assert(rest[i] == rest[i]);
                    }
                }
            }
        }
    }
}

/// Appending one pair appends its path to the paths of its own
/// fingerprint and leaves every other fingerprint's paths unchanged.
pub proof fn lemma_paths_with_push(
    ps: Seq<(Seq<char>, Seq<char>)>,
    pr: (Seq<char>, Seq<char>),
    fp: Seq<char>,
)
    ensures
        paths_with(ps.push(pr), fp) == if pr.1 == fp {
            paths_with(ps, fp).push(pr.0)
        } else {
            paths_with(ps, fp)
        },
{
    assert(ps.push(pr).drop_last() =~= ps);
    assert(ps.push(pr).last() == pr);
}

/// A fingerprint no pair of `ps` carries has no paths in `ps`.
pub proof fn lemma_paths_with_empty(ps: Seq<(Seq<char>, Seq<char>)>, fp: Seq<char>)
    requires
        forall|j: int| 0 <= j < ps.len() ==> (#[trigger] ps[j]).1 != fp,
    ensures
        paths_with(ps, fp) == Seq::<Seq<char>>::empty(),
    decreases ps.len(),
{
    if ps.len() > 0 {
        assert(ps[ps.len() - 1].1 != fp);
        assert forall|j: int| 0 <= j < ps.drop_last().len() implies (#[trigger] ps.drop_last()[j]).1
            != fp by {
            assert(ps[j].1 != fp);
        }
        lemma_paths_with_empty(ps.drop_last(), fp);
    }
}

/// Every path of a fingerprint comes from some pair of the input.
pub proof fn lemma_paths_with_nonempty(ps: Seq<(Seq<char>, Seq<char>)>, fp: Seq<char>)
    requires
        paths_with(ps, fp).len() > 0,
    ensures
        exists|j: int| 0 <= j < ps.len() && ps[j].1 == fp,
    decreases ps.len(),
{
    if ps.len() > 0 {
        if ps.last().1 == fp {
            assert(ps[ps.len() - 1].1 == fp);
        } else {
            lemma_paths_with_nonempty(ps.drop_last(), fp);
            let j = choose|j: int| 0 <= j < ps.drop_last().len() && ps.drop_last()[j].1 == fp;
            assert(ps[j].1 == fp);
        }
    }
}

/// Finds the group whose fingerprint equals `fp`, if any.
fn find_group(groups: &Vec<DuplicateGroup>, fp: &String) -> (r: Option<usize>)
    ensures
        match r {
            Some(j) => j < groups@.len() && groups@[j as int].fingerprint@ == fp@,
            None => forall|k: int|
                0 <= k < groups@.len() ==> (#[trigger] groups@[k]).fingerprint@ != fp@,
        },
{
    let mut j: usize = 0;
    while j < groups.len()
        invariant
            j <= groups.len(),
            forall|k: int| 0 <= k < j ==> (#[trigger] groups@[k]).fingerprint@ != fp@,
        decreases groups.len() - j,
    {
        if groups[j].fingerprint == *fp {
            return Some(j);
        }
        j = j + 1;
    }
    None
}

/// Builds the full fingerprint-to-paths mapping: one group per distinct
/// fingerprint, in first-seen order, each holding exactly the paths that
/// carry that fingerprint, in discovery order.
pub fn group_pairs(pairs: &Vec<PathFingerprint>) -> (groups: Vec<DuplicateGroup>)
    ensures
        group_fingerprints(groups@) == first_seen_fingerprints(pair_views(pairs@)),
        forall|k: int|
            0 <= k < groups@.len() ==> path_views((#[trigger] groups@[k]).paths@) == paths_with(
                pair_views(pairs@),
                groups@[k].fingerprint@,
            ),
{
    let ghost pv = pair_views(pairs@);
    let mut groups: Vec<DuplicateGroup> = Vec::new();
    proof {
        assert(pv.take(0) =~= Seq::<(Seq<char>, Seq<char>)>::empty());
        assert(group_fingerprints(groups@) =~= Seq::<Seq<char>>::empty());
    }
    let mut i: usize = 0;
    while i < pairs.len()
        invariant
            i <= pairs.len(),
            pv == pair_views(pairs@),
            pairs@.len() == pv.len(),
            group_fingerprints(groups@) == first_seen_fingerprints(pv.take(i as int)),
            forall|k: int|
                0 <= k < groups@.len() ==> path_views((#[trigger] groups@[k]).paths@) == paths_with(
                    pv.take(i as int),
                    groups@[k].fingerprint@,
                ),
        decreases pairs.len() - i,
    {
        let ghost prefix = pv.take(i as int);
        let ghost pr = pv[i as int];
        proof {
            assert(pr == pairs@[i as int]@);
            assert(pv.take(i + 1 as int) =~= prefix.push(pr));
            lemma_first_seen_push(prefix, pr);
            lemma_first_seen_distinct(prefix);
        }
        let ghost groups0 = groups@;
        match find_group(&groups, &pairs[i].fingerprint) {
            Some(j) => {
                let mut g = groups.remove(j);
                g.paths.push(pairs[i].path.clone());
                let ghost g1 = g;
                groups.insert(j, g);
                proof {
                    assert(groups@ =~= groups0.update(j as int, g1));
                    assert(group_fingerprints(groups@) =~= group_fingerprints(groups0));
                    assert(first_seen_fingerprints(prefix).contains(pr.1)) by {
                        assert(first_seen_fingerprints(prefix)[j as int] == pr.1);
                    }
                    assert(path_views(g1.paths@) =~= path_views(groups0[j as int].paths@).push(
                        pr.0,
                    ));
                    assert forall|k: int| 0 <= k < groups@.len() implies path_views(
                        (#[trigger] groups@[k]).paths@,
                    ) == paths_with(pv.take(i + 1 as int), groups@[k].fingerprint@) by {
                        lemma_paths_with_push(prefix, pr, groups@[k].fingerprint@);
                        if k != j {
                            assert(groups@[k] == groups0[k]);
                            assert(group_fingerprints(groups0)[k] != group_fingerprints(
                                groups0,
                            )[j as int]);
                        }
                    }
                }
            },
            None => {
                let mut member: Vec<String> = Vec::new();
                member.push(pairs[i].path.clone());
                let g = DuplicateGroup { fingerprint: pairs[i].fingerprint.clone(), paths: member };
                groups.push(g);
                proof {
                    assert(group_fingerprints(groups@) =~= group_fingerprints(groups0).push(pr.1));
                    assert(!first_seen_fingerprints(prefix).contains(pr.1)) by {
                        if first_seen_fingerprints(prefix).contains(pr.1) {
                            let m = choose|m: int|
                                0 <= m < first_seen_fingerprints(prefix).len()
                                    && first_seen_fingerprints(prefix)[m] == pr.1;
                            assert(groups0[m].fingerprint@ == pr.1);
                        }
                    }
                    assert forall|k: int| 0 <= k < groups@.len() implies path_views(
                        (#[trigger] groups@[k]).paths@,
                    ) == paths_with(pv.take(i + 1 as int), groups@[k].fingerprint@) by {
                        lemma_paths_with_push(prefix, pr, groups@[k].fingerprint@);
                        if k < groups0.len() {
                            assert(groups@[k] == groups0[k]);
                            assert(groups0[k].fingerprint@ != pr.1);
                        } else {
                            assert(groups@[k] == g);
                            assert forall|m: int|
                                0 <= m < prefix.len() implies (#[trigger] prefix[m]).1 != pr.1 by {
                                lemma_first_seen_contains(prefix, pr.1);
                            }
                            lemma_paths_with_empty(prefix, pr.1);
                            assert(path_views(g.paths@) =~= Seq::<Seq<char>>::empty().push(pr.0));
                        }
                    }
                }
            },
        }
        i = i + 1;
    }
    proof {
        assert(pv.take(pairs@.len() as int) =~= pv);
    }
    groups
}

/// Builds the duplicate groups of the scan: exactly the fingerprints that
/// at least two candidates share, each with all its paths in discovery
/// order, the groups in the fingerprints' first-seen order.
pub fn duplicate_groups(pairs: &Vec<PathFingerprint>) -> (groups: Vec<DuplicateGroup>)
    ensures
        group_fingerprints(groups@) == first_seen_fingerprints(pair_views(pairs@)).filter(
            duplicated_of(pair_views(pairs@)),
        ),
        forall|k: int|
            0 <= k < groups@.len() ==> path_views((#[trigger] groups@[k]).paths@) == paths_with(
                pair_views(pairs@),
                groups@[k].fingerprint@,
            ),
        forall|k: int| 0 <= k < groups@.len() ==> (#[trigger] groups@[k]).paths@.len() >= 2,
        forall|fp: Seq<char>|
            #[trigger] group_fingerprints(groups@).contains(fp) <==> is_duplicated(
                pair_views(pairs@),
                fp,
            ),
{
    let ghost pv = pair_views(pairs@);
    let ghost dup = duplicated_of(pv);
    let mut all = group_pairs(pairs);
    let ghost all0 = all@;
    let ghost fs = first_seen_fingerprints(pv);
    let mut groups: Vec<DuplicateGroup> = Vec::new();
    proof {
        assert(all0.take(0) =~= Seq::<DuplicateGroup>::empty());
        assert(group_fingerprints(groups@) =~= Seq::<Seq<char>>::empty());
        assert(group_fingerprints(all0.take(0)) =~= Seq::<Seq<char>>::empty());
    }
    let mut i: usize = 0;
    while i < all.len()
        invariant
            i <= all@.len(),
            all@ == all0,
            pv == pair_views(pairs@),
            dup == duplicated_of(pv),
            group_fingerprints(all0) == fs,
            fs == first_seen_fingerprints(pv),
            forall|k: int|
                0 <= k < all0.len() ==> path_views((#[trigger] all0[k]).paths@) == paths_with(
                    pv,
                    all0[k].fingerprint@,
                ),
            group_fingerprints(groups@) == group_fingerprints(all0.take(i as int)).filter(dup),
            forall|k: int| 0 <= k < groups@.len() ==> appears_in(all0, #[trigger] groups@[k]),
        decreases all@.len() - i,
    {
        let ghost groups0 = groups@;
        let ghost gfp = all0[i as int].fingerprint@;
        proof {
            assert(path_views(all0[i as int].paths@).len() == all0[i as int].paths@.len());
            assert(dup(gfp) == (all0[i as int].paths@.len() >= 2));
        }
        if all[i].paths.len() >= 2 {
            let g = clone_group(&all[i]);
            groups.push(g);
            proof {
                assert(appears_in(all0, g)) by {
                    assert(all0[i as int]@ == g@);
                }
            }
        }
        proof {
            assert(group_fingerprints(all0.take(i + 1 as int)) =~= group_fingerprints(
                all0.take(i as int),
            ).push(gfp));
            lemma_filter_push(group_fingerprints(all0.take(i as int)), gfp, dup);
            if dup(gfp) {
                assert(group_fingerprints(groups@) =~= group_fingerprints(groups0).push(gfp));
            }
            assert(group_fingerprints(groups@) =~= group_fingerprints(
                all0.take(i + 1 as int),
            ).filter(dup));
        }
        i = i + 1;
    }
    proof {
        assert(all0.take(all0.len() as int) =~= all0);
        assert forall|k: int| 0 <= k < groups@.len() implies path_views(
            (#[trigger] groups@[k]).paths@,
        ) == paths_with(pv, groups@[k].fingerprint@) && groups@[k].paths@.len() >= 2 by {
            assert(appears_in(all0, groups@[k]));
            let m = choose|m: int| 0 <= m < all0.len() && #[trigger] all0[m]@ == groups@[k]@;
            assert(all0[m].fingerprint@ == groups@[k].fingerprint@);
            assert(path_views(all0[m].paths@) == path_views(groups@[k].paths@));
            assert(path_views(groups@[k].paths@) == paths_with(pv, groups@[k].fingerprint@));
            assert(group_fingerprints(groups@).contains(groups@[k].fingerprint@)) by {
                assert(group_fingerprints(groups@)[k] == groups@[k].fingerprint@);
            }
            lemma_filter_contains_iff(fs, dup, groups@[k].fingerprint@);
            assert(is_duplicated(pv, groups@[k].fingerprint@));
            assert(path_views(groups@[k].paths@).len() == groups@[k].paths@.len());
        }
        assert forall|fp: Seq<char>|
            #[trigger] group_fingerprints(groups@).contains(fp) <==> is_duplicated(pv, fp) by {
            lemma_filter_contains_iff(fs, dup, fp);
            if is_duplicated(pv, fp) {
                assert(fs.contains(fp)) by {
                    lemma_paths_with_nonempty(pv, fp);
                    lemma_first_seen_contains(pv, fp);
                }
                assert(dup(fp));
            }
        }
    }
    groups
}

/// Copies one group, fingerprint and paths alike.
fn clone_group(g: &DuplicateGroup) -> (r: DuplicateGroup)
    ensures
        r@ == g@,
        r.fingerprint@ == g.fingerprint@,
        r.paths@.len() == g.paths@.len(),
{
    let mut member: Vec<String> = Vec::new();
    let mut i: usize = 0;
    while i < g.paths.len()
        invariant
            i <= g.paths@.len(),
            member@.len() == i,
            forall|k: int| 0 <= k < i ==> (#[trigger] member@[k])@ == g.paths@[k]@,
        decreases g.paths@.len() - i,
    {
        member.push(g.paths[i].clone());
        i = i + 1;
    }
    proof {
        assert(path_views(member@) =~= path_views(g.paths@));
    }
    DuplicateGroup { fingerprint: g.fingerprint.clone(), paths: member }
}

/// The paths of a fingerprint in a concatenation are those of the left
/// part followed by those of the right part.
pub proof fn lemma_paths_with_concat(
    a: Seq<(Seq<char>, Seq<char>)>,
    b: Seq<(Seq<char>, Seq<char>)>,
    fp: Seq<char>,
)
    ensures
        paths_with(a + b, fp) == paths_with(a, fp) + paths_with(b, fp),
    decreases b.len(),
{
    if b.len() == 0 {
        assert(a + b =~= a);
        assert(paths_with(b, fp) =~= Seq::<Seq<char>>::empty());
        assert(paths_with(a, fp) + paths_with(b, fp) =~= paths_with(a, fp));
    } else {
        lemma_paths_with_concat(a, b.drop_last(), fp);
        assert(a + b.drop_last() =~= (a + b).drop_last());
        assert((a + b).last() == b.last());
        assert(b.drop_last().push(b.last()) =~= b);
        lemma_paths_with_push(b.drop_last(), b.last(), fp);
        lemma_paths_with_push(a + b.drop_last(), b.last(), fp);
        assert((a + b.drop_last()).push(b.last()) =~= a + b);
        if b.last().1 == fp {
            assert(paths_with(a, fp) + paths_with(b.drop_last(), fp).push(b.last().0) =~= (
            paths_with(a, fp) + paths_with(b.drop_last(), fp)).push(b.last().0));
        }
    }
}

/// Inputs with equal pair multisets give every fingerprint path lists
/// with equal multisets: the paths of a fingerprint do not depend on the
/// input order, up to their own order.
pub proof fn lemma_paths_with_of_permutation(
    a: Seq<(Seq<char>, Seq<char>)>,
    b: Seq<(Seq<char>, Seq<char>)>,
    fp: Seq<char>,
)
    requires
        a.to_multiset() == b.to_multiset(),
    ensures
        paths_with(a, fp).to_multiset() == paths_with(b, fp).to_multiset(),
    decreases a.len(),
{
    broadcast use group_to_multiset_ensures;
    broadcast use vstd::multiset::group_multiset_axioms;

    if a.len() == 0 {
        assert(b.to_multiset().len() == 0);
        assert(b.len() == 0);
        assert(paths_with(a, fp) =~= paths_with(b, fp));
    } else {
        let x = a.last();
        assert(a.drop_last().push(x) =~= a);
        assert(a.contains(x)) by {
            assert(a[a.len() - 1] == x);
        }
        assert(b.to_multiset().count(x) > 0);
        assert(b.contains(x));
        let j = choose|j: int| 0 <= j < b.len() && b[j] == x;
        let pre = b.subrange(0, j);
        let post = b.subrange(j + 1, b.len() as int);
        let b2 = b.remove(j);
        assert(b2 =~= pre + post);
        assert(b =~= pre + (seq![x] + post));
        assert(b2.to_multiset() == b.to_multiset().remove(x));
        assert(a.drop_last().to_multiset() == a.to_multiset().remove(x)) by {
            assert(a.drop_last().push(x).to_multiset() == a.drop_last().to_multiset().insert(x));
        }
        lemma_paths_with_of_permutation(a.drop_last(), b2, fp);
        lemma_paths_with_concat(pre, seq![x] + post, fp);
        lemma_paths_with_concat(seq![x], post, fp);
        lemma_paths_with_concat(pre, post, fp);
        assert(seq![x].drop_last() =~= Seq::<(Seq<char>, Seq<char>)>::empty());
        assert(paths_with(seq![x].drop_last(), fp) == Seq::<Seq<char>>::empty());
        assert(seq![x].last() == x);
        assert(paths_with(seq![x], fp) == if x.1 == fp {
            Seq::<Seq<char>>::empty().push(x.0)
        } else {
            Seq::<Seq<char>>::empty()
        });
        lemma_multiset_commutative(paths_with(pre, fp), paths_with(seq![x] + post, fp));
        lemma_multiset_commutative(paths_with(seq![x], fp), paths_with(post, fp));
        lemma_multiset_commutative(paths_with(pre, fp), paths_with(post, fp));
        lemma_paths_with_push(a.drop_last(), x, fp);
        if x.1 == fp {
            assert(Seq::<Seq<char>>::empty().push(x.0).to_multiset() =~= Multiset::<
                Seq<char>,
            >::empty().insert(x.0)) by {
                assert(Seq::<Seq<char>>::empty().to_multiset() =~= Multiset::<Seq<char>>::empty());
            }
            assert(paths_with(a, fp).to_multiset() == paths_with(a.drop_last(), fp).to_multiset()
                .insert(x.0));
            assert(paths_with(b, fp).to_multiset() =~= paths_with(b2, fp).to_multiset().insert(
                x.0,
            ));
        } else {
            assert(paths_with(seq![x], fp) =~= Seq::<Seq<char>>::empty());
            assert(Seq::<Seq<char>>::empty().to_multiset() =~= Multiset::<Seq<char>>::empty());
            assert(paths_with(b, fp).to_multiset() =~= paths_with(b2, fp).to_multiset());
        }
    }
}

/// The fingerprints of a sequence of group views, in order.
pub open spec fn fps_of(gs: Seq<(Seq<char>, Seq<Seq<char>>)>) -> Seq<Seq<char>> {
    gs.map_values(|g: (Seq<char>, Seq<Seq<char>>)| g.0)
}

/// The pairs one group view holds: each of its paths with its
/// fingerprint.
pub open spec fn pairs_of_group(g: (Seq<char>, Seq<Seq<char>>)) -> Seq<(Seq<char>, Seq<char>)> {
    g.1.map_values(|p: Seq<char>| (p, g.0))
}

/// The pairs a sequence of group views holds, group by group.
pub open spec fn pairs_of_groups(gs: Seq<(Seq<char>, Seq<Seq<char>>)>) -> Seq<
    (Seq<char>, Seq<char>),
>
    decreases gs.len(),
{
    if gs.len() == 0 {
        Seq::empty()
    } else {
        pairs_of_groups(gs.drop_last()) + pairs_of_group(gs.last())
    }
}

/// Within one group's pairs, the group's own fingerprint owns all the
/// paths and every other fingerprint owns none.
proof fn lemma_paths_with_block(g: (Seq<char>, Seq<Seq<char>>), fp: Seq<char>)
    ensures
        paths_with(pairs_of_group(g), fp) == if g.0 == fp {
            g.1
        } else {
            Seq::<Seq<char>>::empty()
        },
    decreases g.1.len(),
{
    if g.1.len() == 0 {
        assert(pairs_of_group(g) =~= Seq::<(Seq<char>, Seq<char>)>::empty());
    } else {
        let shorter = (g.0, g.1.drop_last());
        lemma_paths_with_block(shorter, fp);
        assert(pairs_of_group(shorter).push((g.1.last(), g.0)) =~= pairs_of_group(g));
        lemma_paths_with_push(pairs_of_group(shorter), (g.1.last(), g.0), fp);
        if g.0 == fp {
            assert(g.1.drop_last().push(g.1.last()) =~= g.1);
        }
    }
}

/// Appending one nonempty group's pairs appends the group's fingerprint
/// to the first-seen fingerprints exactly when it is new.
proof fn lemma_first_seen_append_block(
    ps: Seq<(Seq<char>, Seq<char>)>,
    g: (Seq<char>, Seq<Seq<char>>),
)
    requires
        g.1.len() >= 1,
    ensures
        first_seen_fingerprints(ps + pairs_of_group(g)) == if first_seen_fingerprints(ps).contains(
            g.0,
        ) {
            first_seen_fingerprints(ps)
        } else {
            first_seen_fingerprints(ps).push(g.0)
        },
    decreases g.1.len(),
{
    let shorter = (g.0, g.1.drop_last());
    assert((ps + pairs_of_group(shorter)).push((g.1.last(), g.0)) =~= ps + pairs_of_group(g));
    lemma_first_seen_push(ps + pairs_of_group(shorter), (g.1.last(), g.0));
    if g.1.len() == 1 {
        assert(ps + pairs_of_group(shorter) =~= ps);
    } else {
        lemma_first_seen_append_block(ps, shorter);
        let fs = first_seen_fingerprints(ps);
        if !fs.contains(g.0) {
            assert(fs.push(g.0)[fs.len() as int] == g.0);
            assert(fs.push(g.0).contains(g.0));
        }
    }
}

/// Over groups with pairwise distinct fingerprints and at least one path
/// each, the first-seen fingerprints of all their pairs are exactly the
/// groups' fingerprints, in group order.
proof fn lemma_first_seen_of_groups(gs: Seq<(Seq<char>, Seq<Seq<char>>)>)
    requires
        forall|i: int, j: int| 0 <= i < j < gs.len() ==> (#[trigger] gs[i]).0 != (#[trigger] gs[j]).0,
        forall|k: int| 0 <= k < gs.len() ==> (#[trigger] gs[k]).1.len() >= 1,
    ensures
        first_seen_fingerprints(pairs_of_groups(gs)) == fps_of(gs),
    decreases gs.len(),
{
    if gs.len() == 0 {
        assert(fps_of(gs) =~= Seq::<Seq<char>>::empty());
    } else {
        lemma_first_seen_of_groups(gs.drop_last());
        assert(gs[gs.len() - 1].1.len() >= 1);
        lemma_first_seen_append_block(pairs_of_groups(gs.drop_last()), gs.last());
        assert(!fps_of(gs.drop_last()).contains(gs.last().0)) by {
            if fps_of(gs.drop_last()).contains(gs.last().0) {
                let i = choose|i: int|
                    0 <= i < fps_of(gs.drop_last()).len() && fps_of(gs.drop_last())[i] == gs.last().0;
                assert(gs[i].0 == gs[gs.len() - 1].0);
            }
        }
        assert(fps_of(gs.drop_last()).push(gs.last().0) =~= fps_of(gs));
    }
}

/// Over groups with pairwise distinct fingerprints, each group's
/// fingerprint owns exactly that group's paths among all the pairs, and
/// a fingerprint of no group owns none.
proof fn lemma_paths_with_of_groups(gs: Seq<(Seq<char>, Seq<Seq<char>>)>, fp: Seq<char>)
    requires
        forall|i: int, j: int| 0 <= i < j < gs.len() ==> (#[trigger] gs[i]).0 != (#[trigger] gs[j]).0,
    ensures
        forall|k: int|
            0 <= k < gs.len() && (#[trigger] gs[k]).0 == fp ==> paths_with(pairs_of_groups(gs), fp)
                == gs[k].1,
        (forall|k: int| 0 <= k < gs.len() ==> (#[trigger] gs[k]).0 != fp) ==> paths_with(
            pairs_of_groups(gs),
            fp,
        ) == Seq::<Seq<char>>::empty(),
    decreases gs.len(),
{
    if gs.len() == 0 {
    } else {
        lemma_paths_with_of_groups(gs.drop_last(), fp);
        lemma_paths_with_concat(pairs_of_groups(gs.drop_last()), pairs_of_group(gs.last()), fp);
        lemma_paths_with_block(gs.last(), fp);
        if gs.last().0 == fp {
            assert forall|k: int|
                0 <= k < gs.drop_last().len() implies (#[trigger] gs.drop_last()[k]).0 != fp by {
                assert(gs[k].0 != gs[gs.len() - 1].0);
            }
            assert(paths_with(pairs_of_groups(gs.drop_last()), fp) == Seq::<Seq<char>>::empty());
            assert(paths_with(pairs_of_groups(gs), fp) =~= gs.last().1);
        } else {
            assert(paths_with(pairs_of_groups(gs), fp) =~= paths_with(
                pairs_of_groups(gs.drop_last()),
                fp,
            ));
            assert forall|k: int|
                0 <= k < gs.len() && (#[trigger] gs[k]).0 == fp implies paths_with(
                pairs_of_groups(gs),
                fp,
            ) == gs[k].1 by {
                assert(k < gs.len() - 1);
                assert(gs.drop_last()[k].0 == fp);
            }
        }
    }
}

/// Grouping is idempotent: the duplicate groups of the pairs that a
/// duplicate-grouping output itself holds are that output again — the
/// same fingerprints in the same order, each with the same paths.
pub proof fn lemma_grouping_idempotent(gs: Seq<(Seq<char>, Seq<Seq<char>>)>)
    requires
        forall|i: int, j: int| 0 <= i < j < gs.len() ==> (#[trigger] gs[i]).0 != (#[trigger] gs[j]).0,
        forall|k: int| 0 <= k < gs.len() ==> (#[trigger] gs[k]).1.len() >= 2,
    ensures
        first_seen_fingerprints(pairs_of_groups(gs)).filter(duplicated_of(pairs_of_groups(gs)))
            == fps_of(gs),
        forall|k: int|
            0 <= k < gs.len() ==> paths_with(pairs_of_groups(gs), (#[trigger] gs[k]).0) == gs[k].1,
{
    lemma_first_seen_of_groups(gs);
    assert forall|k: int|
        0 <= k < gs.len() implies paths_with(pairs_of_groups(gs), (#[trigger] gs[k]).0)
        == gs[k].1 by {
        lemma_paths_with_of_groups(gs, gs[k].0);
    }
    let dup = duplicated_of(pairs_of_groups(gs));
    assert forall|i: int| 0 <= i < fps_of(gs).len() implies dup(#[trigger] fps_of(gs)[i]) by {
        assert(fps_of(gs)[i] == gs[i].0);
        assert(paths_with(pairs_of_groups(gs), gs[i].0) == gs[i].1);
        assert(gs[i].1.len() >= 2);
    }
    crate::seq_facts::lemma_filter_retains_all(fps_of(gs), dup);
}

/// Grouping is order-independent on output membership: inputs that hold
/// the same (path, fingerprint) pairs, in any order, give every
/// fingerprint the same duplicate verdict and the same paths up to
/// order.
pub proof fn lemma_grouping_order_independent(
    a: Seq<(Seq<char>, Seq<char>)>,
    b: Seq<(Seq<char>, Seq<char>)>,
)
    requires
        a.to_multiset() == b.to_multiset(),
    ensures
        forall|fp: Seq<char>|
            #[trigger] paths_with(a, fp).to_multiset() == paths_with(b, fp).to_multiset(),
        forall|fp: Seq<char>| #[trigger] is_duplicated(a, fp) <==> is_duplicated(b, fp),
{
    broadcast use vstd::seq_lib::to_multiset_len;

    assert forall|fp: Seq<char>|
        #[trigger] paths_with(a, fp).to_multiset() == paths_with(b, fp).to_multiset() by {
        lemma_paths_with_of_permutation(a, b, fp);
    }
    assert forall|fp: Seq<char>| #[trigger] is_duplicated(a, fp) <==> is_duplicated(b, fp) by {
        assert(paths_with(a, fp).to_multiset() == paths_with(b, fp).to_multiset());
        assert(paths_with(a, fp).len() == paths_with(a, fp).to_multiset().len());
        assert(paths_with(b, fp).len() == paths_with(b, fp).to_multiset().len());
    }
}

} // verus!
