//! Planning which paths a confirmed deletion removes.

use vstd::prelude::*;
use crate::grouper::DuplicateGroup;
use crate::scanner::{eq_ignore_ascii_case, matches_ignore_ascii_case_from, path_views};

verus! {

/// The survivor of one group: its first-discovered path.
pub open spec fn survivor_of(paths: Seq<Seq<char>>) -> Seq<char>
    recommends
        paths.len() >= 1,
{
    paths[0]
}

/// The paths deletion removes from one group: all but the first.
pub open spec fn victims_of(paths: Seq<Seq<char>>) -> Seq<Seq<char>> {
    if paths.len() == 0 {
        paths
    } else {
        paths.skip(1)
    }
}

/// The paths deletion removes from a run's groups: for each group in
/// order, all its paths but the first.
pub open spec fn victims_of_groups(gs: Seq<(Seq<char>, Seq<Seq<char>>)>) -> Seq<Seq<char>>
    decreases gs.len(),
{
    if gs.len() == 0 {
        Seq::empty()
    } else {
        victims_of_groups(gs.drop_last()) + victims_of(gs.last().1)
    }
}

/// The views of a sequence of groups.
pub open spec fn group_views(gs: Seq<DuplicateGroup>) -> Seq<(Seq<char>, Seq<Seq<char>>)> {
    gs.map_values(|g: DuplicateGroup| g@)
}

/// Each nonempty group is partitioned by its survivor and its victims:
/// a confirmed deletion keeps exactly the group's first-discovered path
/// and removes all its other members.
pub proof fn lemma_survivor_victims_partition(paths: Seq<Seq<char>>)
    requires
        paths.len() >= 1,
    ensures
        seq![survivor_of(paths)] + victims_of(paths) == paths,
        victims_of(paths).len() == paths.len() - 1,
{
    assert(seq![survivor_of(paths)] + victims_of(paths) =~= paths);
}

/// Collects the deletion plan of a run: for each duplicate group, in
/// order, every path but its first. Absent confirmation the caller never
/// builds a plan, and nothing is removed.
pub fn deletion_plan(groups: &Vec<DuplicateGroup>) -> (victims: Vec<String>)
    ensures
        path_views(victims@) == victims_of_groups(group_views(groups@)),
{
    let mut victims: Vec<String> = Vec::new();
    proof {
        assert(group_views(groups@.take(0)) =~= Seq::<(Seq<char>, Seq<Seq<char>>)>::empty());
        assert(path_views(victims@) =~= victims_of_groups(group_views(groups@.take(0))));
    }
    let mut i: usize = 0;
    while i < groups.len()
        invariant
            i <= groups.len(),
            path_views(victims@) == victims_of_groups(group_views(groups@.take(i as int))),
        decreases groups.len() - i,
    {
        let ghost gs = group_views(groups@.take(i as int));
        let ghost g = groups@[i as int]@;
        let ghost v0 = victims@;
        let group = &groups[i];
        let mut j: usize = 1;
        while j < group.paths.len()
            invariant
                1 <= j,
                j <= group.paths@.len() || j == 1,
                group == &groups@[i as int],
                i < groups@.len(),
                g == groups@[i as int]@,
                path_views(victims@) == path_views(v0) + path_views(group.paths@).skip(1).take(
                    j - 1,
                ),
            decreases group.paths@.len() - j,
        {
            let ghost vpre = victims@;
            victims.push(group.paths[j].clone());
            proof {
                assert(path_views(victims@) =~= path_views(vpre).push(group.paths@[j as int]@));
                assert(path_views(group.paths@).skip(1).take(j as int) =~= path_views(
                    group.paths@,
                ).skip(1).take(j - 1).push(path_views(group.paths@)[j as int]));
                assert(path_views(victims@) =~= path_views(v0) + path_views(group.paths@).skip(
                    1,
                ).take(j as int));
            }
            j = j + 1;
        }
        proof {
            if group.paths@.len() == 0 {
                assert(path_views(group.paths@).skip(1).take(j - 1) =~= victims_of(g.1));
            } else {
                assert(j == group.paths@.len());
                assert(path_views(group.paths@).skip(1).take(j - 1) =~= victims_of(g.1));
            }
            assert(group_views(groups@.take(i + 1 as int)) =~= gs.push(g));
            assert(gs.push(g).drop_last() =~= gs);
            assert(path_views(victims@) =~= victims_of_groups(group_views(groups@.take(
                i + 1 as int,
            ))));
        }
        i = i + 1;
    }
    proof {
        assert(groups@.take(groups@.len() as int) =~= groups@);
    }
    victims
}

/// Decides whether the user confirmed deletion: the answer equals "yes"
/// up to ASCII case; any other answer performs no deletion.
pub fn confirms_deletion(answer: &str) -> (r: bool)
    ensures
        r == eq_ignore_ascii_case(answer@, "yes"@),
{
    let r = matches_ignore_ascii_case_from(answer, 0, "yes");
    proof {
        assert(answer@.subrange(0, answer@.len() as int) =~= answer@);
    }
    r
}

} // verus!
