//! Choosing, among the releases of a repository, the draft that a branch owns
//! and the published release its changelog starts from.
use crate::order::{is_stamp_order, stamp_order, stamps_view};
use crate::text::{compare_text, contains_text, has_infix};
use std::cmp::Ordering;
use vstd::prelude::*;

verus! {

/// A release as the hosting platform reports it.
#[derive(Clone, Debug)]
pub struct ReleaseInfo {
    pub id: u64,
    pub draft: bool,
    pub body: Option<String>,
    pub created_at: String,
    pub published_at: Option<String>,
    pub target_commitish: String,
}

/// The draft to update, if any, and the surplus drafts to delete.
#[derive(Clone, Debug)]
pub struct DraftSelection {
    pub primary: Option<u64>,
    pub extras: Vec<u64>,
}

pub open spec fn body_text(r: ReleaseInfo) -> Seq<char> {
    match r.body {
        Some(b) => b@,
        None => Seq::empty(),
    }
}

/// A draft belongs to the branch whose marker its body contains.
pub open spec fn owned_by(r: ReleaseInfo, marker: Seq<char>) -> bool {
    r.draft && has_infix(body_text(r), marker)
}

/// A published release of the branch, matched exactly.
pub open spec fn published_on(r: ReleaseInfo, branch: Seq<char>) -> bool {
    !r.draft && r.target_commitish@ == branch
}

/// Positions among the first `n` releases of the drafts that `marker` owns, in input order.
pub open spec fn owned_positions(rs: Seq<ReleaseInfo>, marker: Seq<char>, n: int) -> Seq<usize>
    decreases n,
{
    if n <= 0 {
        Seq::empty()
    } else {
        let prev = owned_positions(rs, marker, n - 1);
        if owned_by(rs[n - 1], marker) {
            prev.push((n - 1) as usize)
        } else {
            prev
        }
    }
}

/// Positions among the first `n` releases of those published on `branch`, in input order.
pub open spec fn published_positions(rs: Seq<ReleaseInfo>, branch: Seq<char>, n: int) -> Seq<usize>
    decreases n,
{
    if n <= 0 {
        Seq::empty()
    } else {
        let prev = published_positions(rs, branch, n - 1);
        if published_on(rs[n - 1], branch) {
            prev.push((n - 1) as usize)
        } else {
            prev
        }
    }
}

/// The creation times of the owned drafts.
pub open spec fn draft_stamps(rs: Seq<ReleaseInfo>, pos: Seq<usize>) -> Seq<Option<Seq<char>>> {
    Seq::new(pos.len(), |k: int| Some(rs[pos[k] as int].created_at@))
}

/// When a release took effect: its publication time, else its creation time.
pub open spec fn effective_stamp(r: ReleaseInfo) -> Seq<char> {
    match r.published_at {
        Some(p) => p@,
        None => r.created_at@,
    }
}

pub open spec fn effective_stamps(rs: Seq<ReleaseInfo>, pos: Seq<usize>) -> Seq<Option<Seq<char>>> {
    Seq::new(pos.len(), |k: int| Some(effective_stamp(rs[pos[k] as int])))
}

/// The ids of a selection, the primary first.
pub open spec fn selection_ids(s: DraftSelection) -> Seq<u64> {
    match s.primary {
        Some(p) => seq![p] + s.extras@,
        None => s.extras@,
    }
}

/// The ids of the owned drafts taken in `order`.
pub open spec fn ids_in_order(rs: Seq<ReleaseInfo>, pos: Seq<usize>, order: Seq<usize>) -> Seq<u64> {
    Seq::new(order.len(), |k: int| rs[pos[order[k] as int] as int].id)
}

fn owns_release(release: &ReleaseInfo, marker: &str) -> (r: bool)
    ensures
        r == owned_by(*release, marker@),
{
    if !release.draft {
        return false;
    }
    match &release.body {
        Some(b) => contains_text(b.as_str(), marker),
        None => {
            let empty = "";
            proof {
                reveal_strlit("");
            }
            assert(empty@ =~= Seq::<char>::empty());
            contains_text(empty, marker)
        },
    }
}

/// The drafts that `marker` owns, newest first by creation time (equal times
/// in input order): the first is the one to keep, the rest are to delete.
/// With no owned draft there is no primary and nothing to delete.
pub fn select_draft_releases(releases: &[ReleaseInfo], marker: &str) -> (r: DraftSelection)
    ensures
        ({
            let pos = owned_positions(releases@, marker@, releases@.len() as int);
            exists|order: Seq<usize>|
                is_stamp_order(draft_stamps(releases@, pos), true, order)
                    && selection_ids(r) == ids_in_order(releases@, pos, order)
        }),
        r.primary is None <==> owned_positions(releases@, marker@, releases@.len() as int).len() == 0,
{
    let ghost rs = releases@;
    let mut positions: Vec<usize> = Vec::new();
    let mut stamps: Vec<Option<String>> = Vec::new();
    let mut i: usize = 0;
    while i < releases.len()
        invariant
            i <= rs.len(),
            rs == releases@,
            positions@ == owned_positions(rs, marker@, i as int),
            stamps@.len() == positions@.len(),
            stamps_view(stamps@) == draft_stamps(rs, positions@),
            forall|k: int| 0 <= k < positions@.len() ==> positions@[k] < i,
        decreases rs.len() - i,
    {
        if owns_release(&releases[i], marker) {
            let ghost before = stamps@;
            let ghost old_pos = positions@;
            positions.push(i);
            stamps.push(Some(releases[i].created_at.clone()));
            proof {
                assert forall|k: int| 0 <= k < old_pos.len() implies stamps_view(stamps@)[k] == draft_stamps(rs, positions@)[k] by {
                    assert(stamps_view(before)[k] == draft_stamps(rs, old_pos)[k]);
                    assert(stamps@[k] == before[k]);
                    assert(positions@[k] == old_pos[k]);
                }
            }
            assert(stamps_view(stamps@) =~= draft_stamps(rs, positions@));
        }
        i = i + 1;
    }
    let order = stamp_order(&stamps, true);
    let ghost pos = positions@;
    let mut primary: Option<u64> = None;
    let mut extras: Vec<u64> = Vec::new();
    let mut k: usize = 0;
    while k < order.len()
        invariant
            k <= order@.len(),
            order@.len() == pos.len(),
            pos == positions@,
            rs == releases@,
            forall|p: int| 0 <= p < order@.len() ==> order@[p] < pos.len(),
            forall|p: int| 0 <= p < pos.len() ==> pos[p] < rs.len(),
            (primary is None) == (k == 0),
            selection_ids(DraftSelection { primary, extras }) == ids_in_order(rs, pos, order@.take(k as int)),
        decreases order@.len() - k,
    {
        let id = releases[positions[order[k]]].id;
        let ghost prev = selection_ids(DraftSelection { primary, extras });
        assert(prev =~= ids_in_order(rs, pos, order@.take(k as int)));
        if k == 0 {
            primary = Some(id);
        } else {
            extras.push(id);
        }
        assert(selection_ids(DraftSelection { primary, extras }) =~= prev.push(id));
        assert(ids_in_order(rs, pos, order@.take(k as int)).push(id) =~= ids_in_order(rs, pos, order@.take(k + 1)));
        k = k + 1;
    }
    assert(order@.take(k as int) =~= order@);
    DraftSelection { primary, extras }
}

/// The published release of `branch` that took effect last (publication
/// time, else creation time; equal times resolved by input order), as a
/// position in `releases`; none when the branch has no published release.
pub fn select_latest_published_release(releases: &[ReleaseInfo], branch: &str) -> (r: Option<usize>)
    ensures
        ({
            let pos = published_positions(releases@, branch@, releases@.len() as int);
            exists|order: Seq<usize>|
                is_stamp_order(effective_stamps(releases@, pos), true, order) && r == (if pos.len()
                    == 0 {
                    None::<usize>
                } else {
                    Some(pos[order[0] as int])
                })
        }),
{
    let ghost rs = releases@;
    let mut positions: Vec<usize> = Vec::new();
    let mut stamps: Vec<Option<String>> = Vec::new();
    let mut i: usize = 0;
    while i < releases.len()
        invariant
            i <= rs.len(),
            rs == releases@,
            positions@ == published_positions(rs, branch@, i as int),
            stamps@.len() == positions@.len(),
            stamps_view(stamps@) == effective_stamps(rs, positions@),
        decreases rs.len() - i,
    {
        let release = &releases[i];
        let same_branch = match compare_text(release.target_commitish.as_str(), branch) {
            Ordering::Equal => true,
            _ => false,
        };
        if !release.draft && same_branch {
            let ghost before = stamps@;
            let ghost old_pos = positions@;
            positions.push(i);
            let stamp = match &release.published_at {
                Some(p) => p.clone(),
                None => release.created_at.clone(),
            };
            stamps.push(Some(stamp));
            proof {
                assert forall|k: int| 0 <= k < old_pos.len() implies stamps_view(stamps@)[k] == effective_stamps(rs, positions@)[k] by {
                    assert(stamps_view(before)[k] == effective_stamps(rs, old_pos)[k]);
                    assert(stamps@[k] == before[k]);
                    assert(positions@[k] == old_pos[k]);
                }
            }
            assert(stamps_view(stamps@) =~= effective_stamps(rs, positions@));
        }
        i = i + 1;
    }
    let order = stamp_order(&stamps, true);
    if order.len() == 0 {
        None
    } else {
        Some(positions[order[0]])
    }
}

} // verus!
