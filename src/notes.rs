//! The release body: an ownership marker, then the merged pull requests,
//! oldest first, each number once, grouped into the configured sections.
use crate::config::{normalize_labels, normalized, opt_text, texts, ReleaseCategory, ReleaseConfig};
use crate::order::{is_stamp_order, lemma_precedes_asymmetric, lists, precedes, stamp_order, stamps_view};
use crate::text::{lemma_stamp_irreflexive, lemma_stamp_transitive, stamp_before};
use crate::text::{replace_text, replaced};
use vstd::prelude::*;
use vstd::string::StringExecFns;

verus! {

/// A merged pull request.
#[derive(Clone, Debug)]
pub struct PullRequestInfo {
    pub number: u64,
    pub title: String,
    pub merged_at: Option<String>,
    pub labels: Vec<String>,
}

/// The marker that ties a release body to `branch`.
pub open spec fn marker_text(branch: Seq<char>) -> Seq<char> {
    "<!-- breezy:branch="@ + branch + " -->"@
}

/// The hidden first line of a branch's release body.
pub fn release_marker(branch: &str) -> (r: String)
    ensures
        r@ == marker_text(branch@),
{
    let mut s = String::from_str("<!-- breezy:branch=");
    s.append(branch);
    s.append(" -->");
    s
}

/// The merge times of the pull requests.
pub open spec fn merge_stamps(prs: Seq<PullRequestInfo>) -> Seq<Option<Seq<char>>> {
    Seq::new(
        prs.len(),
        |i: int|
            match prs[i].merged_at {
                Some(t) => Some(t@),
                None => None,
            },
    )
}

/// The positions in `order` of the first pull request with each number.
pub open spec fn survivors(prs: Seq<PullRequestInfo>, order: Seq<usize>) -> Seq<usize>
    decreases order.len(),
{
    if order.len() == 0 {
        Seq::empty()
    } else {
        let prev = survivors(prs, order.drop_last());
        let i = order.last();
        if exists|k: int| 0 <= k < prev.len() && prs[prev[k] as int].number == prs[i as int].number {
            prev
        } else {
            prev.push(i)
        }
    }
}

/// The two label lists have a label in common.
pub open spec fn share_label(a: Seq<Seq<char>>, b: Seq<Seq<char>>) -> bool {
    exists|i: int, j: int| 0 <= i < a.len() && 0 <= j < b.len() && a[i] == b[j]
}

/// The labels of a pull request, normalized as the configuration's are.
pub open spec fn pr_labels(pr: PullRequestInfo) -> Seq<Seq<char>> {
    normalized(texts(pr.labels@))
}

/// The first of the categories from `c` on that shares a label with `labels`,
/// or the number of categories when none does.
pub open spec fn first_match(cats: Seq<ReleaseCategory>, labels: Seq<Seq<char>>, c: int) -> int
    decreases cats.len() - c,
{
    if c < 0 || c >= cats.len() {
        cats.len() as int
    } else if share_label(labels, texts(cats[c].labels@)) {
        c
    } else {
        first_match(cats, labels, c + 1)
    }
}

/// The section a pull request goes to: none when one of its labels is
/// excluded, else its first matching category, else the trailing bucket
/// (numbered as the number of categories).
pub open spec fn slot(cfg: ReleaseConfig, pr: PullRequestInfo) -> Option<int> {
    if share_label(pr_labels(pr), texts(cfg.exclude_labels@)) {
        None
    } else {
        Some(first_match(cfg.categories@, pr_labels(pr), 0))
    }
}

/// The line of a pull request: its title put into the line template.
pub open spec fn line_of(cfg: Option<ReleaseConfig>, pr: PullRequestInfo) -> Seq<char> {
    match cfg {
        Some(c) => replaced(c.change_template@, "$TITLE"@, pr.title@),
        None => pr.title@,
    }
}

/// The lines of all `kept` pull requests, in order.
pub open spec fn all_lines(prs: Seq<PullRequestInfo>, cfg: Option<ReleaseConfig>, kept: Seq<usize>) -> Seq<Seq<char>> {
    Seq::new(kept.len(), |k: int| line_of(cfg, prs[kept[k] as int]))
}

/// The lines of the `kept` pull requests that go to section `c`, in order.
pub open spec fn members(prs: Seq<PullRequestInfo>, cfg: ReleaseConfig, kept: Seq<usize>, c: int) -> Seq<Seq<char>>
    decreases kept.len(),
{
    if kept.len() == 0 {
        Seq::empty()
    } else {
        let prev = members(prs, cfg, kept.drop_last(), c);
        let pr = prs[kept.last() as int];
        if slot(cfg, pr) == Some(c) {
            prev.push(line_of(Some(cfg), pr))
        } else {
            prev
        }
    }
}

/// A category's heading: one `#` per level, a space, the title.
pub open spec fn heading_text(cat: ReleaseCategory) -> Seq<char> {
    Seq::new(cat.heading_level as nat, |i: int| '#') + seq![' '] + cat.title@
}

/// A section: nothing when it has no lines, else a blank line, its heading if
/// it has one, and its lines.
pub open spec fn block(heading: Option<Seq<char>>, lines: Seq<Seq<char>>) -> Seq<Seq<char>> {
    if lines.len() == 0 {
        Seq::empty()
    } else {
        match heading {
            Some(h) => seq![Seq::empty(), h] + lines,
            None => seq![Seq::<char>::empty()] + lines,
        }
    }
}

/// The sections of the first `c` categories, in declared order.
pub open spec fn category_blocks(prs: Seq<PullRequestInfo>, cfg: ReleaseConfig, kept: Seq<usize>, c: int) -> Seq<Seq<char>>
    decreases c,
{
    if c <= 0 {
        Seq::empty()
    } else {
        category_blocks(prs, cfg, kept, c - 1) + block(
            Some(heading_text(cfg.categories@[c - 1])),
            members(prs, cfg, kept, c - 1),
        )
    }
}

/// Every line of the body, the marker first.
pub open spec fn body_lines(marker: Seq<char>, cfg: Option<ReleaseConfig>, prs: Seq<PullRequestInfo>, kept: Seq<usize>) -> Seq<Seq<char>> {
    match cfg {
        Some(c) => if c.categories@.len() > 0 {
            let n = c.categories@.len() as int;
            seq![marker] + category_blocks(prs, c, kept, n) + block(None, members(prs, c, kept, n))
        } else {
            seq![marker] + block(None, all_lines(prs, cfg, kept))
        },
        None => seq![marker] + block(None, all_lines(prs, cfg, kept)),
    }
}

/// Lines joined by line breaks.
pub open spec fn joined(lines: Seq<Seq<char>>) -> Seq<char>
    decreases lines.len(),
{
    if lines.len() == 0 {
        Seq::empty()
    } else if lines.len() == 1 {
        lines[0]
    } else {
        joined(lines.drop_last()) + seq!['\n'] + lines.last()
    }
}

/// The body text for the pull requests that survive in `kept`.
pub open spec fn notes_text(marker: Seq<char>, cfg: Option<ReleaseConfig>, prs: Seq<PullRequestInfo>, kept: Seq<usize>) -> Seq<char> {
    joined(body_lines(marker, cfg, prs, kept))
}

/// The positions of the pull requests by merge time, oldest first (a missing
/// time first of all), equal times in input order.
pub fn sort_by_merge_date(pull_requests: &[PullRequestInfo]) -> (r: Vec<usize>)
    ensures
        is_stamp_order(merge_stamps(pull_requests@), false, r@),
{
    let ghost prs = pull_requests@;
    let mut stamps: Vec<Option<String>> = Vec::new();
    let mut i: usize = 0;
    while i < pull_requests.len()
        invariant
            i <= prs.len(),
            prs == pull_requests@,
            stamps@.len() == i,
            stamps_view(stamps@) =~= merge_stamps(prs).take(i as int),
        decreases prs.len() - i,
    {
        let stamp = match &pull_requests[i].merged_at {
            Some(t) => Some(t.clone()),
            None => None,
        };
        stamps.push(stamp);
        assert(stamps_view(stamps@) =~= merge_stamps(prs).take(i as int + 1));
        i = i + 1;
    }
    stamp_order(&stamps, false)
}

fn contains_number(seen: &Vec<u64>, number: u64) -> (r: bool)
    ensures
        r == exists|q: int| 0 <= q < seen@.len() && seen@[q] == number,
{
    let mut k: usize = 0;
    while k < seen.len()
        invariant
            k <= seen@.len(),
            forall|q: int| 0 <= q < k ==> seen@[q] != number,
        decreases seen@.len() - k,
    {
        if seen[k] == number {
            return true;
        }
        k = k + 1;
    }
    false
}

fn first_seen(pull_requests: &[PullRequestInfo], order: &Vec<usize>) -> (r: Vec<usize>)
    requires
        forall|p: int| 0 <= p < order@.len() ==> order@[p] < pull_requests@.len(),
    ensures
        r@ == survivors(pull_requests@, order@),
        forall|p: int| 0 <= p < r@.len() ==> r@[p] < pull_requests@.len(),
{
    let ghost prs = pull_requests@;
    let mut kept: Vec<usize> = Vec::new();
    let mut seen: Vec<u64> = Vec::new();
    let mut j: usize = 0;
    while j < order.len()
        invariant
            j <= order@.len(),
            prs == pull_requests@,
            forall|p: int| 0 <= p < order@.len() ==> order@[p] < prs.len(),
            kept@ == survivors(prs, order@.take(j as int)),
            forall|p: int| 0 <= p < kept@.len() ==> kept@[p] < prs.len(),
            seen@.len() == kept@.len(),
            forall|p: int| 0 <= p < kept@.len() ==> seen@[p] == prs[kept@[p] as int].number,
        decreases order@.len() - j,
    {
        let i = order[j];
        let number = pull_requests[i].number;
        let found = contains_number(&seen, number);
        proof {
            assert(order@.take(j as int + 1).drop_last() =~= order@.take(j as int));
            assert(order@.take(j as int + 1).last() == i);
            if found {
                let q = choose|q: int| 0 <= q < seen@.len() && seen@[q] == number;
                assert(prs[kept@[q] as int].number == prs[i as int].number);
            } else {
                assert forall|k: int| 0 <= k < kept@.len() implies prs[kept@[k] as int].number != prs[i as int].number by {
                    assert(seen@[k] == prs[kept@[k] as int].number);
                }
            }
        }
        if !found {
            kept.push(i);
            seen.push(number);
        }
        j = j + 1;
    }
    assert(order@.take(j as int) =~= order@);
    kept
}

fn share_any(a: &Vec<String>, b: &Vec<String>) -> (r: bool)
    ensures
        r == share_label(texts(a@), texts(b@)),
{
    let mut i: usize = 0;
    while i < a.len()
        invariant
            i <= a@.len(),
            forall|p: int, q: int| 0 <= p < i && 0 <= q < b@.len() ==> a@[p]@ != b@[q]@,
        decreases a@.len() - i,
    {
        let mut j: usize = 0;
        while j < b.len()
            invariant
                i < a@.len(),
                j <= b@.len(),
                forall|p: int, q: int| 0 <= p < i && 0 <= q < b@.len() ==> a@[p]@ != b@[q]@,
                forall|q: int| 0 <= q < j ==> a@[i as int]@ != b@[q]@,
            decreases b@.len() - j,
        {
            if a[i] == b[j] {
                assert(texts(a@)[i as int] == texts(b@)[j as int]);
                return true;
            }
            j = j + 1;
        }
        i = i + 1;
    }
    assert forall|p: int, q: int| 0 <= p < texts(a@).len() && 0 <= q < texts(b@).len() implies texts(a@)[p] != texts(b@)[q] by {
        assert(a@[p]@ != b@[q]@);
    }
    false
}

fn slot_of(cfg: &ReleaseConfig, pr: &PullRequestInfo) -> (r: Option<usize>)
    ensures
        match r {
            Some(c) => slot(*cfg, *pr) == Some(c as int),
            None => slot(*cfg, *pr) is None,
        },
{
    let labels = normalize_labels(&pr.labels);
    if share_any(&labels, &cfg.exclude_labels) {
        return None;
    }
    let ghost cats = cfg.categories@;
    let ghost ls = pr_labels(*pr);
    let mut c: usize = 0;
    while c < cfg.categories.len()
        invariant
            c <= cats.len(),
            cats == cfg.categories@,
            ls == texts(labels@),
            ls == pr_labels(*pr),
            !share_label(ls, texts(cfg.exclude_labels@)),
            first_match(cats, ls, 0) == first_match(cats, ls, c as int),
        decreases cats.len() - c,
    {
        if share_any(&labels, &cfg.categories[c].labels) {
            return Some(c);
        }
        c = c + 1;
    }
    Some(c)
}

fn line_for(cfg: &ReleaseConfig, pr: &PullRequestInfo) -> (r: String)
    ensures
        r@ == line_of(Some(*cfg), *pr),
{
    replace_text(cfg.change_template.as_str(), "$TITLE", pr.title.as_str())
}

fn heading_for(cat: &ReleaseCategory) -> (r: String)
    ensures
        r@ == heading_text(*cat),
{
    let mut s = String::from_str("");
    proof {
        reveal_strlit("");
    }
    let mut i: u8 = 0;
    while i < cat.heading_level
        invariant
            i <= cat.heading_level,
            s@ =~= Seq::new(i as nat, |k: int| '#'),
        decreases cat.heading_level - i,
    {
        proof {
            reveal_strlit("#");
        }
        s.append("#");
        i = i + 1;
    }
    proof {
        reveal_strlit(" ");
    }
    s.append(" ");
    s.append(cat.title.as_str());
    s
}

/// Appends the section of `lines` (with `heading`, if any) to `out`.
fn push_block(out: &mut Vec<String>, heading: Option<String>, lines: Vec<String>)
    ensures
        texts(final(out)@) == texts(old(out)@) + block(opt_text(heading), texts(lines@)),
{
    if lines.len() == 0 {
        assert(texts(out@) =~= texts(out@) + Seq::<Seq<char>>::empty());
        return;
    }
    let ghost start = texts(out@);
    let ghost hv = opt_text(heading);
    let empty = String::from_str("");
    proof {
        reveal_strlit("");
    }
    assert(empty@ =~= Seq::<char>::empty());
    out.push(empty);
    let ghost hd: Seq<Seq<char>> = match hv {
        Some(h) => seq![Seq::<char>::empty(), h],
        None => seq![Seq::<char>::empty()],
    };
    match heading {
        Some(h) => {
            out.push(h);
        },
        None => {},
    }
    assert(texts(out@) =~= start + hd);
    let mut i: usize = 0;
    while i < lines.len()
        invariant
            i <= lines@.len(),
            texts(out@) =~= start + hd + texts(lines@).take(i as int),
        decreases lines@.len() - i,
    {
        let ghost before = texts(out@);
        out.push(lines[i].clone());
        assert(texts(out@) =~= before.push(lines@[i as int]@));
        assert(texts(lines@).take(i as int + 1) =~= texts(lines@).take(i as int).push(lines@[i as int]@));
        i = i + 1;
    }
    assert(texts(lines@).take(i as int) =~= texts(lines@));
}

fn join_lines(lines: &Vec<String>) -> (r: String)
    ensures
        r@ == joined(texts(lines@)),
{
    if lines.len() == 0 {
        let r = String::from_str("");
        proof {
            reveal_strlit("");
        }
        return r;
    }
    let ghost ls = texts(lines@);
    let mut out = lines[0].clone();
    assert(ls.take(1) =~= seq![ls[0]]);
    let mut i: usize = 1;
    while i < lines.len()
        invariant
            1 <= i <= lines@.len(),
            ls == texts(lines@),
            out@ == joined(ls.take(i as int)),
        decreases lines@.len() - i,
    {
        proof {
            reveal_strlit("\n");
        }
        let ghost before = out@;
        out.append("\n");
        out.append(lines[i].as_str());
        assert(ls.take(i as int + 1).drop_last() =~= ls.take(i as int));
        assert(out@ =~= before + seq!['\n'] + ls[i as int]);
        i = i + 1;
    }
    assert(ls.take(i as int) =~= ls);
    out
}

/// The lines of the kept pull requests whose section is `c`.
fn section_lines(
    cfg: &ReleaseConfig,
    pull_requests: &[PullRequestInfo],
    kept: &Vec<usize>,
    slots: &Vec<Option<usize>>,
    c: usize,
) -> (r: Vec<String>)
    requires
        forall|p: int| 0 <= p < kept@.len() ==> kept@[p] < pull_requests@.len(),
        slots@.len() == kept@.len(),
        forall|p: int| 0 <= p < kept@.len() ==> match #[trigger] slots@[p] {
            Some(s) => slot(*cfg, pull_requests@[kept@[p] as int]) == Some(s as int),
            None => slot(*cfg, pull_requests@[kept@[p] as int]) is None,
        },
    ensures
        texts(r@) == members(pull_requests@, *cfg, kept@, c as int),
{
    let ghost prs = pull_requests@;
    let ghost ks = kept@;
    let mut section: Vec<String> = Vec::new();
    let mut k: usize = 0;
    while k < kept.len()
        invariant
            k <= ks.len(),
            ks == kept@,
            prs == pull_requests@,
            texts(section@) == members(prs, *cfg, ks.take(k as int), c as int),
            forall|p: int| 0 <= p < ks.len() ==> ks[p] < prs.len(),
            slots@.len() == ks.len(),
            forall|p: int| 0 <= p < ks.len() ==> match #[trigger] slots@[p] {
                Some(s) => slot(*cfg, prs[ks[p] as int]) == Some(s as int),
                None => slot(*cfg, prs[ks[p] as int]) is None,
            },
        decreases ks.len() - k,
    {
        let ghost before = texts(section@);
        assert(ks.take(k as int + 1).drop_last() =~= ks.take(k as int));
        assert(ks.take(k as int + 1).last() == ks[k as int]);
        let hit = match slots[k] {
            Some(s) => s == c,
            None => false,
        };
        if hit {
            section.push(line_for(cfg, &pull_requests[kept[k]]));
            assert(texts(section@) =~= before.push(line_of(Some(*cfg), prs[ks[k as int] as int])));
        }
        k = k + 1;
    }
    assert(ks.take(k as int) =~= ks);
    section
}

/// The release body: `marker` on the first line, then the pull requests
/// oldest first by merge time, each number once (its first in that order).
/// Without categories every pull request gets one line after a blank line;
/// with categories, pull requests with an excluded label are left out and the
/// rest go to their first matching category, or to a trailing section without
/// heading; each non-empty section follows a blank line. With no pull request
/// the body is the marker alone.
pub fn build_release_notes(marker: &str, config: &Option<ReleaseConfig>, pull_requests: &[PullRequestInfo]) -> (r: String)
    ensures
        exists|order: Seq<usize>|
            is_stamp_order(merge_stamps(pull_requests@), false, order) && r@ == notes_text(
                marker@,
                *config,
                pull_requests@,
                survivors(pull_requests@, order),
            ),
{
    let ghost prs = pull_requests@;
    let order = sort_by_merge_date(pull_requests);
    let kept = first_seen(pull_requests, &order);
    let ghost ks = kept@;
    let mut lines: Vec<String> = Vec::new();
    lines.push(String::from_str(marker));
    assert(texts(lines@) =~= seq![marker@]);
    match config {
        Some(cfg) if cfg.categories.len() > 0 => {
            let n = cfg.categories.len();
            let mut slots: Vec<Option<usize>> = Vec::new();
            let mut k: usize = 0;
            while k < kept.len()
                invariant
                    k <= ks.len(),
                    ks == kept@,
                    prs == pull_requests@,
                    forall|p: int| 0 <= p < ks.len() ==> ks[p] < prs.len(),
                    slots@.len() == k,
                    forall|p: int| 0 <= p < k ==> match #[trigger] slots@[p] {
                        Some(c) => slot(*cfg, prs[ks[p] as int]) == Some(c as int),
                        None => slot(*cfg, prs[ks[p] as int]) is None,
                    },
                decreases ks.len() - k,
            {
                slots.push(slot_of(cfg, &pull_requests[kept[k]]));
                k = k + 1;
            }
            let mut c: usize = 0;
            while c < n
                invariant
                    c <= n,
                    n == cfg.categories@.len(),
                    ks == kept@,
                    prs == pull_requests@,
                    forall|p: int| 0 <= p < ks.len() ==> ks[p] < prs.len(),
                    slots@.len() == ks.len(),
                    forall|p: int| 0 <= p < ks.len() ==> match #[trigger] slots@[p] {
                        Some(c) => slot(*cfg, prs[ks[p] as int]) == Some(c as int),
                        None => slot(*cfg, prs[ks[p] as int]) is None,
                    },
                    texts(lines@) == seq![marker@] + category_blocks(prs, *cfg, ks, c as int),
                decreases n - c,
            {
                let section = section_lines(cfg, pull_requests, &kept, &slots, c);
                let heading = heading_for(&cfg.categories[c]);
                push_block(&mut lines, Some(heading), section);
                assert(texts(lines@) =~= seq![marker@] + category_blocks(prs, *cfg, ks, c as int + 1));
                c = c + 1;
            }
            let section = section_lines(cfg, pull_requests, &kept, &slots, n);
            push_block(&mut lines, None, section);
            assert(texts(lines@) =~= body_lines(marker@, *config, prs, ks));
        },
        _ => {
            let mut section: Vec<String> = Vec::new();
            let mut k: usize = 0;
            while k < kept.len()
                invariant
                    k <= ks.len(),
                    ks == kept@,
                    prs == pull_requests@,
                    forall|p: int| 0 <= p < ks.len() ==> ks[p] < prs.len(),
                    texts(section@) =~= all_lines(prs, *config, ks.take(k as int)),
                decreases ks.len() - k,
            {
                let pr = &pull_requests[kept[k]];
                let line = match config {
                    Some(cfg) => line_for(cfg, pr),
                    None => pr.title.clone(),
                };
                let ghost before = texts(section@);
                section.push(line);
                assert(texts(section@) =~= before.push(line_of(*config, prs[ks[k as int] as int])));
                assert(all_lines(prs, *config, ks.take(k as int + 1)) =~= all_lines(prs, *config, ks.take(k as int)).push(line_of(*config, prs[ks[k as int] as int])));
                k = k + 1;
            }
            assert(ks.take(k as int) =~= ks);
            push_block(&mut lines, None, section);
            assert(texts(lines@) =~= body_lines(marker@, *config, prs, ks));
        },
    }
    join_lines(&lines)
}

proof fn lemma_blocks_of_nothing(prs: Seq<PullRequestInfo>, cfg: ReleaseConfig, c: int)
    ensures
        category_blocks(prs, cfg, Seq::empty(), c) == Seq::<Seq<char>>::empty(),
    decreases c,
{
    if c > 0 {
        lemma_blocks_of_nothing(prs, cfg, c - 1);
        assert(members(prs, cfg, Seq::empty(), c - 1) == Seq::<Seq<char>>::empty());
        assert(category_blocks(prs, cfg, Seq::empty(), c) =~= Seq::<Seq<char>>::empty());
    }
}

/// With no pull request the body is exactly the marker, whatever the
/// configuration.
pub proof fn lemma_no_pull_requests_marker_only(marker: Seq<char>, cfg: Option<ReleaseConfig>, order: Seq<usize>)
    requires
        is_stamp_order(merge_stamps(Seq::empty()), false, order),
    ensures
        notes_text(marker, cfg, Seq::empty(), survivors(Seq::empty(), order)) == marker,
{
    let prs = Seq::<PullRequestInfo>::empty();
    let kept = survivors(prs, order);
    assert(kept == Seq::<usize>::empty());
    assert(all_lines(prs, cfg, kept) =~= Seq::<Seq<char>>::empty());
    if let Some(c) = cfg {
        let n = c.categories@.len() as int;
        lemma_blocks_of_nothing(prs, c, n);
        assert(members(prs, c, kept, n) == Seq::<Seq<char>>::empty());
    }
    assert(body_lines(marker, cfg, prs, kept) =~= seq![marker]);
}

proof fn lemma_survivors_follow_order(prs: Seq<PullRequestInfo>, st: Seq<Option<Seq<char>>>, o: Seq<usize>)
    requires
        forall|p: int, q: int| 0 <= p < q < o.len() ==> precedes(st, false, #[trigger] o[p] as int, #[trigger] o[q] as int),
    ensures
        forall|p: int, q: int|
            0 <= p < q < survivors(prs, o).len() ==> precedes(
                st,
                false,
                #[trigger] survivors(prs, o)[p] as int,
                #[trigger] survivors(prs, o)[q] as int,
            ),
        forall|p: int| 0 <= p < survivors(prs, o).len() ==> exists|k: int| 0 <= k < o.len() && o[k] == #[trigger] survivors(prs, o)[p],
    decreases o.len(),
{
    if o.len() > 0 {
        let d = o.drop_last();
        assert forall|p: int, q: int| 0 <= p < q < d.len() implies precedes(st, false, #[trigger] d[p] as int, #[trigger] d[q] as int) by {
            assert(d[p] == o[p] && d[q] == o[q]);
        }
        lemma_survivors_follow_order(prs, st, d);
        let prev = survivors(prs, d);
        let s = survivors(prs, o);
        assert forall|p: int| 0 <= p < prev.len() implies exists|k: int| 0 <= k < o.len() && o[k] == #[trigger] prev[p] by {
            let k = choose|k: int| 0 <= k < d.len() && d[k] == prev[p];
            assert(o[k] == prev[p]);
        }
        if s != prev {
            assert(s == prev.push(o.last()));
            assert forall|p: int, q: int| 0 <= p < q < s.len() implies precedes(st, false, #[trigger] s[p] as int, #[trigger] s[q] as int) by {
                if q == s.len() - 1 {
                    let k = choose|k: int| 0 <= k < d.len() && d[k] == prev[p];
                    assert(o[k] == s[p]);
                    assert(o[o.len() - 1] == s[q]);
                } else {
                    assert(s[p] == prev[p] && s[q] == prev[q]);
                }
            }
            assert forall|p: int| 0 <= p < s.len() implies exists|k: int| 0 <= k < o.len() && o[k] == #[trigger] s[p] by {
                if p == s.len() - 1 {
                    assert(o[o.len() - 1] == s[p]);
                } else {
                    assert(s[p] == prev[p]);
                }
            }
        }
    }
}

/// The surviving pull requests, which the body lists in this order (and
/// each section in this order too), never put one merged later before one
/// merged earlier.
pub proof fn lemma_survivors_in_merge_order(prs: Seq<PullRequestInfo>, order: Seq<usize>)
    requires
        is_stamp_order(merge_stamps(prs), false, order),
    ensures
        forall|p: int, q: int|
            0 <= p < q < survivors(prs, order).len() ==> !stamp_before(
                merge_stamps(prs)[#[trigger] survivors(prs, order)[q] as int],
                merge_stamps(prs)[#[trigger] survivors(prs, order)[p] as int],
            ),
{
    let st = merge_stamps(prs);
    lemma_survivors_follow_order(prs, st, order);
    let s = survivors(prs, order);
    assert forall|p: int, q: int| 0 <= p < q < s.len() implies !stamp_before(st[#[trigger] s[q] as int], st[#[trigger] s[p] as int]) by {
        assert(precedes(st, false, s[p] as int, s[q] as int));
        lemma_stamp_irreflexive(st[s[p] as int]);
        if stamp_before(st[s[q] as int], st[s[p] as int]) && st[s[p] as int] != st[s[q] as int] {
            lemma_stamp_transitive(st[s[p] as int], st[s[q] as int], st[s[p] as int]);
        }
    }
}

proof fn lemma_numbers_survive(prs: Seq<PullRequestInfo>, o: Seq<usize>)
    ensures
        forall|k: int|
            0 <= k < o.len() ==> exists|p: int|
                0 <= p < survivors(prs, o).len() && prs[survivors(prs, o)[p] as int].number == prs[#[trigger] o[k] as int].number,
    decreases o.len(),
{
    if o.len() > 0 {
        let d = o.drop_last();
        lemma_numbers_survive(prs, d);
        let prev = survivors(prs, d);
        let s = survivors(prs, o);
        assert forall|k: int| 0 <= k < o.len() implies exists|p: int|
            0 <= p < s.len() && prs[s[p] as int].number == prs[#[trigger] o[k] as int].number by {
            if k < o.len() - 1 {
                assert(o[k] == d[k]);
                let p = choose|p: int| 0 <= p < prev.len() && prs[prev[p] as int].number == prs[d[k] as int].number;
                if s != prev {
                    assert(s[p] == prev[p]);
                }
            } else if s != prev {
                assert(s[s.len() - 1] == o[k]);
            }
        }
    }
}

proof fn lemma_excluded_blocks(prs: Seq<PullRequestInfo>, cfg: ReleaseConfig, kept: Seq<usize>, i: usize, c: int)
    requires
        slot(cfg, prs[i as int]) is None,
    ensures
        category_blocks(prs, cfg, kept.push(i), c) == category_blocks(prs, cfg, kept, c),
        forall|d: int| #[trigger] members(prs, cfg, kept.push(i), d) == members(prs, cfg, kept, d),
    decreases c,
{
    assert(kept.push(i).drop_last() =~= kept);
    if c > 0 {
        lemma_excluded_blocks(prs, cfg, kept, i, c - 1);
    }
}

/// A pull request carrying an excluded label is left out of the body
/// entirely, whatever other labels it has: adding it to the survivors
/// changes no line.
pub proof fn lemma_excluded_pull_request_omitted(
    marker: Seq<char>,
    cfg: ReleaseConfig,
    prs: Seq<PullRequestInfo>,
    kept: Seq<usize>,
    i: usize,
)
    requires
        cfg.categories@.len() > 0,
        share_label(pr_labels(prs[i as int]), texts(cfg.exclude_labels@)),
    ensures
        body_lines(marker, Some(cfg), prs, kept.push(i)) == body_lines(marker, Some(cfg), prs, kept),
{
    let n = cfg.categories@.len() as int;
    lemma_excluded_blocks(prs, cfg, kept, i, n);
    assert(members(prs, cfg, kept.push(i), n) == members(prs, cfg, kept, n));
}

/// Position `i` holds the first pull request of its number in merge order.
pub open spec fn first_of_number(prs: Seq<PullRequestInfo>, st: Seq<Option<Seq<char>>>, i: int) -> bool {
    forall|j: int|
        0 <= j < prs.len() && j != i && #[trigger] prs[j].number == prs[i].number ==> !precedes(st, false, j, i)
}

/// No pull request before position `p` of `o` has the number of the one at `p`.
pub open spec fn new_number_at(prs: Seq<PullRequestInfo>, o: Seq<usize>, p: int) -> bool {
    forall|q: int| 0 <= q < p ==> prs[o[q] as int].number != prs[o[p] as int].number
}

proof fn lemma_earlier_number_survives(prs: Seq<PullRequestInfo>, st: Seq<Option<Seq<char>>>, o: Seq<usize>, m: int)
    requires
        is_stamp_order(st, false, o),
        st.len() == prs.len(),
        0 < m <= o.len(),
    ensures
        (exists|k: int|
            0 <= k < survivors(prs, o.take(m - 1)).len() && prs[#[trigger] survivors(prs, o.take(m - 1))[k] as int].number
                == prs[o[m - 1] as int].number) <==> !new_number_at(prs, o, m - 1),
        !survivors(prs, o.take(m - 1)).contains(o[m - 1]),
{
    let d = o.take(m - 1);
    assert forall|p: int, q: int| 0 <= p < q < d.len() implies precedes(st, false, #[trigger] d[p] as int, #[trigger] d[q] as int) by {
        assert(d[p] == o[p] && d[q] == o[q]);
    }
    lemma_survivors_follow_order(prs, st, d);
    lemma_numbers_survive(prs, d);
    let prev = survivors(prs, d);
    let x = o[m - 1];
    if exists|k: int| 0 <= k < prev.len() && prs[prev[k] as int].number == prs[x as int].number {
        let k = choose|k: int| 0 <= k < prev.len() && prs[prev[k] as int].number == prs[x as int].number;
        let q = choose|q: int| 0 <= q < d.len() && d[q] == #[trigger] prev[k];
        assert(o[q] == d[q]);
        assert(!new_number_at(prs, o, m - 1));
    }
    if !new_number_at(prs, o, m - 1) {
        let q = choose|q: int| 0 <= q < m - 1 && prs[#[trigger] o[q] as int].number == prs[o[m - 1] as int].number;
        assert(d[q] == o[q]);
        let k = choose|k: int| 0 <= k < prev.len() && prs[prev[k] as int].number == prs[#[trigger] d[q] as int].number;
    }
    if prev.contains(x) {
        let k = choose|k: int| 0 <= k < prev.len() && prev[k] == x;
        let q = choose|q: int| 0 <= q < d.len() && d[q] == #[trigger] prev[k];
        assert(o[q] == o[m - 1]);
    }
}

proof fn lemma_survivor_step(prs: Seq<PullRequestInfo>, st: Seq<Option<Seq<char>>>, o: Seq<usize>, m: int)
    requires
        is_stamp_order(st, false, o),
        st.len() == prs.len(),
        0 < m <= o.len(),
        forall|p: int| 0 <= p < m - 1 ==> (survivors(prs, o.take(m - 1)).contains(#[trigger] o[p]) <==> new_number_at(prs, o, p)),
    ensures
        forall|p: int| 0 <= p < m ==> (survivors(prs, o.take(m)).contains(#[trigger] o[p]) <==> new_number_at(prs, o, p)),
{
    let t = o.take(m);
    let d = o.take(m - 1);
    assert(t.drop_last() =~= d);
    assert(t.last() == o[m - 1]);
    lemma_earlier_number_survives(prs, st, o, m);
    let prev = survivors(prs, d);
    let s = survivors(prs, t);
    let x = o[m - 1];
    let fresh = new_number_at(prs, o, m - 1);
    assert(fresh ==> s == prev.push(x));
    assert(!fresh ==> s == prev);
    assert forall|p: int| 0 <= p < m implies (s.contains(#[trigger] o[p]) <==> new_number_at(prs, o, p)) by {
        if p < m - 1 {
            assert(o[p] != x);
            assert(prev.contains(o[p]) <==> new_number_at(prs, o, p));
            if fresh {
                if prev.contains(o[p]) {
                    let k = choose|k: int| 0 <= k < prev.len() && prev[k] == o[p];
                    assert(s[k] == o[p]);
                }
                if s.contains(o[p]) {
                    let k = choose|k: int| 0 <= k < s.len() && s[k] == o[p];
                    assert(k < prev.len());
                    assert(prev[k] == o[p]);
                }
            }
        } else if fresh {
            assert(s[prev.len() as int] == x);
        }
    }
}

proof fn lemma_survivors_of_prefix(prs: Seq<PullRequestInfo>, st: Seq<Option<Seq<char>>>, o: Seq<usize>, m: int)
    requires
        is_stamp_order(st, false, o),
        st.len() == prs.len(),
        0 <= m <= o.len(),
    ensures
        forall|p: int| 0 <= p < m ==> (survivors(prs, o.take(m)).contains(#[trigger] o[p]) <==> new_number_at(prs, o, p)),
    decreases m,
{
    if m > 0 {
        lemma_survivors_of_prefix(prs, st, o, m - 1);
        lemma_survivor_step(prs, st, o, m);
    }
}

proof fn lemma_survivors_are_firsts(prs: Seq<PullRequestInfo>, st: Seq<Option<Seq<char>>>, o: Seq<usize>)
    requires
        is_stamp_order(st, false, o),
        st.len() == prs.len(),
    ensures
        forall|i: int|
            0 <= i < prs.len() ==> (#[trigger] lists(survivors(prs, o), i) <==> first_of_number(prs, st, i)),
        forall|x: usize| #[trigger] survivors(prs, o).contains(x) ==> x < prs.len(),
        forall|p: int, q: int|
            0 <= p < q < survivors(prs, o).len() ==> precedes(
                st,
                false,
                #[trigger] survivors(prs, o)[p] as int,
                #[trigger] survivors(prs, o)[q] as int,
            ),
{
    let m = o.len() as int;
    lemma_survivors_of_prefix(prs, st, o, m);
    assert(o.take(m) =~= o);
    lemma_survivors_follow_order(prs, st, o);
    let s = survivors(prs, o);
    assert forall|x: usize| #[trigger] s.contains(x) implies x < prs.len() by {
        let k = choose|k: int| 0 <= k < s.len() && s[k] == x;
        let q = choose|q: int| 0 <= q < o.len() && o[q] == #[trigger] s[k];
    }
    assert forall|i: int| 0 <= i < prs.len() implies (#[trigger] lists(s, i) <==> first_of_number(prs, st, i)) by {
        assert(lists(o, i));
        let p = choose|p: int| 0 <= p < o.len() && o[p] as int == i;
        assert(s.contains(o[p]) <==> new_number_at(prs, o, p));
        if s.contains(o[p]) {
            let k = choose|k: int| 0 <= k < s.len() && s[k] == o[p];
            assert(s[k] as int == i);
        }
        if lists(s, i) {
            let k = choose|k: int| 0 <= k < s.len() && s[k] as int == i;
            assert(s[k] == o[p]);
        }
        if first_of_number(prs, st, i) {
            assert forall|q: int| 0 <= q < p implies prs[o[q] as int].number != prs[o[p] as int].number by {
                let j = o[q] as int;
                assert(precedes(st, false, j, i));
                assert(o[q] != o[p]);
                assert(0 <= j < prs.len());
                if prs[j].number == prs[i].number {
                    assert(!precedes(st, false, j, i));
                }
            }
            assert(new_number_at(prs, o, p));
        }
        if new_number_at(prs, o, p) {
            assert forall|j: int| 0 <= j < prs.len() && j != i && #[trigger] prs[j].number == prs[i].number implies !precedes(st, false, j, i) by {
                assert(lists(o, j));
                let q = choose|q: int| 0 <= q < o.len() && o[q] as int == j;
                if q < p {
                    assert(prs[o[q] as int].number != prs[o[p] as int].number);
                } else if q > p {
                    assert(precedes(st, false, o[p] as int, o[q] as int));
                    lemma_precedes_asymmetric(st, false, i, j);
                }
            }
        }
    }
}

proof fn lemma_sorted_unique(st: Seq<Option<Seq<char>>>, a: Seq<usize>, b: Seq<usize>)
    requires
        forall|p: int| 0 <= p < a.len() ==> a[p] < st.len(),
        forall|p: int| 0 <= p < b.len() ==> b[p] < st.len(),
        forall|p: int, q: int| 0 <= p < q < a.len() ==> precedes(st, false, #[trigger] a[p] as int, #[trigger] a[q] as int),
        forall|p: int, q: int| 0 <= p < q < b.len() ==> precedes(st, false, #[trigger] b[p] as int, #[trigger] b[q] as int),
        forall|x: usize| a.contains(x) <==> b.contains(x),
    ensures
        a == b,
    decreases a.len(),
{
    if a.len() == 0 {
        if b.len() > 0 {
            assert(b.contains(b[0]));
        }
        assert(a =~= b);
    } else {
        assert(a.contains(a[0]));
        assert(b.len() > 0);
        assert(b.contains(b[0]));
        let p = choose|p: int| 0 <= p < a.len() && a[p] == b[0];
        let q = choose|q: int| 0 <= q < b.len() && b[q] == a[0];
        if p > 0 && q > 0 {
            assert(precedes(st, false, a[0] as int, a[p] as int));
            assert(precedes(st, false, b[0] as int, b[q] as int));
            lemma_precedes_asymmetric(st, false, a[0] as int, b[0] as int);
        }
        assert(a[0] == b[0]);
        let ra = a.drop_first();
        let rb = b.drop_first();
        assert forall|x: usize| ra.contains(x) <==> rb.contains(x) by {
            if ra.contains(x) {
                let k = choose|k: int| 0 <= k < ra.len() && ra[k] == x;
                assert(a[k + 1] == x);
                assert(precedes(st, false, a[0] as int, a[k + 1] as int));
                assert(b.contains(x));
                let j = choose|j: int| 0 <= j < b.len() && b[j] == x;
                assert(j != 0);
                assert(rb[j - 1] == x);
            }
            if rb.contains(x) {
                let k = choose|k: int| 0 <= k < rb.len() && rb[k] == x;
                assert(b[k + 1] == x);
                assert(precedes(st, false, b[0] as int, b[k + 1] as int));
                assert(a.contains(x));
                let j = choose|j: int| 0 <= j < a.len() && a[j] == x;
                assert(j != 0);
                assert(ra[j - 1] == x);
            }
        }
        assert forall|p: int, q: int| 0 <= p < q < ra.len() implies precedes(st, false, #[trigger] ra[p] as int, #[trigger] ra[q] as int) by {
            assert(ra[p] == a[p + 1] && ra[q] == a[q + 1]);
        }
        assert forall|p: int, q: int| 0 <= p < q < rb.len() implies precedes(st, false, #[trigger] rb[p] as int, #[trigger] rb[q] as int) by {
            assert(rb[p] == b[p + 1] && rb[q] == b[q + 1]);
        }
        lemma_sorted_unique(st, ra, rb);
        assert(a =~= seq![a[0]] + ra);
        assert(b =~= seq![b[0]] + rb);
    }
}

proof fn lemma_same_records_same_members(prs: Seq<PullRequestInfo>, prs2: Seq<PullRequestInfo>, cfg: ReleaseConfig, kept: Seq<usize>, c: int)
    requires
        forall|k: int| 0 <= k < kept.len() ==> kept[k] < prs.len() && prs2[kept[k] as int] == prs[kept[k] as int],
    ensures
        members(prs2, cfg, kept, c) == members(prs, cfg, kept, c),
    decreases kept.len(),
{
    if kept.len() > 0 {
        lemma_same_records_same_members(prs, prs2, cfg, kept.drop_last(), c);
        assert(prs2[kept.last() as int] == prs[kept.last() as int]);
    }
}

proof fn lemma_same_records_same_blocks(prs: Seq<PullRequestInfo>, prs2: Seq<PullRequestInfo>, cfg: ReleaseConfig, kept: Seq<usize>, c: int)
    requires
        forall|k: int| 0 <= k < kept.len() ==> kept[k] < prs.len() && prs2[kept[k] as int] == prs[kept[k] as int],
    ensures
        category_blocks(prs2, cfg, kept, c) == category_blocks(prs, cfg, kept, c),
    decreases c,
{
    if c > 0 {
        lemma_same_records_same_blocks(prs, prs2, cfg, kept, c - 1);
        lemma_same_records_same_members(prs, prs2, cfg, kept, c - 1);
    }
}

/// Feeding the same pull requests twice (as overlapping pages would) gives
/// the same body as feeding them once.
pub proof fn lemma_repeated_list_same_notes(
    marker: Seq<char>,
    cfg: Option<ReleaseConfig>,
    prs: Seq<PullRequestInfo>,
    once: Seq<usize>,
    twice: Seq<usize>,
)
    requires
        is_stamp_order(merge_stamps(prs), false, once),
        is_stamp_order(merge_stamps(prs + prs), false, twice),
    ensures
        notes_text(marker, cfg, prs + prs, survivors(prs + prs, twice)) == notes_text(marker, cfg, prs, survivors(prs, once)),
{
    let n = prs.len() as int;
    let prs2 = prs + prs;
    let st = merge_stamps(prs);
    let st2 = merge_stamps(prs2);
    assert(prs2.len() == 2 * n);
    assert(st2.len() == 2 * n);
    assert forall|i: int| 0 <= i < n implies prs2[i] == prs[i] && prs2[i + n] == prs[i] && #[trigger] st2[i] == st[i] && st2[i + n] == st[i] by {}
    lemma_survivors_are_firsts(prs, st, once);
    lemma_survivors_are_firsts(prs2, st2, twice);
    let s1 = survivors(prs, once);
    let s2 = survivors(prs2, twice);
    assert forall|x: usize| s1.contains(x) <==> s2.contains(x) by {
        let i = x as int;
        if s1.contains(x) {
            let k = choose|k: int| 0 <= k < s1.len() && s1[k] == x;
            assert(lists(s1, i));
        }
        if s2.contains(x) {
            let k = choose|k: int| 0 <= k < s2.len() && s2[k] == x;
            assert(lists(s2, i));
        }
        if lists(s1, i) {
            let k = choose|k: int| 0 <= k < s1.len() && s1[k] as int == i;
            assert(s1[k] == x);
        }
        if lists(s2, i) {
            let k = choose|k: int| 0 <= k < s2.len() && s2[k] as int == i;
            assert(s2[k] == x);
        }
        if s2.contains(x) {
            assert(x < 2 * n);
            assert(lists(s2, i) <==> first_of_number(prs2, st2, i));
            if i >= n {
                assert(prs2[i - n] == prs2[i]);
                assert(precedes(st2, false, i - n, i));
                assert(!first_of_number(prs2, st2, i));
            } else {
                assert(first_of_number(prs2, st2, i));
                assert forall|j: int| 0 <= j < n && j != i && #[trigger] prs[j].number == prs[i].number implies !precedes(st, false, j, i) by {
                    assert(prs2[j] == prs[j]);
                    assert(st2[j] == st[j]);
                }
                assert(first_of_number(prs, st, i));
                assert(lists(s1, i) <==> first_of_number(prs, st, i));
            }
        }
        if s1.contains(x) {
            assert(x < n);
            assert(lists(s1, i) <==> first_of_number(prs, st, i));
            assert(first_of_number(prs, st, i));
            assert forall|j: int| 0 <= j < 2 * n && j != i && #[trigger] prs2[j].number == prs2[i].number implies !precedes(st2, false, j, i) by {
                if j < n {
                    assert(prs2[j] == prs[j]);
                    assert(st2[j] == st[j]);
                } else {
                    let jj = j - n;
                    assert(prs2[j] == prs[jj]);
                    assert(st2[j] == st[jj]);
                    if precedes(st2, false, j, i) {
                        assert(st[jj] != st[i]);
                        assert(jj != i);
                        assert(prs[jj].number == prs[i].number);
                        assert(precedes(st, false, jj, i));
                    }
                }
            }
            assert(first_of_number(prs2, st2, i));
            assert(lists(s2, i) <==> first_of_number(prs2, st2, i));
        }
    }
    assert forall|p: int| 0 <= p < s1.len() implies s1[p] < st2.len() by {
        assert(s1.contains(s1[p]));
    }
    assert forall|p: int| 0 <= p < s2.len() implies s2[p] < st2.len() by {
        assert(s2.contains(s2[p]));
    }
    assert forall|p: int, q: int| 0 <= p < q < s1.len() implies precedes(st2, false, #[trigger] s1[p] as int, #[trigger] s1[q] as int) by {
        assert(s1.contains(s1[p]) && s1.contains(s1[q]));
        assert(precedes(st, false, s1[p] as int, s1[q] as int));
        assert(st2[s1[p] as int] == st[s1[p] as int]);
        assert(st2[s1[q] as int] == st[s1[q] as int]);
    }
    lemma_sorted_unique(st2, s1, s2);
    assert forall|k: int| 0 <= k < s1.len() implies s1[k] < prs.len() && prs2[s1[k] as int] == prs[s1[k] as int] by {
        assert(s1.contains(s1[k]));
    }
    assert(all_lines(prs2, cfg, s1) =~= all_lines(prs, cfg, s1));
    if let Some(c) = cfg {
        let nc = c.categories@.len() as int;
        lemma_same_records_same_blocks(prs, prs2, c, s1, nc);
        lemma_same_records_same_members(prs, prs2, c, s1, nc);
    }
    assert(body_lines(marker, cfg, prs2, s1) == body_lines(marker, cfg, prs, s1));
}

} // verus!
