use vstd::prelude::*;

use crate::events::CommitRecord;
use crate::events::DeltaRecord;
use crate::events::DeltaStatus;
use crate::events::filter_adds;
use crate::events::filter_dels;
use crate::events::raw_ids;
use crate::events::report_sections;
use crate::events::sections_from;
use crate::events::set_after_adds;
use crate::paths::is_tracked;
use crate::paths::video_id;
use crate::render::report_str;
use crate::render::time_in_range;
use crate::summary::id_at;
use crate::summary::summary_has_id;
use crate::summary::summary_ids;
use crate::summary::summary_items;

verus! {

/// The already-added set once the whole walk from `commits` is over.
pub open spec fn already_after(commits: Seq<CommitRecord>, already: Set<Seq<char>>) -> Set<
    Seq<char>,
>
    decreases commits.len(),
{
    if commits.len() == 0 {
        already
    } else {
        let c = commits.first();
        if !c.has_parent {
            already_after(commits.drop_first(), already)
        } else {
            already_after(
                commits.drop_first(),
                set_after_adds(raw_ids(c.deltas@, DeltaStatus::Added), already),
            )
        }
    }
}

/// Every identifier the deduplicating filter keeps is fresh: not yet in the
/// already-added set, kept at most once, and remembered afterwards; the set
/// only grows.
pub proof fn lemma_filter_adds_fresh(raw: Seq<Seq<char>>, already: Set<Seq<char>>)
    ensures
        forall|p: int|
            0 <= p < filter_adds(raw, already).len() ==> !already.contains(
                #[trigger] filter_adds(raw, already)[p],
            ),
        forall|p: int, q: int|
            0 <= p < q < filter_adds(raw, already).len() ==> #[trigger] filter_adds(raw, already)[p]
                != #[trigger] filter_adds(raw, already)[q],
        forall|p: int|
            0 <= p < filter_adds(raw, already).len() ==> set_after_adds(raw, already).contains(
                #[trigger] filter_adds(raw, already)[p],
            ),
        forall|x: Seq<char>|
            already.contains(x) ==> #[trigger] set_after_adds(raw, already).contains(x),
    decreases raw.len(),
{
    if raw.len() == 0 {
    } else {
        let v = raw.first();
        let rest = raw.drop_first();
        let f = filter_adds(raw, already);
        if already.contains(v) {
            lemma_filter_adds_fresh(rest, already);
            assert(already.insert(v) =~= already);
            assert(set_after_adds(raw, already) == set_after_adds(rest, already));
        } else {
            lemma_filter_adds_fresh(rest, already.insert(v));
            assert(set_after_adds(raw, already) == set_after_adds(rest, already.insert(v)));
            let fr = filter_adds(rest, already.insert(v));
            assert(f == seq![v] + fr);
            assert(f[0] == v);
            assert forall|p: int| 0 < p < f.len() implies f[p] == fr[p - 1] by {}
            assert forall|p: int| 0 <= p < f.len() implies !already.contains(f[p]) by {
                if p > 0 {
                    assert(!already.insert(v).contains(fr[p - 1]));
                }
            }
            assert forall|p: int, q: int| 0 <= p < q < f.len() implies f[p] != f[q] by {
                if p == 0 {
                    assert(already.insert(v).contains(v));
                    assert(!already.insert(v).contains(fr[q - 1]));
                } else {
                    assert(fr[p - 1] != fr[q - 1]);
                }
            }
            assert forall|p: int|
                0 <= p < f.len() implies set_after_adds(raw, already).contains(f[p]) by {
                if p == 0 {
                    assert(already.insert(v).contains(v));
                    assert(set_after_adds(rest, already.insert(v)).contains(v));
                } else {
                    assert(set_after_adds(rest, already.insert(v)).contains(fr[p - 1]));
                }
            }
            assert forall|x: Seq<char>|
                already.contains(x) implies set_after_adds(raw, already).contains(x) by {
                assert(already.insert(v).contains(x));
                assert(set_after_adds(rest, already.insert(v)).contains(x));
            }
        }
    }
}

/// Dedup law: over the whole walk, an identifier is reported as added at most
/// once; none that the starting set already holds is ever reported, and every
/// reported one is remembered at the end.
pub proof fn lemma_added_at_most_once(
    commits: Seq<CommitRecord>,
    already: Set<Seq<char>>,
    current: Set<Seq<char>>,
)
    ensures
        forall|i: int, a: int|
            0 <= i < sections_from(commits, already, current).len() && 0 <= a < sections_from(
                commits,
                already,
                current,
            )[i].added.len() ==> !already.contains(
                #[trigger] sections_from(commits, already, current)[i].added[a],
            ),
        forall|i: int, a: int|
            0 <= i < sections_from(commits, already, current).len() && 0 <= a < sections_from(
                commits,
                already,
                current,
            )[i].added.len() ==> already_after(commits, already).contains(
                #[trigger] sections_from(commits, already, current)[i].added[a],
            ),
        forall|i: int, a: int, j: int, b: int|
            0 <= i < sections_from(commits, already, current).len() && 0 <= a < sections_from(
                commits,
                already,
                current,
            )[i].added.len() && 0 <= j < sections_from(commits, already, current).len() && 0 <= b
                < sections_from(commits, already, current)[j].added.len() && (i != j || a != b)
                ==> #[trigger] sections_from(commits, already, current)[i].added[a]
                != #[trigger] sections_from(commits, already, current)[j].added[b],
        forall|x: Seq<char>|
            already.contains(x) ==> #[trigger] already_after(commits, already).contains(x),
    decreases commits.len(),
{
    let secs = sections_from(commits, already, current);
    if commits.len() == 0 {
    } else {
        let c = commits.first();
        let rest_commits = commits.drop_first();
        if !c.has_parent {
            lemma_added_at_most_once(rest_commits, already, current);
            let rest = sections_from(rest_commits, already, current);
            assert(secs == rest);
            assert(already_after(commits, already) == already_after(rest_commits, already));
            assert forall|i: int, a: int|
                0 <= i < secs.len() && 0 <= a < secs[i].added.len() implies !already.contains(
                secs[i].added[a],
            ) && already_after(commits, already).contains(secs[i].added[a]) by {
                assert(!already.contains(rest[i].added[a]));
                assert(already_after(rest_commits, already).contains(rest[i].added[a]));
            }
        } else {
            let rawa = raw_ids(c.deltas@, DeltaStatus::Added);
            let aset = set_after_adds(rawa, already);
            let kept = filter_adds(rawa, already);
            let dels = filter_dels(raw_ids(c.deltas@, DeltaStatus::Deleted), current);
            lemma_filter_adds_fresh(rawa, already);
            lemma_added_at_most_once(rest_commits, aset, current);
            let rest = sections_from(rest_commits, aset, current);
            assert(already_after(commits, already) == already_after(rest_commits, aset));
            assert forall|x: Seq<char>|
                already.contains(x) implies already_after(commits, already).contains(x) by {
                assert(aset.contains(x));
                assert(already_after(rest_commits, aset).contains(x));
            }
            if kept.len() + dels.len() == 0 {
                assert(secs == rest);
                assert forall|i: int, a: int|
                    0 <= i < secs.len() && 0 <= a < secs[i].added.len() implies !already.contains(
                    secs[i].added[a],
                ) by {
                    assert(!aset.contains(rest[i].added[a]));
                }
                assert forall|i: int, a: int|
                    0 <= i < secs.len() && 0 <= a < secs[i].added.len() implies already_after(
                    commits,
                    already,
                ).contains(secs[i].added[a]) by {
                    assert(already_after(rest_commits, aset).contains(rest[i].added[a]));
                }
                assert forall|i: int, a: int, j: int, b: int|
                    0 <= i < secs.len() && 0 <= a < secs[i].added.len() && 0 <= j < secs.len() && 0
                    <= b < secs[j].added.len() && (i != j || a != b) implies secs[i].added[a]
                    != secs[j].added[b] by {
                    assert(rest[i].added[a] != rest[j].added[b]);
                }
            } else {
                let sec = secs[0];
                assert(secs.drop_first() =~= rest);
                assert(sec.added == kept);
                assert forall|i: int| 0 < i < secs.len() implies secs[i] == rest[i - 1] by {
                    assert(secs[i] == secs.drop_first()[i - 1]);
                }
                assert forall|i: int, a: int|
                    0 <= i < secs.len() && 0 <= a < secs[i].added.len() implies !already.contains(
                    secs[i].added[a],
                ) by {
                    if i > 0 {
                        assert(!aset.contains(rest[i - 1].added[a]));
                    }
                }
                assert forall|i: int, a: int|
                    0 <= i < secs.len() && 0 <= a < secs[i].added.len() implies already_after(
                    commits,
                    already,
                ).contains(secs[i].added[a]) by {
                    if i == 0 {
                        assert(aset.contains(kept[a]));
                        assert(already_after(rest_commits, aset).contains(kept[a]));
                    } else {
                        assert(already_after(rest_commits, aset).contains(rest[i - 1].added[a]));
                    }
                }
                assert forall|i: int, a: int, j: int, b: int|
                    0 <= i < secs.len() && 0 <= a < secs[i].added.len() && 0 <= j < secs.len() && 0
                    <= b < secs[j].added.len() && (i != j || a != b) implies secs[i].added[a]
                    != secs[j].added[b] by {
                    if i == 0 && j == 0 {
                        assert(kept[a] != kept[b]);
                    } else if i == 0 && j > 0 {
                        assert(aset.contains(kept[a]));
                        assert(!aset.contains(rest[j - 1].added[b]));
                    } else if i > 0 && j == 0 {
                        assert(aset.contains(kept[b]));
                        assert(!aset.contains(rest[i - 1].added[a]));
                    } else {
                        assert(rest[i - 1].added[a] != rest[j - 1].added[b]);
                    }
                }
            }
        }
    }
}

/// Dedup law over a whole run: however often an identifier is added and
/// re-added across history, the report carries its "Added" entry in at most
/// one section, at most once.
pub proof fn lemma_report_added_once(commits: Seq<CommitRecord>, current: Set<Seq<char>>)
    ensures
        forall|i: int, a: int, j: int, b: int|
            0 <= i < report_sections(commits, current).len() && 0 <= a < report_sections(
                commits,
                current,
            )[i].added.len() && 0 <= j < report_sections(commits, current).len() && 0 <= b
                < report_sections(commits, current)[j].added.len() && (i != j || a != b)
                ==> #[trigger] report_sections(commits, current)[i].added[a]
                != #[trigger] report_sections(commits, current)[j].added[b],
{
    lemma_added_at_most_once(commits, Set::empty(), current);
    assert(report_sections(commits, current) == sections_from(commits, Set::empty(), current));
}

/// Current-state suppression law over a whole run: an identifier active at
/// head never stands in any section's removed entries.
pub proof fn lemma_report_never_removes_current(
    commits: Seq<CommitRecord>,
    current: Set<Seq<char>>,
    v: Seq<char>,
)
    requires
        current.contains(v),
    ensures
        forall|i: int, b: int|
            0 <= i < report_sections(commits, current).len() && 0 <= b < report_sections(
                commits,
                current,
            )[i].deleted.len() ==> #[trigger] report_sections(commits, current)[i].deleted[b] != v,
{
    lemma_current_never_removed(commits, Set::empty(), current);
    assert(report_sections(commits, current) == sections_from(commits, Set::empty(), current));
    assert forall|i: int, b: int|
        0 <= i < report_sections(commits, current).len() && 0 <= b < report_sections(
            commits,
            current,
        )[i].deleted.len() implies #[trigger] report_sections(commits, current)[i].deleted[b]
        != v by {
        assert(!current.contains(sections_from(commits, Set::empty(), current)[i].deleted[b]));
    }
}

/// Current-state suppression law: an identifier still active at head is never
/// reported as removed, whatever the walk and the already-added state.
pub proof fn lemma_current_never_removed(
    commits: Seq<CommitRecord>,
    already: Set<Seq<char>>,
    current: Set<Seq<char>>,
)
    ensures
        forall|i: int, b: int|
            0 <= i < sections_from(commits, already, current).len() && 0 <= b < sections_from(
                commits,
                already,
                current,
            )[i].deleted.len() ==> !current.contains(
                #[trigger] sections_from(commits, already, current)[i].deleted[b],
            ),
    decreases commits.len(),
{
    let secs = sections_from(commits, already, current);
    if commits.len() == 0 {
    } else {
        let c = commits.first();
        let rest_commits = commits.drop_first();
        if !c.has_parent {
            lemma_current_never_removed(rest_commits, already, current);
            let rest = sections_from(rest_commits, already, current);
            assert(secs == rest);
            assert forall|i: int, b: int|
                0 <= i < secs.len() && 0 <= b < secs[i].deleted.len() implies !current.contains(
                secs[i].deleted[b],
            ) by {
                assert(!current.contains(rest[i].deleted[b]));
            }
        } else {
            let rawa = raw_ids(c.deltas@, DeltaStatus::Added);
            let rawd = raw_ids(c.deltas@, DeltaStatus::Deleted);
            let aset = set_after_adds(rawa, already);
            let kept = filter_adds(rawa, already);
            let dels = filter_dels(rawd, current);
            lemma_filter_dels_suppressed(rawd, current);
            lemma_current_never_removed(rest_commits, aset, current);
            let rest = sections_from(rest_commits, aset, current);
            if kept.len() + dels.len() == 0 {
                assert(secs == rest);
                assert forall|i: int, b: int|
                    0 <= i < secs.len() && 0 <= b < secs[i].deleted.len() implies !current.contains(
                    secs[i].deleted[b],
                ) by {
                    assert(!current.contains(rest[i].deleted[b]));
                }
            } else {
                assert(secs.drop_first() =~= rest);
                assert(secs[0].deleted == dels);
                assert forall|i: int, b: int|
                    0 <= i < secs.len() && 0 <= b < secs[i].deleted.len() implies !current.contains(
                    secs[i].deleted[b],
                ) by {
                    if i > 0 {
                        assert(secs[i] == secs.drop_first()[i - 1]);
                        assert(!current.contains(rest[i - 1].deleted[b]));
                    }
                }
            }
        }
    }
}

/// Every identifier the deletion filter keeps is inactive at head.
pub proof fn lemma_filter_dels_suppressed(raw: Seq<Seq<char>>, current: Set<Seq<char>>)
    ensures
        forall|p: int|
            0 <= p < filter_dels(raw, current).len() ==> !current.contains(
                #[trigger] filter_dels(raw, current)[p],
            ),
    decreases raw.len(),
{
    if raw.len() == 0 {
    } else {
        lemma_filter_dels_suppressed(raw.drop_first(), current);
        if !current.contains(raw.first()) {
            let f = filter_dels(raw, current);
            let fr = filter_dels(raw.drop_first(), current);
            assert(f == seq![raw.first()] + fr);
            assert forall|p: int| 0 <= p < f.len() implies !current.contains(f[p]) by {
                if p > 0 {
                    assert(f[p] == fr[p - 1]);
                }
            }
        }
    }
}

/// Idempotence of identity: the contract of the report builder pins both
/// whether a run succeeds and, when it does, the exact text to the walked
/// commits and the current-id set alone — so two runs over the same
/// repository state return the same result, byte for byte.
pub proof fn lemma_report_deterministic(
    commits: Seq<CommitRecord>,
    current: Set<Seq<char>>,
    r1: Option<Seq<char>>,
    r2: Option<Seq<char>>,
)
    requires
        r1 is Some <==> (forall|k: int|
            0 <= k < report_sections(commits, current).len() ==> time_in_range(
                (#[trigger] report_sections(commits, current)[k]).seconds,
                report_sections(commits, current)[k].offset_minutes,
            )),
        r1 matches Some(s) ==> s == report_str(commits, current),
        r2 is Some <==> (forall|k: int|
            0 <= k < report_sections(commits, current).len() ==> time_in_range(
                (#[trigger] report_sections(commits, current)[k]).seconds,
                report_sections(commits, current)[k].offset_minutes,
            )),
        r2 matches Some(s) ==> s == report_str(commits, current),
    ensures
        r1 == r2,
{
}

/// A delta whose path is untracked never yields an identifier.
pub proof fn lemma_untracked_no_ids(deltas: Seq<DeltaRecord>, st: DeltaStatus)
    requires
        forall|d: int| 0 <= d < deltas.len() ==> !is_tracked((#[trigger] deltas[d]).path@),
    ensures
        raw_ids(deltas, st) == Seq::<Seq<char>>::empty(),
    decreases deltas.len(),
{
    if deltas.len() > 0 {
        assert(!is_tracked(deltas[0].path@));
        assert(video_id(deltas.first().path@) is None);
        assert forall|d: int|
            0 <= d < deltas.drop_first().len() implies !is_tracked(
            (#[trigger] deltas.drop_first()[d]).path@,
        ) by {
            assert(deltas.drop_first()[d] == deltas[d + 1]);
        }
        lemma_untracked_no_ids(deltas.drop_first(), st);
    }
}

/// Path-prefix filtering: a commit all of whose deltas lie outside the
/// tracked directory contributes no section; the walk yields exactly the
/// sections of the history without it.
pub proof fn lemma_outside_commit_skipped(
    commits: Seq<CommitRecord>,
    k: int,
    already: Set<Seq<char>>,
    current: Set<Seq<char>>,
)
    requires
        0 <= k < commits.len(),
        forall|d: int|
            0 <= d < commits[k].deltas@.len() ==> !is_tracked(
                (#[trigger] commits[k].deltas@[d]).path@,
            ),
    ensures
        sections_from(commits, already, current) == sections_from(
            commits.remove(k),
            already,
            current,
        ),
    decreases commits.len(),
{
    let c = commits.first();
    let rest = commits.drop_first();
    if k == 0 {
        assert(commits.remove(0) =~= rest);
        if c.has_parent {
            lemma_untracked_no_ids(commits[0].deltas@, DeltaStatus::Added);
            lemma_untracked_no_ids(commits[0].deltas@, DeltaStatus::Deleted);
            let none = Seq::<Seq<char>>::empty();
            assert(filter_adds(none, already) == Seq::<Seq<char>>::empty());
            assert(set_after_adds(none, already) == already);
            assert(filter_dels(none, current) == Seq::<Seq<char>>::empty());
            assert(sections_from(commits, already, current) == sections_from(
                rest,
                already,
                current,
            ));
        }
    } else {
        let commits2 = commits.remove(k);
        assert(commits2.first() == c);
        assert(commits2.drop_first() =~= rest.remove(k - 1));
        assert forall|d: int|
            0 <= d < rest[k - 1].deltas@.len() implies !is_tracked(
            (#[trigger] rest[k - 1].deltas@[d]).path@,
        ) by {
            assert(rest[k - 1] == commits[k]);
        }
        if !c.has_parent {
            lemma_outside_commit_skipped(rest, k - 1, already, current);
        } else {
            let rawa = raw_ids(c.deltas@, DeltaStatus::Added);
            let aset = set_after_adds(rawa, already);
            lemma_outside_commit_skipped(rest, k - 1, aset, current);
        }
    }
}

/// In a linear history in which every commit adds exactly one identifier not
/// seen before and deletes nothing, the report has one section per commit, in
/// commit order, each with exactly that one added entry and no removals.
pub proof fn lemma_one_section_per_commit(
    commits: Seq<CommitRecord>,
    already: Set<Seq<char>>,
    current: Set<Seq<char>>,
)
    requires
        forall|k: int| 0 <= k < commits.len() ==> (#[trigger] commits[k]).has_parent,
        forall|k: int|
            0 <= k < commits.len() ==> raw_ids(
                (#[trigger] commits[k]).deltas@,
                DeltaStatus::Added,
            ).len() == 1,
        forall|k: int|
            0 <= k < commits.len() ==> raw_ids(
                (#[trigger] commits[k]).deltas@,
                DeltaStatus::Deleted,
            ).len() == 0,
        forall|k: int|
            0 <= k < commits.len() ==> !already.contains(
                raw_ids((#[trigger] commits[k]).deltas@, DeltaStatus::Added)[0],
            ),
        forall|j: int, k: int|
            0 <= j < k < commits.len() ==> raw_ids(
                (#[trigger] commits[j]).deltas@,
                DeltaStatus::Added,
            )[0] != raw_ids((#[trigger] commits[k]).deltas@, DeltaStatus::Added)[0],
    ensures
        sections_from(commits, already, current).len() == commits.len(),
        forall|k: int|
            0 <= k < commits.len() ==> (#[trigger] sections_from(
                commits,
                already,
                current,
            )[k]).seconds == commits[k].seconds as int,
        forall|k: int|
            0 <= k < commits.len() ==> (#[trigger] sections_from(commits, already, current)[k]).added
                =~= seq![raw_ids(commits[k].deltas@, DeltaStatus::Added)[0]],
        forall|k: int|
            0 <= k < commits.len() ==> (#[trigger] sections_from(
                commits,
                already,
                current,
            )[k]).deleted.len() == 0,
    decreases commits.len(),
{
    if commits.len() > 0 {
        let c = commits.first();
        let rest = commits.drop_first();
        let rawa = raw_ids(c.deltas@, DeltaStatus::Added);
        let rawd = raw_ids(c.deltas@, DeltaStatus::Deleted);
        assert(c == commits[0]);
        let v = rawa[0];
        assert(rawa =~= seq![v]);
        assert(rawd =~= Seq::<Seq<char>>::empty());
        assert(!already.contains(v));
        assert(rawa.drop_first() =~= Seq::<Seq<char>>::empty());
        assert(filter_adds(Seq::<Seq<char>>::empty(), already.insert(v)) == Seq::<
            Seq<char>,
        >::empty());
        assert(set_after_adds(Seq::<Seq<char>>::empty(), already.insert(v)) == already.insert(v));
        assert(filter_adds(rawa, already) =~= seq![v]);
        assert(set_after_adds(rawa, already) == already.insert(v));
        assert(filter_dels(rawd, current) == Seq::<Seq<char>>::empty());
        assert forall|k: int|
            0 <= k < rest.len() implies (#[trigger] rest[k]).has_parent && raw_ids(
            rest[k].deltas@,
            DeltaStatus::Added,
        ).len() == 1 && raw_ids(rest[k].deltas@, DeltaStatus::Deleted).len() == 0
            && !already.insert(v).contains(raw_ids(rest[k].deltas@, DeltaStatus::Added)[0]) by {
            assert(rest[k] == commits[k + 1]);
            assert(raw_ids(commits[0].deltas@, DeltaStatus::Added)[0] != raw_ids(
                commits[k + 1].deltas@,
                DeltaStatus::Added,
            )[0]);
        }
        assert forall|j: int, k: int|
            0 <= j < k < rest.len() implies raw_ids((#[trigger] rest[j]).deltas@,
        DeltaStatus::Added)[0] != raw_ids((#[trigger] rest[k]).deltas@, DeltaStatus::Added)[0] by {
            assert(rest[j] == commits[j + 1]);
            assert(rest[k] == commits[k + 1]);
        }
        lemma_one_section_per_commit(rest, already.insert(v), current);
        let secs = sections_from(commits, already, current);
        let rsecs = sections_from(rest, already.insert(v), current);
        assert(secs.drop_first() =~= rsecs);
        assert(secs.len() == commits.len());
        assert forall|k: int|
            0 <= k < commits.len() implies (#[trigger] secs[k]).seconds == commits[k].seconds as int
                && secs[k].added =~= seq![raw_ids(commits[k].deltas@, DeltaStatus::Added)[0]]
                && secs[k].deleted.len() == 0 by {
            if k == 0 {
                assert(secs[0].added == filter_adds(rawa, already));
            } else {
                assert(secs[k] == secs.drop_first()[k - 1]);
                assert(rsecs[k - 1].added =~= seq![
                    raw_ids(rest[k - 1].deltas@, DeltaStatus::Added)[0],
                ]);
                assert(rest[k - 1] == commits[k]);
            }
        }
    }
}

/// Root-commit exclusion: a repository whose history is a single commit with
/// no parent yields a report that holds nothing but the title line.
pub proof fn lemma_root_commit_only(c: CommitRecord, current: Set<Seq<char>>)
    requires
        !c.has_parent,
    ensures
        sections_from(seq![c], Set::empty(), current) == Seq::<crate::events::SectionView>::empty(),
        report_str(seq![c], current) == "# songs-history\n"@,
{
    assert(seq![c].first() == c);
    assert(seq![c].drop_first() =~= Seq::<CommitRecord>::empty());
    assert(sections_from(Seq::<CommitRecord>::empty(), Set::empty(), current) == Seq::<
        crate::events::SectionView,
    >::empty());
    assert(sections_from(seq![c], Set::empty(), current) =~= Seq::<
        crate::events::SectionView,
    >::empty());
    assert(crate::render::sections_str(Seq::<crate::events::SectionView>::empty()) == Seq::<
        char,
    >::empty());
    assert("# songs-history\n"@ + Seq::<char>::empty() =~= "# songs-history\n"@);
}

/// Concatenating two summary streams unions their current-id sets.
pub proof fn lemma_summary_ids_union(d1: Seq<char>, d2: Seq<char>, d3: Seq<char>)
    requires
        summary_items(d3) == summary_items(d1) + summary_items(d2),
    ensures
        summary_ids(d3) == summary_ids(d1).union(summary_ids(d2)),
{
    let i1 = summary_items(d1);
    let i2 = summary_items(d2);
    let i3 = summary_items(d3);
    assert forall|s: Seq<char>|
        summary_ids(d3).contains(s) <==> summary_ids(d1).union(summary_ids(d2)).contains(s) by {
        if summary_has_id(i3, s) {
            let (p, q) = choose|p: int, q: int| id_at(i3, p, q, s);
            if p < i1.len() {
                assert(i3[p] == i1[p]);
                assert(id_at(i1, p, q, s));
            } else {
                assert(i3[p] == i2[p - i1.len()]);
                assert(id_at(i2, p - i1.len(), q, s));
            }
        }
        if summary_has_id(i1, s) {
            let (p, q) = choose|p: int, q: int| id_at(i1, p, q, s);
            assert(i3[p] == i1[p]);
            assert(id_at(i3, p, q, s));
        }
        if summary_has_id(i2, s) {
            let (p, q) = choose|p: int, q: int| id_at(i2, p, q, s);
            assert(i3[p + i1.len()] == i2[p]);
            assert(id_at(i3, p + i1.len(), q, s));
        }
    }
    assert(summary_ids(d3) =~= summary_ids(d1).union(summary_ids(d2)));
}

/// A document whose stream holds no value yields the empty current-id set.
pub proof fn lemma_summary_ids_empty(d: Seq<char>)
    requires
        summary_items(d).len() == 0,
    ensures
        summary_ids(d) == Set::<Seq<char>>::empty(),
{
    assert forall|s: Seq<char>| !summary_ids(d).contains(s) by {
        if summary_has_id(summary_items(d), s) {
            let (p, q) = choose|p: int, q: int| id_at(summary_items(d), p, q, s);
            assert(0 <= p < summary_items(d).len());
        }
    }
    assert(summary_ids(d) =~= Set::<Seq<char>>::empty());
}

/// Repetition insensitivity: one more well-formed value whose identifiers all
/// occur elsewhere in the stream leaves the current-id set unchanged.
pub proof fn lemma_summary_ids_duplicate(
    d1: Seq<char>,
    d2: Seq<char>,
    extra: Option<Seq<Option<Seq<char>>>>,
)
    requires
        summary_items(d2) == summary_items(d1).push(extra),
        forall|j: int|
            extra is Some && 0 <= j < extra.unwrap().len() && (#[trigger] extra.unwrap()[j]) is Some
                ==> summary_ids(d1).contains(extra.unwrap()[j].unwrap()),
    ensures
        summary_ids(d2) == summary_ids(d1),
{
    let i1 = summary_items(d1);
    let i2 = summary_items(d2);
    assert forall|s: Seq<char>| summary_ids(d2).contains(s) <==> summary_ids(d1).contains(s) by {
        if summary_has_id(i2, s) {
            let (p, q) = choose|p: int, q: int| id_at(i2, p, q, s);
            if p < i1.len() {
                assert(i2[p] == i1[p]);
                assert(id_at(i1, p, q, s));
            } else {
                assert(p == i1.len());
                assert(i2[p] == extra);
                assert((extra.unwrap()[q]) is Some);
                assert(summary_ids(d1).contains(extra.unwrap()[q].unwrap()));
                assert(extra.unwrap()[q].unwrap() == s);
            }
        }
        if summary_has_id(i1, s) {
            let (p, q) = choose|p: int, q: int| id_at(i1, p, q, s);
            assert(i2[p] == i1[p]);
            assert(id_at(i2, p, q, s));
        }
    }
    assert(summary_ids(d2) =~= summary_ids(d1));
}

} // verus!
