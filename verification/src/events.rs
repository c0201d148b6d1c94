use vstd::prelude::*;

use crate::ids::IdSet;
use crate::paths::video_id;
use crate::paths::video_id_of_path;

verus! {

/// How a tree-to-tree delta reports one changed entry. Every status the
/// backend may report beyond an addition or a deletion is `Other`.
#[derive(Clone, Copy, PartialEq, Eq, Structural, Debug)]
pub enum DeltaStatus {
    Added,
    Deleted,
    Other,
}

/// One file-level change between two tree snapshots.
pub struct DeltaRecord {
    pub status: DeltaStatus,
    pub path: String,
}

/// One commit as the walk hands it over: its timestamp, whether it has a
/// first parent, and the deltas against that parent (empty when it has none).
pub struct CommitRecord {
    pub seconds: i64,
    pub offset_minutes: i32,
    pub has_parent: bool,
    pub deltas: Vec<DeltaRecord>,
}

/// The identifiers of the deltas with the given status whose path is tracked,
/// in delta order.
pub open spec fn raw_ids(deltas: Seq<DeltaRecord>, st: DeltaStatus) -> Seq<Seq<char>>
    decreases deltas.len(),
{
    if deltas.len() == 0 {
        Seq::empty()
    } else {
        let d = deltas.first();
        let rest = raw_ids(deltas.drop_first(), st);
        if d.status == st && video_id(d.path@) is Some {
            seq![video_id(d.path@).unwrap()] + rest
        } else {
            rest
        }
    }
}

/// Added events that survive deduplication: an identifier already reported is
/// dropped, a fresh one is kept and remembered.
pub open spec fn filter_adds(raw: Seq<Seq<char>>, already: Set<Seq<char>>) -> Seq<Seq<char>>
    decreases raw.len(),
{
    if raw.len() == 0 {
        Seq::empty()
    } else if already.contains(raw.first()) {
        filter_adds(raw.drop_first(), already)
    } else {
        seq![raw.first()] + filter_adds(raw.drop_first(), already.insert(raw.first()))
    }
}

/// The already-added set after a run of added events has been folded in.
pub open spec fn set_after_adds(raw: Seq<Seq<char>>, already: Set<Seq<char>>) -> Set<Seq<char>>
    decreases raw.len(),
{
    if raw.len() == 0 {
        already
    } else {
        set_after_adds(raw.drop_first(), already.insert(raw.first()))
    }
}

/// Deleted events that survive: an identifier still active at head is dropped.
pub open spec fn filter_dels(raw: Seq<Seq<char>>, current: Set<Seq<char>>) -> Seq<Seq<char>>
    decreases raw.len(),
{
    if raw.len() == 0 {
        Seq::empty()
    } else if current.contains(raw.first()) {
        filter_dels(raw.drop_first(), current)
    } else {
        seq![raw.first()] + filter_dels(raw.drop_first(), current)
    }
}

/// One report section: a commit's timestamp and its surviving events.
pub struct SectionView {
    pub seconds: int,
    pub offset_minutes: int,
    pub added: Seq<Seq<char>>,
    pub deleted: Seq<Seq<char>>,
}

/// The sections the walk yields from `commits` onward, given the already-added
/// set accumulated so far: root commits are skipped, and a commit with no
/// surviving event contributes nothing.
pub open spec fn sections_from(
    commits: Seq<CommitRecord>,
    already: Set<Seq<char>>,
    current: Set<Seq<char>>,
) -> Seq<SectionView>
    decreases commits.len(),
{
    if commits.len() == 0 {
        Seq::empty()
    } else {
        let c = commits.first();
        if !c.has_parent {
            sections_from(commits.drop_first(), already, current)
        } else {
            let rawa = raw_ids(c.deltas@, DeltaStatus::Added);
            let a = filter_adds(rawa, already);
            let d = filter_dels(raw_ids(c.deltas@, DeltaStatus::Deleted), current);
            let rest = sections_from(commits.drop_first(), set_after_adds(rawa, already), current);
            if a.len() + d.len() == 0 {
                rest
            } else {
                seq![
                    (SectionView {
                        seconds: c.seconds as int,
                        offset_minutes: c.offset_minutes as int,
                        added: a,
                        deleted: d,
                    }),
                ] + rest
            }
        }
    }
}

/// The sections of a whole run, which starts with nothing reported yet.
pub open spec fn report_sections(commits: Seq<CommitRecord>, current: Set<Seq<char>>) -> Seq<
    SectionView,
> {
    sections_from(commits, Set::empty(), current)
}

/// Collects the identifiers of the deltas with the given status, tracked
/// paths only, in delta order.
pub fn raw_ids_of(deltas: &Vec<DeltaRecord>, st: DeltaStatus) -> (r: Vec<String>)
    ensures
        r.deep_view() == raw_ids(deltas@, st),
{
    let n = deltas.len();
    let mut r: Vec<String> = Vec::new();
    let mut i: usize = 0;
    proof {
        assert(deltas@.skip(0) =~= deltas@);
        assert(r.deep_view() =~= Seq::<Seq<char>>::empty());
    }
    while i < n
        invariant
            n == deltas@.len(),
            i <= n,
            raw_ids(deltas@, st) == r.deep_view() + raw_ids(deltas@.skip(i as int), st),
        decreases n - i,
    {
        let ghost pre = r.deep_view();
        let d = &deltas[i];
        if d.status == st {
            match video_id_of_path(d.path.as_str()) {
                Some(v) => {
                    proof {
                        assert(video_id(d.path@) == Some(v@));
                    }
                    r.push(v);
                },
                None => {
                },
            }
        }
        i += 1;
        proof {
            let tail = deltas@.skip(i - 1);
            assert(tail.first() == deltas@[i - 1]);
            assert(tail.drop_first() =~= deltas@.skip(i as int));
            assert(r.deep_view() + raw_ids(deltas@.skip(i as int), st) =~= pre + raw_ids(
                tail,
                st,
            ));
        }
    }
    proof {
        assert(deltas@.skip(n as int) =~= Seq::<DeltaRecord>::empty());
        assert(r.deep_view() =~= raw_ids(deltas@, st));
    }
    r
}

/// Keeps the added identifiers not yet reported, remembering every identifier
/// that went past, in order.
pub fn filter_added(raw: &Vec<String>, already: &mut IdSet) -> (kept: Vec<String>)
    ensures
        kept.deep_view() == filter_adds(raw.deep_view(), old(already)@),
        final(already)@ == set_after_adds(raw.deep_view(), old(already)@),
{
    let n = raw.len();
    let mut kept: Vec<String> = Vec::new();
    let mut i: usize = 0;
    proof {
        assert(raw.deep_view().skip(0) =~= raw.deep_view());
        assert(kept.deep_view() =~= Seq::<Seq<char>>::empty());
    }
    while i < n
        invariant
            n == raw@.len(),
            i <= n,
            filter_adds(raw.deep_view(), old(already)@) == kept.deep_view() + filter_adds(
                raw.deep_view().skip(i as int),
                already@,
            ),
            set_after_adds(raw.deep_view(), old(already)@) == set_after_adds(
                raw.deep_view().skip(i as int),
                already@,
            ),
        decreases n - i,
    {
        let ghost pre = kept.deep_view();
        let ghost preset = already@;
        let ghost tail = raw.deep_view().skip(i as int);
        proof {
            assert(tail.first() == raw.deep_view()[i as int]);
            assert(raw.deep_view()[i as int] == raw@[i as int]@);
            assert(tail.drop_first() =~= raw.deep_view().skip(i + 1));
        }
        let v = &raw[i];
        if already.contains(v.as_str()) {
            proof {
                assert(preset.insert(v@) =~= preset);
            }
        } else {
            already.insert(v.as_str());
            kept.push(v.clone());
            proof {
                assert(kept.deep_view() =~= pre.push(v@));
                assert(pre.push(v@) + filter_adds(tail.drop_first(), preset.insert(v@)) =~= pre + (
                seq![v@] + filter_adds(tail.drop_first(), preset.insert(v@))));
            }
        }
        i += 1;
    }
    proof {
        assert(raw.deep_view().skip(n as int) =~= Seq::<Seq<char>>::empty());
        assert(kept.deep_view() + Seq::<Seq<char>>::empty() =~= kept.deep_view());
    }
    kept
}

/// Keeps the deleted identifiers that are no longer active at head, in order.
pub fn filter_deleted(raw: &Vec<String>, current: &IdSet) -> (kept: Vec<String>)
    ensures
        kept.deep_view() == filter_dels(raw.deep_view(), current@),
{
    let n = raw.len();
    let mut kept: Vec<String> = Vec::new();
    let mut i: usize = 0;
    proof {
        assert(raw.deep_view().skip(0) =~= raw.deep_view());
        assert(kept.deep_view() =~= Seq::<Seq<char>>::empty());
    }
    while i < n
        invariant
            n == raw@.len(),
            i <= n,
            filter_dels(raw.deep_view(), current@) == kept.deep_view() + filter_dels(
                raw.deep_view().skip(i as int),
                current@,
            ),
        decreases n - i,
    {
        let ghost pre = kept.deep_view();
        let ghost tail = raw.deep_view().skip(i as int);
        proof {
            assert(tail.first() == raw.deep_view()[i as int]);
            assert(raw.deep_view()[i as int] == raw@[i as int]@);
            assert(tail.drop_first() =~= raw.deep_view().skip(i + 1));
        }
        let v = &raw[i];
        if !current.contains(v.as_str()) {
            kept.push(v.clone());
            proof {
                assert(kept.deep_view() =~= pre.push(v@));
                assert(pre.push(v@) + filter_dels(tail.drop_first(), current@) =~= pre + (seq![v@]
                    + filter_dels(tail.drop_first(), current@)));
            }
        }
        i += 1;
    }
    proof {
        assert(raw.deep_view().skip(n as int) =~= Seq::<Seq<char>>::empty());
        assert(kept.deep_view() + Seq::<Seq<char>>::empty() =~= kept.deep_view());
    }
    kept
}

} // verus!
