use vstd::prelude::*;

use crate::ids::IdSet;

verus! {

/// What the JSON backend reads from the summary document: one entry per
/// well-formed value of the stream, up to the first malformed one, in order.
/// An entry is `None` when the value has no "items" array; otherwise it lists
/// the elements' "id" fields — the text of a string "id", `None` for an
/// element without one.
pub uninterp spec fn summary_items(doc: Seq<char>) -> Seq<Option<Seq<Option<Seq<char>>>>>;

/// Relies on serde_json's `Deserializer::from_str`, its stream iterator
/// (which ends at the first malformed value), and `Value::get`,
/// `Value::as_array`, `Value::as_str`: reads each parsed value's "items" ids,
/// a function of the document text alone; an empty document holds no value.
#[verifier::external_body]
fn parse_summary(doc: &str) -> (r: Vec<Option<Vec<Option<String>>>>)
    ensures
        r.deep_view() == summary_items(doc@),
        doc@.len() == 0 ==> r@.len() == 0,
{
    serde_json::Deserializer::from_str(doc).into_iter::<serde_json::Value>().filter_map(
        |v| v.ok(),
    ).map(
        |v|
            v.get("items").and_then(|items| items.as_array()).map(
                |arr|
                    arr.iter().map(
                        |e| e.get("id").and_then(|id| id.as_str()).map(|s| s.to_owned()),
                    ).collect(),
            ),
    ).collect()
}

/// Whether the read summary content lists `s`: some value's "items" has an
/// element whose "id" is the string `s`, at position (i, j).
pub open spec fn id_at(
    items: Seq<Option<Seq<Option<Seq<char>>>>>,
    i: int,
    j: int,
    s: Seq<char>,
) -> bool {
    &&& 0 <= i < items.len()
    &&& items[i] is Some
    &&& 0 <= j < items[i].unwrap().len()
    &&& items[i].unwrap()[j] == Some(s)
}

/// Whether the read summary content lists `s` anywhere.
pub open spec fn summary_has_id(items: Seq<Option<Seq<Option<Seq<char>>>>>, s: Seq<char>) -> bool {
    exists|i: int, j: int| id_at(items, i, j, s)
}

/// The set of identifiers the summary document lists as active.
pub open spec fn summary_ids(doc: Seq<char>) -> Set<Seq<char>> {
    Set::new(|s: Seq<char>| summary_has_id(summary_items(doc), s))
}

/// Collects every identifier of the read summary content: each string "id" of
/// each value's "items" elements. Values without an "items" array and
/// elements without a string "id" contribute nothing.
pub fn collect_ids(values: &Vec<Option<Vec<Option<String>>>>) -> (r: IdSet)
    ensures
        forall|s: Seq<char>| r@.contains(s) <==> summary_has_id(values.deep_view(), s),
{
    let ghost dv = values.deep_view();
    let mut ids = IdSet::new();
    let n = values.len();
    let mut i: usize = 0;
    while i < n
        invariant
            dv == values.deep_view(),
            n == values@.len(),
            i <= n,
            forall|s: Seq<char>|
                ids@.contains(s) <==> exists|p: int, q: int| id_at(dv, p, q, s) && p < i,
        decreases n - i,
    {
        proof {
            assert(dv[i as int] == values@[i as int].deep_view());
        }
        if let Some(arr) = &values[i] {
            let ghost adv = arr.deep_view();
            proof {
                assert(dv[i as int] == Some(adv));
            }
            let m = arr.len();
            let mut j: usize = 0;
            while j < m
                invariant
                    dv == values.deep_view(),
                    dv[i as int] == Some(adv),
                    0 <= i < dv.len(),
                    adv == arr.deep_view(),
                    m == arr@.len(),
                    j <= m,
                    forall|s: Seq<char>|
                        ids@.contains(s) <==> exists|p: int, q: int|
                            id_at(dv, p, q, s) && (p < i || (p == i && q < j)),
                decreases m - j,
            {
                proof {
                    assert(adv[j as int] == arr@[j as int].deep_view());
                }
                let ghost pre = ids@;
                if let Some(s) = &arr[j] {
                    ids.insert(s.as_str());
                    proof {
                        assert(adv[j as int] == Some(s@));
                        assert(id_at(dv, i as int, j as int, s@));
                        assert forall|x: Seq<char>|
                            ids@.contains(x) <==> exists|p: int, q: int|
                                id_at(dv, p, q, x) && (p < i || (p == i && q < j + 1)) by {
                            if ids@.contains(x) {
                                if pre.contains(x) {
                                    let (p, q) = choose|p: int, q: int|
                                        id_at(dv, p, q, x) && (p < i || (p == i && q < j));
                                    assert(id_at(dv, p, q, x) && (p < i || (p == i && q < j + 1)));
                                } else {
                                    assert(x == s@);
                                    assert(id_at(dv, i as int, j as int, x) && (i as int == i && j
                                        < j + 1));
                                }
                            }
                            if exists|p: int, q: int|
                                id_at(dv, p, q, x) && (p < i || (p == i && q < j + 1)) {
                                let (p, q) = choose|p: int, q: int|
                                    id_at(dv, p, q, x) && (p < i || (p == i && q < j + 1));
                                if p < i || (p == i && q < j) {
                                    assert(pre.contains(x));
                                } else {
                                    assert(p == i && q == j);
                                    assert(x == s@);
                                }
                            }
                        }
                    }
                } else {
                    proof {
                        assert(adv[j as int] is None);
                        assert forall|x: Seq<char>|
                            ids@.contains(x) <==> exists|p: int, q: int|
                                id_at(dv, p, q, x) && (p < i || (p == i && q < j + 1)) by {
                            if exists|p: int, q: int|
                                id_at(dv, p, q, x) && (p < i || (p == i && q < j + 1)) {
                                let (p, q) = choose|p: int, q: int|
                                    id_at(dv, p, q, x) && (p < i || (p == i && q < j + 1));
                                if !(p < i || (p == i && q < j)) {
                                    assert(p == i && q == j);
                                    assert(dv[p].unwrap()[q] is None);
                                }
                            }
                        }
                    }
                }
                j += 1;
            }
            proof {
                assert forall|x: Seq<char>|
                    ids@.contains(x) <==> exists|p: int, q: int|
                        id_at(dv, p, q, x) && p < i + 1 by {
                    if exists|p: int, q: int| id_at(dv, p, q, x) && p < i + 1 {
                        let (p, q) = choose|p: int, q: int| id_at(dv, p, q, x) && p < i + 1;
                        if p == i {
                            assert(q < adv.len());
                            assert(id_at(dv, p, q, x) && (p < i || (p == i && q < m)));
                        }
                    }
                }
            }
        } else {
            proof {
                assert(dv[i as int] is None);
                assert forall|x: Seq<char>|
                    ids@.contains(x) <==> exists|p: int, q: int|
                        id_at(dv, p, q, x) && p < i + 1 by {
                    if exists|p: int, q: int| id_at(dv, p, q, x) && p < i + 1 {
                        let (p, q) = choose|p: int, q: int| id_at(dv, p, q, x) && p < i + 1;
                        if p == i {
                            assert(dv[p] is None);
                        }
                    }
                }
            }
        }
        i += 1;
    }
    proof {
        assert forall|s: Seq<char>| ids@.contains(s) <==> summary_has_id(dv, s) by {
            if summary_has_id(dv, s) {
                let (p, q) = choose|p: int, q: int| id_at(dv, p, q, s);
                assert(id_at(dv, p, q, s) && p < n);
            }
        }
    }
    ids
}

/// Collects the identifiers the summary document lists as active: exactly the
/// set `summary_ids` of the document text. Malformed values, values without
/// an "items" array, and elements without a string "id" contribute nothing.
pub fn get_current_ids(doc: &str) -> (r: IdSet)
    ensures
        r@ == summary_ids(doc@),
{
    let values = parse_summary(doc);
    let r = collect_ids(&values);
    proof {
        assert forall|s: Seq<char>| r@.contains(s) <==> summary_ids(doc@).contains(s) by {}
        assert(r@ =~= summary_ids(doc@));
    }
    r
}

} // verus!
