use vstd::prelude::*;

use crate::events::CommitRecord;
use crate::events::DeltaStatus;
use crate::events::SectionView;
use crate::events::filter_added;
use crate::events::filter_deleted;
use crate::events::raw_ids_of;
use crate::events::report_sections;
use crate::events::sections_from;
use crate::ids::IdSet;

verus! {

/// The character of a single decimal digit.
pub open spec fn digit_char(d: int) -> char {
    if d == 0 {
        '0'
    } else if d == 1 {
        '1'
    } else if d == 2 {
        '2'
    } else if d == 3 {
        '3'
    } else if d == 4 {
        '4'
    } else if d == 5 {
        '5'
    } else if d == 6 {
        '6'
    } else if d == 7 {
        '7'
    } else if d == 8 {
        '8'
    } else {
        '9'
    }
}

/// The decimal rendering of a non-negative integer, most significant digit
/// first.
pub open spec fn dec_str(n: int) -> Seq<char>
    decreases n,
{
    if n < 10 {
        seq![digit_char(n)]
    } else {
        dec_str(n / 10).push(digit_char(n % 10))
    }
}

/// The decimal rendering padded on the left to at least two digits.
pub open spec fn dec2_str(n: int) -> Seq<char> {
    if n < 10 {
        seq!['0'] + dec_str(n)
    } else {
        dec_str(n)
    }
}

fn append_digit(s: &mut String, d: u64)
    requires
        d < 10,
    ensures
        final(s)@ == old(s)@.push(digit_char(d as int)),
{
    if d == 0 {
        s.append("0");
        proof {
            reveal_strlit("0");
            assert(old(s)@ + "0"@ =~= old(s)@.push('0'));
        }
    } else if d == 1 {
        s.append("1");
        proof {
            reveal_strlit("1");
            assert(old(s)@ + "1"@ =~= old(s)@.push('1'));
        }
    } else if d == 2 {
        s.append("2");
        proof {
            reveal_strlit("2");
            assert(old(s)@ + "2"@ =~= old(s)@.push('2'));
        }
    } else if d == 3 {
        s.append("3");
        proof {
            reveal_strlit("3");
            assert(old(s)@ + "3"@ =~= old(s)@.push('3'));
        }
    } else if d == 4 {
        s.append("4");
        proof {
            reveal_strlit("4");
            assert(old(s)@ + "4"@ =~= old(s)@.push('4'));
        }
    } else if d == 5 {
        s.append("5");
        proof {
            reveal_strlit("5");
            assert(old(s)@ + "5"@ =~= old(s)@.push('5'));
        }
    } else if d == 6 {
        s.append("6");
        proof {
            reveal_strlit("6");
            assert(old(s)@ + "6"@ =~= old(s)@.push('6'));
        }
    } else if d == 7 {
        s.append("7");
        proof {
            reveal_strlit("7");
            assert(old(s)@ + "7"@ =~= old(s)@.push('7'));
        }
    } else if d == 8 {
        s.append("8");
        proof {
            reveal_strlit("8");
            assert(old(s)@ + "8"@ =~= old(s)@.push('8'));
        }
    } else {
        s.append("9");
        proof {
            reveal_strlit("9");
            assert(old(s)@ + "9"@ =~= old(s)@.push('9'));
        }
    }
}

/// Renders a number in decimal.
pub fn u64_dec(n: u64) -> (r: String)
    ensures
        r@ == dec_str(n as int),
    decreases n,
{
    if n < 10 {
        let mut s = String::new();
        append_digit(&mut s, n);
        proof {
            assert(s@ =~= seq![digit_char(n as int)]);
        }
        s
    } else {
        let mut s = u64_dec(n / 10);
        append_digit(&mut s, n % 10);
        s
    }
}

/// Renders a number in decimal, padded to at least two digits.
pub fn u64_dec2(n: u64) -> (r: String)
    ensures
        r@ == dec2_str(n as int),
{
    if n < 10 {
        let mut s = String::from_str("0");
        append_digit(&mut s, n);
        proof {
            reveal_strlit("0");
            assert("0"@.push(digit_char(n as int)) =~= seq!['0'] + dec_str(n as int));
        }
        s
    } else {
        u64_dec(n)
    }
}

/// The earliest timestamp the calendar backend represents:
/// -9999-01-01 00:00:00 UTC.
pub const CAL_MIN_SECS: i64 = -377705116800;

/// The latest timestamp the calendar backend represents:
/// 9999-12-31 23:59:59 UTC.
pub const CAL_MAX_SECS: i64 = 253402300799;

/// What the calendar formatter of the time backend prints for a timestamp:
/// short weekday, short month, space-padded day, 24-hour time, year.
pub uninterp spec fn calendar_str(secs: int) -> Seq<char>;

/// Relies on time's `OffsetDateTime::from_unix_timestamp`,
/// `format_description::parse` and `OffsetDateTime::format`: the rendered
/// calendar text depends on the timestamp alone. The first call succeeds
/// exactly on the backend's representable range (`CAL_MIN_SECS` to
/// `CAL_MAX_SECS`); parsing the fixed description and rendering it into a
/// string cannot fail.
#[verifier::external_body]
fn calendar_of(secs: i64) -> (r: Option<String>)
    ensures
        r is Some <==> CAL_MIN_SECS <= secs <= CAL_MAX_SECS,
        r matches Some(s) ==> s@ == calendar_str(secs as int),
{
    let dt = match time::OffsetDateTime::from_unix_timestamp(secs) {
        Ok(d) => d,
        Err(_) => return None,
    };
    let items = match time::format_description::parse(
        "[weekday repr:short] [month repr:short] [day padding:space] [hour]:[minute]:[second] [year]",
    ) {
        Ok(f) => f,
        Err(_) => return None,
    };
    match dt.format(&items) {
        Ok(s) => Some(s),
        Err(_) => None,
    }
}

/// The `±HHMM` rendering of a UTC offset given in minutes.
pub open spec fn offset_suffix(off: int) -> Seq<char> {
    if off < 0 {
        seq!['-'] + dec2_str(-off / 60) + dec2_str(-off % 60)
    } else {
        seq!['+'] + dec2_str(off / 60) + dec2_str(off % 60)
    }
}

/// A commit timestamp as the report shows it: the committer's wall-clock
/// calendar text followed by the UTC offset.
pub open spec fn time_str(secs: int, off: int) -> Seq<char> {
    calendar_str(secs + off * 60) + seq![' '] + offset_suffix(off)
}

/// Whether the wall-clock instant of a timestamp shifted by its offset lies
/// in the calendar backend's representable range.
pub open spec fn time_in_range(secs: int, off: int) -> bool {
    CAL_MIN_SECS <= secs + off * 60 <= CAL_MAX_SECS
}

/// Formats a commit timestamp: succeeds exactly when the shifted instant is
/// representable, and then returns its `time_str` rendering.
pub fn format_time(seconds: i64, offset_minutes: i32) -> (r: Option<String>)
    ensures
        r is Some <==> time_in_range(seconds as int, offset_minutes as int),
        r matches Some(s) ==> s@ == time_str(seconds as int, offset_minutes as int),
{
    let off64: i64 = offset_minutes as i64;
    let shift: i64 = match seconds.checked_add(off64 * 60) {
        Some(v) => v,
        None => {
            return None;
        },
    };
    let cal = match calendar_of(shift) {
        Some(c) => c,
        None => {
            return None;
        },
    };
    let mut out = cal;
    out.append(" ");
    let sign: &str = if off64 < 0 {
        "-"
    } else {
        "+"
    };
    let abs: i64 = if off64 < 0 {
        -off64
    } else {
        off64
    };
    out.append(sign);
    let h = u64_dec2((abs / 60) as u64);
    out.append(h.as_str());
    let m = u64_dec2((abs % 60) as u64);
    out.append(m.as_str());
    proof {
        reveal_strlit(" ");
        reveal_strlit("+");
        reveal_strlit("-");
        assert(out@ =~= time_str(seconds as int, offset_minutes as int));
    }
    Some(out)
}

/// An identifier rendered as a markdown link to its video page.
pub open spec fn video_line(v: Seq<char>) -> Seq<char> {
    "["@ + v + "](https://youtu.be/"@ + v + ")"@
}

/// Renders an identifier as a markdown link to its video page.
pub fn format_video(video: &str) -> (r: String)
    ensures
        r@ == video_line(video@),
{
    let mut r: String = String::from_str("[");
    r.append(video);
    r.append("](https://youtu.be/");
    r.append(video);
    r.append(")");
    r
}

/// One event line per identifier: the action word, the link, two trailing
/// spaces and a newline.
pub open spec fn event_lines(word: Seq<char>, vs: Seq<Seq<char>>) -> Seq<char>
    decreases vs.len(),
{
    if vs.len() == 0 {
        Seq::empty()
    } else {
        word + video_line(vs.first()) + "  \n"@ + event_lines(word, vs.drop_first())
    }
}

fn push_event_lines(out: &mut String, word: &str, vs: &Vec<String>)
    ensures
        final(out)@ == old(out)@ + event_lines(word@, vs.deep_view()),
{
    let n = vs.len();
    let mut i: usize = 0;
    proof {
        assert(vs.deep_view().skip(0) =~= vs.deep_view());
    }
    while i < n
        invariant
            n == vs@.len(),
            i <= n,
            old(out)@ + event_lines(word@, vs.deep_view()) == out@ + event_lines(
                word@,
                vs.deep_view().skip(i as int),
            ),
        decreases n - i,
    {
        let ghost pre = out@;
        let ghost tail = vs.deep_view().skip(i as int);
        proof {
            assert(tail.first() == vs.deep_view()[i as int]);
            assert(vs.deep_view()[i as int] == vs@[i as int]@);
            assert(tail.drop_first() =~= vs.deep_view().skip(i + 1));
        }
        out.append(word);
        let link = format_video(vs[i].as_str());
        out.append(link.as_str());
        out.append("  \n");
        i += 1;
        proof {
            assert(out@ + event_lines(word@, vs.deep_view().skip(i as int)) =~= pre + event_lines(
                word@,
                tail,
            ));
        }
    }
    proof {
        assert(event_lines(word@, vs.deep_view().skip(n as int)) =~= Seq::<char>::empty());
        assert(out@ + Seq::<char>::empty() =~= out@);
    }
}

/// One report section: a header with the commit's timestamp, then the added
/// lines, then the removed lines.
pub open spec fn section_str(sec: SectionView) -> Seq<char> {
    "## "@ + time_str(sec.seconds, sec.offset_minutes) + "\n"@ + event_lines("Added "@, sec.added)
        + event_lines("Removed "@, sec.deleted)
}

/// The concatenation of all sections, in walk order.
pub open spec fn sections_str(secs: Seq<SectionView>) -> Seq<char>
    decreases secs.len(),
{
    if secs.len() == 0 {
        Seq::empty()
    } else {
        section_str(secs.first()) + sections_str(secs.drop_first())
    }
}

/// The whole report: the title line, then every section.
pub open spec fn report_str(commits: Seq<CommitRecord>, current: Set<Seq<char>>) -> Seq<char> {
    "# songs-history\n"@ + sections_str(report_sections(commits, current))
}

fn push_section(
    out: &mut String,
    seconds: i64,
    offset_minutes: i32,
    added: &Vec<String>,
    deleted: &Vec<String>,
) -> (ok: bool)
    ensures
        ok <==> time_in_range(seconds as int, offset_minutes as int),
        ok ==> final(out)@ == old(out)@ + section_str(
            (SectionView {
                seconds: seconds as int,
                offset_minutes: offset_minutes as int,
                added: added.deep_view(),
                deleted: deleted.deep_view(),
            }),
        ),
        !ok ==> final(out)@ == old(out)@,
{
    let ts = match format_time(seconds, offset_minutes) {
        Some(t) => t,
        None => {
            return false;
        },
    };
    out.append("## ");
    out.append(ts.as_str());
    out.append("\n");
    push_event_lines(out, "Added ", added);
    push_event_lines(out, "Removed ", deleted);
    proof {
        assert(out@ =~= old(out)@ + section_str(
            (SectionView {
                seconds: seconds as int,
                offset_minutes: offset_minutes as int,
                added: added.deep_view(),
                deleted: deleted.deep_view(),
            }),
        ));
    }
    true
}

/// Builds the full report for the walked commits, oldest first, against the
/// identifiers active at head: succeeds exactly when every surviving
/// section's timestamp is representable, and then returns the report text
/// `report_str`, pinned to the input.
pub fn build_report(commits: &Vec<CommitRecord>, current: &IdSet) -> (r: Option<String>)
    ensures
        r matches Some(s) ==> s@ == report_str(commits@, current@),
        r is Some <==> (forall|k: int|
            0 <= k < report_sections(commits@, current@).len() ==> time_in_range(
                (#[trigger] report_sections(commits@, current@)[k]).seconds,
                report_sections(commits@, current@)[k].offset_minutes,
            )),
{
    let mut out = String::from_str("# songs-history\n");
    let mut already = IdSet::new();
    let ghost mut done: Seq<SectionView> = Seq::empty();
    let n = commits.len();
    let mut i: usize = 0;
    proof {
        assert(commits@.skip(0) =~= commits@);
        assert(done + report_sections(commits@, current@) =~= report_sections(
            commits@,
            current@,
        ));
    }
    while i < n
        invariant
            n == commits@.len(),
            i <= n,
            out@ + sections_str(sections_from(commits@.skip(i as int), already@, current@))
                == report_str(commits@, current@),
            report_sections(commits@, current@) == done + sections_from(
                commits@.skip(i as int),
                already@,
                current@,
            ),
            forall|k: int|
                0 <= k < done.len() ==> time_in_range(
                    (#[trigger] done[k]).seconds,
                    done[k].offset_minutes,
                ),
        decreases n - i,
    {
        let ghost pre = out@;
        let ghost preset = already@;
        let ghost tail = commits@.skip(i as int);
        proof {
            assert(tail.first() == commits@[i as int]);
            assert(tail.drop_first() =~= commits@.skip(i + 1));
        }
        let c = &commits[i];
        if c.has_parent {
            let rawa = raw_ids_of(&c.deltas, DeltaStatus::Added);
            let rawd = raw_ids_of(&c.deltas, DeltaStatus::Deleted);
            let added = filter_added(&rawa, &mut already);
            let deleted = filter_deleted(&rawd, current);
            if added.len() > 0 || deleted.len() > 0 {
                let ghost sec = SectionView {
                    seconds: c.seconds as int,
                    offset_minutes: c.offset_minutes as int,
                    added: added.deep_view(),
                    deleted: deleted.deep_view(),
                };
                let ok = push_section(&mut out, c.seconds, c.offset_minutes, &added, &deleted);
                if !ok {
                    proof {
                        let rest = sections_from(tail.drop_first(), already@, current@);
                        assert(sections_from(tail, preset, current@) =~= seq![sec] + rest);
                        let all = report_sections(commits@, current@);
                        assert(all == done + (seq![sec] + rest));
                        assert(all[done.len() as int] == sec);
                        assert(!time_in_range(sec.seconds, sec.offset_minutes));
                    }
                    return None;
                }
                proof {
                    let rest = sections_from(tail.drop_first(), already@, current@);
                    assert(sections_from(tail, preset, current@) =~= seq![sec] + rest);
                    assert(sections_str(seq![sec] + rest) =~= section_str(sec) + sections_str(
                        rest,
                    )) by {
                        assert((seq![sec] + rest).first() == sec);
                        assert((seq![sec] + rest).drop_first() =~= rest);
                    }
                    assert(out@ + sections_str(rest) =~= pre + sections_str(
                        sections_from(tail, preset, current@),
                    ));
                    let predone = done;
                    done = done.push(sec);
                    assert(time_in_range(sec.seconds, sec.offset_minutes));
                    assert(report_sections(commits@, current@) == predone + (seq![sec] + rest));
                    assert(predone + (seq![sec] + rest) =~= done + rest);
                    assert forall|k: int|
                        0 <= k < done.len() implies time_in_range(
                        (#[trigger] done[k]).seconds,
                        done[k].offset_minutes,
                    ) by {
                        if k < predone.len() {
                            assert(done[k] == predone[k]);
                        } else {
                            assert(done[k] == sec);
                        }
                    }
                }
            } else {
                proof {
                    assert(sections_from(tail, preset, current@) == sections_from(
                        tail.drop_first(),
                        already@,
                        current@,
                    ));
                }
            }
        }
        i += 1;
    }
    proof {
        assert(commits@.skip(n as int) =~= Seq::<CommitRecord>::empty());
        assert(out@ + Seq::<char>::empty() =~= out@);
        assert(done + Seq::<SectionView>::empty() =~= done);
        assert(report_sections(commits@, current@) == done);
        assert forall|k: int|
            0 <= k < report_sections(commits@, current@).len() implies time_in_range(
            (#[trigger] report_sections(commits@, current@)[k]).seconds,
            report_sections(commits@, current@)[k].offset_minutes,
        ) by {
            assert(report_sections(commits@, current@)[k] == done[k]);
        }
    }
    Some(out)
}

} // verus!
