use vstd::prelude::*;
use vstd::view::View as _;
use crate::report::Sample;
use crate::text::{find_first, find_last, first_index, last_index, lemma_first_index, lemma_last_index};
use crate::view::{title_of, View};

verus! {

/// `HH:MM` from `HH:MM:SS`: everything before the last `:`, or the whole
/// text when it has none.
pub open spec fn hour_minute_of(t: Seq<char>) -> Seq<char> {
    match last_index(t, ':') {
        Some(k) => t.take(k),
        None => t,
    }
}

/// `MM-DD` from `YYYY-MM-DD`: everything after the first `-` when that part
/// holds another `-`; otherwise the whole date.
pub open spec fn month_day_of(d: Seq<char>) -> Seq<char> {
    match first_index(d, '-') {
        Some(k) => if first_index(d.skip(k + 1), '-') is Some {
            d.skip(k + 1)
        } else {
            d
        },
        None => d,
    }
}

/// The date of the first sample, or `unknown date` when there is none.
pub open spec fn date_label_of(stats: Seq<Sample>) -> Seq<char> {
    if stats.len() > 0 {
        stats[0].timestamp.date@
    } else {
        "unknown date"@
    }
}

/// The axis label of sample `idx`: its `HH:MM`, prefixed by `MM-DD ` when its
/// date is not the first sample's date; empty when there is no such sample.
pub open spec fn time_label_of(stats: Seq<Sample>, idx: int) -> Seq<char> {
    if 0 <= idx < stats.len() {
        let ts = stats[idx].timestamp;
        let hm = hour_minute_of(ts.time@);
        if ts.date@ == date_label_of(stats) {
            hm
        } else {
            month_day_of(ts.date@) + " "@ + hm
        }
    } else {
        Seq::empty()
    }
}

/// The tab of screen `v` in the header: bracketed when it is the screen shown.
pub open spec fn tab_label_of(v: View, current: View) -> Seq<char> {
    if v == current {
        "["@ + title_of(v) + "]"@
    } else {
        " "@ + title_of(v) + " "@
    }
}

/// All tabs in tab order, separated by single spaces.
pub open spec fn tab_bar_of(current: View) -> Seq<char> {
    tab_label_of(View::Cpu, current) + " "@ + tab_label_of(View::Memory, current) + " "@
        + tab_label_of(View::Disk, current) + " "@ + tab_label_of(View::Network, current)
}

/// The part of a clock time that the axis shows.
pub fn hour_minute(t: &str) -> (r: &str)
    ensures
        r@ == hour_minute_of(t@),
{
    proof {
        lemma_last_index(t@, ':');
    }
    match find_last(t, ':') {
        Some(k) => t.substring_char(0, k),
        None => t,
    }
}

/// The part of a date that the axis shows once the day has changed: the
/// date split at its first two `-` and the month and day joined again.
pub fn month_day(d: &str) -> (r: String)
    ensures
        r@ == month_day_of(d@),
{
    let n = d.unicode_len();
    proof {
        lemma_first_index(d@, '-');
    }
    match find_first(d, '-') {
        Some(k) => {
            let rest = d.substring_char(k + 1, n);
            assert(rest@ =~= d@.skip(k + 1));
            match find_first(rest, '-') {
                Some(j) => {
                    proof {
                        lemma_first_index(rest@, '-');
                    }
                    let m = rest.substring_char(0, j);
                    let day = rest.substring_char(j + 1, rest.unicode_len());
                    let mut out = String::from_str(m);
                    out.append("-");
                    out.append(day);
                    proof {
                        reveal_strlit("-");
                    }
                    assert(out@ =~= rest@);
                    out
                },
                None => String::from_str(d),
            }
        },
        None => String::from_str(d),
    }
}

/// The label of a sample on the time axis.
pub fn time_label(stats: &Vec<Sample>, idx: usize) -> (r: String)
    ensures
        r@ == time_label_of(stats@, idx as int),
{
    if idx >= stats.len() {
        return String::new();
    }
    let ts = &stats[idx].timestamp;
    let hm = hour_minute(ts.time.as_str());
    if ts.date == stats[0].timestamp.date {
        String::from_str(hm)
    } else {
        let mut out = month_day(ts.date.as_str());
        out.append(" ");
        out.append(hm);
        out
    }
}

/// The time part of a label: with a `:` in the time, everything before the
/// last `:`; without one, the whole time.
pub proof fn lemma_hour_minute_law(t: Seq<char>)
    ensures
        (forall|j: int| 0 <= j < t.len() ==> t[j] != ':') ==> hour_minute_of(t) == t,
        forall|k: int|
            0 <= k < t.len() && #[trigger] t[k] == ':' && (forall|j: int| k < j < t.len() ==> t[j] != ':')
                ==> hour_minute_of(t) == t.take(k),
{
    lemma_last_index(t, ':');
}

/// The date part of a label: with two `-` in the date, everything after the
/// first `-`; otherwise the whole date.
pub proof fn lemma_month_day_law(d: Seq<char>)
    ensures
        forall|k: int, m: int|
            0 <= k < m < d.len() && #[trigger] d[k] == '-' && #[trigger] d[m] == '-' && (forall|j: int|
                0 <= j < k ==> d[j] != '-') ==> month_day_of(d) == d.skip(k + 1),
        (forall|k: int, m: int| 0 <= k < m < d.len() ==> !(d[k] == '-' && d[m] == '-'))
            ==> month_day_of(d) == d,
{
    lemma_first_index(d, '-');
    match first_index(d, '-') {
        Some(k) => {
            let rest = d.skip(k + 1);
            lemma_first_index(rest, '-');
            assert forall|k2: int, m: int|
                0 <= k2 < m < d.len() && #[trigger] d[k2] == '-' && #[trigger] d[m] == '-' && (forall|j: int|
                    0 <= j < k2 ==> d[j] != '-') implies month_day_of(d) == d.skip(k2 + 1) by {
                assert(k2 == k);
                assert(rest[m - k - 1] == '-');
            }
            if first_index(rest, '-') is Some {
                let m = first_index(rest, '-')->0;
                assert(d[k] == '-' && d[m + k + 1] == '-');
            }
        },
        None => {},
    }
}

/// The label of a sample compares its date with the first sample's date:
/// the same date gives the time part alone; any other date gives the date
/// part, a space and the time part. Samples outside the list get no label.
pub proof fn lemma_time_label_law(stats: Seq<Sample>, idx: int)
    ensures
        0 <= idx < stats.len() && stats[idx].timestamp.date@ == stats[0].timestamp.date@
            ==> time_label_of(stats, idx) == hour_minute_of(stats[idx].timestamp.time@),
        0 <= idx < stats.len() && stats[idx].timestamp.date@ != stats[0].timestamp.date@
            ==> time_label_of(stats, idx) == month_day_of(stats[idx].timestamp.date@) + " "@
            + hour_minute_of(stats[idx].timestamp.time@),
        !(0 <= idx < stats.len()) ==> time_label_of(stats, idx).len() == 0,
{
}

/// The date shown in the header is the first sample's date, or
/// `unknown date` when there are no samples.
pub proof fn lemma_date_label_law(stats: Seq<Sample>)
    ensures
        stats.len() > 0 ==> date_label_of(stats) == stats[0].timestamp.date@,
        stats.len() == 0 ==> date_label_of(stats) == "unknown date"@,
{
}

/// The header tab of screen `v`.
pub fn tab_label(v: View, current: View) -> (r: String)
    ensures
        r@ == tab_label_of(v, current),
{
    if v == current {
        let mut out = String::from_str("[");
        out.append(v.title());
        out.append("]");
        out
    } else {
        let mut out = String::from_str(" ");
        out.append(v.title());
        out.append(" ");
        out
    }
}

/// The header's tab bar.
pub fn tab_bar(current: View) -> (r: String)
    ensures
        r@ == tab_bar_of(current),
{
    let mut out = tab_label(View::Cpu, current);
    out.append(" ");
    out.append(tab_label(View::Memory, current).as_str());
    out.append(" ");
    out.append(tab_label(View::Disk, current).as_str());
    out.append(" ");
    out.append(tab_label(View::Network, current).as_str());
    out
}

} // verus!
