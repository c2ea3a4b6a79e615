//! Removing incidents whose title occurs again later.
use crate::categories::{last_index_of, lemma_last_index};
use crate::mapping::incident_views;
use crate::model::{Incident, IncidentView};
use vstd::prelude::*;

verus! {

/// The titles of a sequence of incidents.
pub open spec fn titles(s: Seq<IncidentView>) -> Seq<Seq<char>> {
    s.map_values(|i: IncidentView| i.title)
}

/// `out` holds, for each title of `s`, exactly one incident: the last one of `s` with
/// that title.
pub open spec fn is_dedup_of(out: Seq<IncidentView>, s: Seq<IncidentView>) -> bool {
    &&& forall|a: int, b: int|
        0 <= a < b < out.len() ==> #[trigger] out[a].title != #[trigger] out[b].title
    &&& forall|k: int|
        0 <= k < out.len() ==> (last_index_of(titles(s), #[trigger] out[k].title) matches Some(i)
            && out[k] == s[i])
    &&& forall|i: int| 0 <= i < s.len() ==> titles(out).contains(#[trigger] s[i].title)
}

/// Deduplication of the first `m` incidents: an incident replaces the kept one with
/// its title, or is appended where its title is new.
pub open spec fn dedup_upto(s: Seq<IncidentView>, m: int) -> Seq<IncidentView>
    decreases m,
{
    if m <= 0 {
        Seq::empty()
    } else {
        let d = dedup_upto(s, m - 1);
        match last_index_of(titles(d), s[m - 1].title) {
            Some(k) => d.update(k, s[m - 1]),
            None => d.push(s[m - 1]),
        }
    }
}

fn find_title(out: &Vec<Incident>, title: &String) -> (r: Option<usize>)
    ensures
        r matches Some(k) ==> k < out@.len() && out@[k as int]@.title == title@,
        r is None ==> forall|k: int| 0 <= k < out@.len() ==> #[trigger] out@[k]@.title != title@,
{
    let mut k: usize = 0;
    while k < out.len()
        invariant
            k <= out@.len(),
            forall|l: int| 0 <= l < k ==> #[trigger] out@[l]@.title != title@,
        decreases out@.len() - k,
    {
        if out[k].short_description == *title {
            return Some(k);
        }
        k = k + 1;
    }
    None
}

/// Keeps one incident per title: the last occurrence in input order. The order of
/// the result is that of the titles' first occurrences.
pub fn deduped_incidents(incidents: Vec<Incident>) -> (r: Vec<Incident>)
    ensures
        incident_views(r@) == dedup_upto(incident_views(incidents@), incidents@.len() as int),
        is_dedup_of(incident_views(r@), incident_views(incidents@)),
        r@.len() <= incidents@.len(),
{
    let ghost s = incident_views(incidents@);
    let mut out: Vec<Incident> = Vec::new();
    let mut j: usize = 0;
    while j < incidents.len()
        invariant
            j <= incidents@.len(),
            s == incident_views(incidents@),
            is_dedup_of(incident_views(out@), s.subrange(0, j as int)),
            incident_views(out@) == dedup_upto(s, j as int),
            out@.len() <= j,
        decreases incidents@.len() - j,
    {
        let ghost pre = s.subrange(0, j as int);
        let ghost next = s.subrange(0, j + 1);
        let ghost before = incident_views(out@);
        assert(titles(next).drop_last() =~= titles(pre));
        let incident = incidents[j].clone();
        assert(incident@ == s[j as int]);
        let ghost mut at: int = 0;
        match find_title(&out, &incident.short_description) {
            Some(k) => {
                proof {
                    at = k as int;
                    assert(before[at].title == s[j as int].title);
                    lemma_last_index(titles(before), s[j as int].title);
                    assert(titles(before)[at] == s[j as int].title);
                    assert forall|l: int| 0 <= l < before.len() && l != at implies #[trigger] before[l].title
                        != s[j as int].title by {
                        if l < at {
                            assert(before[l].title != before[at].title);
                        } else {
                            assert(before[at].title != before[l].title);
                        }
                    };
                }
                out.set(k, incident);
            },
            None => {
                proof {
                    at = before.len() as int;
                    assert forall|l: int| 0 <= l < before.len() implies #[trigger] before[l].title
                        != s[j as int].title by {
                        assert(out@[l]@.title != s[j as int].title);
                    };
                    lemma_last_index(titles(before), s[j as int].title);
                    if last_index_of(titles(before), s[j as int].title) is Some {
                        let i = last_index_of(titles(before), s[j as int].title)->0;
                        assert(titles(before)[i] == before[i].title);
                    }
                }
                out.push(incident);
            },
        }
        let ghost after = incident_views(out@);
        assert(after[at] == s[j as int]);
        assert(after =~= dedup_upto(s, j + 1));
        assert forall|k: int| 0 <= k < after.len() && k != at implies #[trigger] after[k] == before[k]
            && before[k].title != s[j as int].title by {
            assert(before[k].title != s[j as int].title);
        };
        assert forall|a: int, b: int|
            0 <= a < b < after.len() implies #[trigger] after[a].title != #[trigger] after[b].title by {
            if b == before.len() {
                assert(before[a] == after[a]);
            } else {
                assert(before[a].title == after[a].title || after[a] == s[j as int]);
                assert(before[b].title == after[b].title || after[b] == s[j as int]);
            }
        };
        assert forall|k: int| 0 <= k < after.len() implies (last_index_of(
            titles(next),
            #[trigger] after[k].title,
        ) matches Some(i) && after[k] == next[i]) by {
            if k == at {
                assert(titles(next).last() == s[j as int].title);
            } else {
                lemma_last_index(titles(pre), after[k].title);
                let i = last_index_of(titles(pre), after[k].title)->0;
                assert(pre[i] == next[i]);
            }
        };
        assert forall|i: int| 0 <= i < next.len() implies titles(after).contains(
            #[trigger] next[i].title,
        ) by {
            if i < j {
                assert(pre[i] == next[i]);
                assert(titles(before).contains(pre[i].title));
                let k = choose|k: int| 0 <= k < titles(before).len() && titles(before)[k] == pre[i].title;
                assert(titles(after)[k] == pre[i].title);
            } else {
                assert(titles(after)[at] == next[i].title);
            }
        };
        j = j + 1;
    }
    assert(s.subrange(0, j as int) =~= s);
    out
}

} // verus!
