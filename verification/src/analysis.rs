//! Query results: per-question answer distributions and respondent
//! subsets, with the exact fixed-point percentage arithmetic both share.

use vstd::prelude::*;

use crate::survey::QuestionType;
use crate::text::{lemma_lex_total, lemma_lex_trans, lex_le, lex_le_chars, to_char_vec,
    usize_to_string};

verus! {

broadcast use vstd::seq_lib::group_to_multiset_ensures;

/// Percentages are integers in hundredths of a percent, so statistics
/// stay exact: `12.34%` is `1234`. With a zero denominator every
/// percentage is zero; there is no division by zero.
pub open spec fn percent_x100_of(count: nat, total: nat) -> nat {
    if total == 0 {
        0
    } else {
        count * 10000 / total
    }
}

/// Values too large for `usize` saturate at `usize::MAX`.
pub open spec fn clamp_usize(n: nat) -> nat {
    if n > usize::MAX as nat {
        usize::MAX as nat
    } else {
        n
    }
}

/// A percentage in hundredths of a percent: `count / total * 100`,
/// zero when `total` is zero, saturated at `usize::MAX`.
pub fn percent_x100(count: usize, total: usize) -> (r: usize)
    ensures
        r as nat == clamp_usize(percent_x100_of(count as nat, total as nat)),
{
    if total == 0 {
        0
    } else {
        let p: u128 = (count as u128) * 10000 / (total as u128);
        if p > usize::MAX as u128 {
            usize::MAX
        } else {
            p as usize
        }
    }
}

/// With no valid responses, every percentage is zero rather than a
/// division fault.
pub proof fn lemma_percentage_of_zero_total(count: nat)
    ensures
        percent_x100_of(count, 0) == 0,
{
}

/// The answer frequency table of one question: `(option, count)` entries
/// with pairwise distinct options, and the number of valid responses the
/// percentages are relative to.
#[derive(Debug)]
pub struct AnswerDistribution {
    pub question_id: usize,
    pub question_text: String,
    pub question_type: QuestionType,
    pub distribution: Vec<(String, usize)>,
    pub total_responses: usize,
}

/// The mathematical value of an `AnswerDistribution`.
#[verifier::ext_equal]
pub ghost struct DistributionV {
    pub question_id: usize,
    pub question_text: Seq<char>,
    pub question_type: QuestionType,
    pub entries: Seq<(Seq<char>, usize)>,
    pub total_responses: usize,
}

/// The views of a sequence of distribution entries.
pub open spec fn entry_views(es: Seq<(String, usize)>) -> Seq<(Seq<char>, usize)> {
    es.map_values(|e: (String, usize)| (e.0@, e.1))
}

impl View for AnswerDistribution {
    type V = DistributionV;

    open spec fn view(&self) -> DistributionV {
        DistributionV {
            question_id: self.question_id,
            question_text: self.question_text@,
            question_type: self.question_type,
            entries: entry_views(self.distribution@),
            total_responses: self.total_responses,
        }
    }
}

/// Entry `i` holds the first maximal count of `entries`: no count is
/// larger, and every earlier count is strictly smaller.
pub open spec fn is_first_max(entries: Seq<(Seq<char>, usize)>, i: int) -> bool {
    &&& 0 <= i < entries.len()
    &&& forall|j: int| 0 <= j < entries.len() ==> entries[j].1 <= entries[i].1
    &&& forall|j: int| 0 <= j < i ==> entries[j].1 < entries[i].1
}

/// The entries whose percentage reaches `t` hundredths of a percent, in
/// stored order, each extended with that percentage.
pub open spec fn above_spec(entries: Seq<(Seq<char>, usize)>, total: nat, t: usize) -> Seq<
    (Seq<char>, usize, nat),
>
    decreases entries.len(),
{
    if entries.len() == 0 {
        Seq::<(Seq<char>, usize, nat)>::empty()
    } else {
        let rest = above_spec(entries.drop_last(), total, t);
        let e = entries.last();
        let p = clamp_usize(percent_x100_of(e.1 as nat, total));
        if p >= t as nat {
            rest.push((e.0, e.1, p))
        } else {
            rest
        }
    }
}

impl AnswerDistribution {
    /// The option with the most responses, its count, and its percentage
    /// in hundredths of a percent; among equal counts, the entry stored
    /// first. `None` only for an empty table.
    pub fn most_popular(&self) -> (r: Option<(String, usize, usize)>)
        ensures
            r is None <==> self@.entries.len() == 0,
            r is Some ==> {
                let (s, c, p) = r->0;
                exists|i: int|
                    #![auto]
                    is_first_max(self@.entries, i) && self@.entries[i].0 == s@
                        && self@.entries[i].1 == c && p as nat == clamp_usize(
                        percent_x100_of(c as nat, self@.total_responses as nat),
                    )
            },
    {
        let n = self.distribution.len();
        if n == 0 {
            return None;
        }
        let mut best: usize = 0;
        let mut i: usize = 1;
        while i < n
            invariant
                n == self@.entries.len(),
                best < i <= n,
                forall|j: int| 0 <= j < i ==> self@.entries[j].1 <= self@.entries[best as int].1,
                forall|j: int| 0 <= j < best ==> self@.entries[j].1 < self@.entries[best as int].1,
            decreases n - i,
        {
            if self.distribution[i].1 > self.distribution[best].1 {
                best = i;
            }
            i = i + 1;
        }
        let count = self.distribution[best].1;
        let pct = percent_x100(count, self.total_responses);
        assert(is_first_max(self@.entries, best as int));
        Some((self.distribution[best].0.clone(), count, pct))
    }

    /// The options whose percentage is at least `threshold_x100`
    /// hundredths of a percent (the boundary is inclusive), in stored
    /// order, with count and percentage.
    pub fn above_threshold(&self, threshold_x100: usize) -> (r: Vec<(String, usize, usize)>)
        ensures
            r@.map_values(|e: (String, usize, usize)| (e.0@, e.1, e.2 as nat)) == above_spec(
                self@.entries,
                self@.total_responses as nat,
                threshold_x100,
            ),
    {
        let n = self.distribution.len();
        let mut r: Vec<(String, usize, usize)> = Vec::new();
        proof {
            assert(self@.entries.take(0) =~~= Seq::<(Seq<char>, usize)>::empty());
            assert(r@.map_values(|e: (String, usize, usize)| (e.0@, e.1, e.2 as nat)) =~~=
            above_spec(self@.entries.take(0), self@.total_responses as nat, threshold_x100));
        }
        let mut i: usize = 0;
        while i < n
            invariant
                n == self@.entries.len(),
                i <= n,
                r@.map_values(|e: (String, usize, usize)| (e.0@, e.1, e.2 as nat)) == above_spec(
                    self@.entries.take(i as int),
                    self@.total_responses as nat,
                    threshold_x100,
                ),
            decreases n - i,
        {
            let count = self.distribution[i].1;
            let pct = percent_x100(count, self.total_responses);
            proof {
                let pfx = self@.entries.take(i + 1);
                assert(pfx.drop_last() =~~= self@.entries.take(i as int));
                assert(pfx.last() == self@.entries[i as int]);
            }
            if pct >= threshold_x100 {
                let e = (self.distribution[i].0.clone(), count, pct);
                proof {
                    assert(r@.push(e).map_values(|x: (String, usize, usize)| (x.0@, x.1, x.2 as nat))
                        =~~= r@.map_values(|x: (String, usize, usize)| (x.0@, x.1, x.2 as nat)).push(
                        (e.0@, e.1, e.2 as nat),
                    ));
                }
                r.push(e);
            }
            i = i + 1;
        }
        proof {
            assert(self@.entries.take(n as int) =~~= self@.entries);
        }
        r
    }
}

/// The total count recorded for option `opt` in a table of
/// `(option, count)` entries.
pub open spec fn vcount(es: Seq<(Seq<char>, usize)>, opt: Seq<char>) -> nat
    decreases es.len(),
{
    if es.len() == 0 {
        0
    } else {
        vcount(es.drop_last(), opt) + (if es.last().0 == opt {
            es.last().1 as nat
        } else {
            0
        })
    }
}

/// The sum of all counts in a table of `(option, count)` entries.
pub open spec fn entries_sum(es: Seq<(Seq<char>, usize)>) -> nat
    decreases es.len(),
{
    if es.len() == 0 {
        0
    } else {
        entries_sum(es.drop_last()) + es.last().1 as nat
    }
}

/// No two entries carry the same option.
pub open spec fn unique_keys(es: Seq<(Seq<char>, usize)>) -> bool {
    forall|i: int, j: int| 0 <= i < j < es.len() ==> es[i].0 != es[j].0
}

/// One more, saturating at `usize::MAX`.
pub open spec fn clamp_inc(n: nat) -> nat {
    if n < usize::MAX as nat {
        n + 1
    } else {
        n
    }
}

pub proof fn lemma_clamp_inc(n: nat)
    ensures
        clamp_inc(clamp_usize(n)) == clamp_usize(n + 1),
{
}

pub(crate) proof fn lemma_vcount_absent(es: Seq<(Seq<char>, usize)>, opt: Seq<char>)
    requires
        forall|k: int| 0 <= k < es.len() ==> es[k].0 != opt,
    ensures
        vcount(es, opt) == 0,
    decreases es.len(),
{
    if es.len() > 0 {
        lemma_vcount_absent(es.drop_last(), opt);
    }
}

pub(crate) proof fn lemma_vcount_at(es: Seq<(Seq<char>, usize)>, k: int)
    requires
        unique_keys(es),
        0 <= k < es.len(),
    ensures
        vcount(es, es[k].0) == es[k].1,
    decreases es.len(),
{
    if k == es.len() - 1 {
        assert(forall|j: int| 0 <= j < es.drop_last().len() ==> es.drop_last()[j].0 != es[k].0);
        lemma_vcount_absent(es.drop_last(), es[k].0);
    } else {
        lemma_vcount_at(es.drop_last(), k);
    }
}

pub(crate) proof fn lemma_vcount_pos(es: Seq<(Seq<char>, usize)>, opt: Seq<char>)
    requires
        vcount(es, opt) > 0,
    ensures
        exists|k: int| 0 <= k < es.len() && (#[trigger] es[k]).0 == opt,
{
    if forall|k: int| 0 <= k < es.len() ==> (#[trigger] es[k]).0 != opt {
        lemma_vcount_absent(es, opt);
    }
}

pub proof fn lemma_sum_ge_vcount(es: Seq<(Seq<char>, usize)>, opt: Seq<char>)
    ensures
        entries_sum(es) >= vcount(es, opt),
    decreases es.len(),
{
    if es.len() > 0 {
        lemma_sum_ge_vcount(es.drop_last(), opt);
    }
}

proof fn lemma_vcount_update(es: Seq<(Seq<char>, usize)>, k: int, c2: usize, opt: Seq<char>)
    requires
        0 <= k < es.len(),
    ensures
        es[k].0 == opt ==> vcount(es.update(k, (es[k].0, c2)), opt) + es[k].1 == vcount(es, opt)
            + c2,
        es[k].0 != opt ==> vcount(es.update(k, (es[k].0, c2)), opt) == vcount(es, opt),
    decreases es.len(),
{
    let up = es.update(k, (es[k].0, c2));
    if k == es.len() - 1 {
        assert(up.drop_last() =~~= es.drop_last());
        assert(up.last() == (es[k].0, c2));
    } else {
        lemma_vcount_update(es.drop_last(), k, c2, opt);
        assert(up.drop_last() =~~= es.drop_last().update(k, (es[k].0, c2)));
        assert(up.last() == es.last());
    }
}

proof fn lemma_sum_update(es: Seq<(Seq<char>, usize)>, k: int, c2: usize)
    requires
        0 <= k < es.len(),
    ensures
        entries_sum(es.update(k, (es[k].0, c2))) + es[k].1 == entries_sum(es) + c2,
    decreases es.len(),
{
    let up = es.update(k, (es[k].0, c2));
    if k == es.len() - 1 {
        assert(up.drop_last() =~~= es.drop_last());
        assert(up.last() == (es[k].0, c2));
    } else {
        lemma_sum_update(es.drop_last(), k, c2);
        assert(up.drop_last() =~~= es.drop_last().update(k, (es[k].0, c2)));
        assert(up.last() == es.last());
    }
}

/// Record one more occurrence of `key`, saturating at `usize::MAX`:
/// either the existing entry for `key` grows by one, or a fresh entry
/// `(key, 1)` is appended.
pub(crate) fn bump_count(counts: &mut Vec<(String, usize)>, key: String)
    requires
        unique_keys(entry_views(old(counts)@)),
        forall|k: int| 0 <= k < old(counts)@.len() ==> (#[trigger] old(counts)@[k]).1 >= 1,
    ensures
        unique_keys(entry_views(final(counts)@)),
        forall|k: int| 0 <= k < final(counts)@.len() ==> (#[trigger] final(counts)@[k]).1 >= 1,
        forall|opt: Seq<char>|
            #![auto]
            vcount(entry_views(final(counts)@), opt) == (if opt == key@ {
                clamp_inc(vcount(entry_views(old(counts)@), opt))
            } else {
                vcount(entry_views(old(counts)@), opt)
            }),
        entries_sum(entry_views(final(counts)@)) == (if vcount(entry_views(old(counts)@), key@)
            < usize::MAX as nat {
            entries_sum(entry_views(old(counts)@)) + 1
        } else {
            entries_sum(entry_views(old(counts)@))
        }),
{
    let ghost es_old = entry_views(old(counts)@);
    let n = counts.len();
    let mut k: usize = 0;
    while k < n
        invariant
            n == counts@.len(),
            k <= n,
            counts@ == old(counts)@,
            forall|j: int| 0 <= j < k ==> entry_views(counts@)[j].0 != key@,
        decreases n - k,
    {
        if counts[k].0 == key {
            proof {
                lemma_vcount_at(es_old, k as int);
            }
            let c = counts[k].1;
            let c2 = if c < usize::MAX {
                c + 1
            } else {
                c
            };
            let s0 = counts[k].0.clone();
            counts.set(k, (s0, c2));
            proof {
                let es_new = entry_views(counts@);
                assert(es_new =~~= es_old.update(k as int, (es_old[k as int].0, c2)));
                assert forall|opt: Seq<char>| #![auto]
                    vcount(es_new, opt) == (if opt == key@ {
                        clamp_inc(vcount(es_old, opt))
                    } else {
                        vcount(es_old, opt)
                    }) by {
                    lemma_vcount_update(es_old, k as int, c2, opt);
                    if opt != key@ && es_old[k as int].0 == opt {
                        assert(false);
                    }
                }
                lemma_sum_update(es_old, k as int, c2);
            }
            return ;
        }
        k = k + 1;
    }
    proof {
        lemma_vcount_absent(es_old, key@);
    }
    counts.push((key, 1));
    proof {
        let es_new = entry_views(counts@);
        assert(es_new =~~= es_old.push((key@, 1)));
        assert(es_new.drop_last() =~~= es_old);
        assert forall|opt: Seq<char>| #![auto]
            vcount(es_new, opt) == (if opt == key@ {
                clamp_inc(vcount(es_old, opt))
            } else {
                vcount(es_old, opt)
            }) by {
            if opt == key@ {
                lemma_vcount_absent(es_old, opt);
            }
        }
    }
}

/// The presentation order of distribution entries: larger counts first,
/// equal counts in ascending option order, so reports are reproducible.
pub open spec fn entry_le(x: (Seq<char>, usize), y: (Seq<char>, usize)) -> bool {
    x.1 > y.1 || (x.1 == y.1 && lex_le(x.0, y.0))
}

proof fn lemma_entry_le_total(x: (Seq<char>, usize), y: (Seq<char>, usize))
    ensures
        entry_le(x, y) || entry_le(y, x),
{
    lemma_lex_total(x.0, y.0);
}

proof fn lemma_entry_le_trans(x: (Seq<char>, usize), y: (Seq<char>, usize), z: (Seq<char>, usize))
    requires
        entry_le(x, y),
        entry_le(y, z),
    ensures
        entry_le(x, z),
{
    if x.1 == y.1 && y.1 == z.1 {
        lemma_lex_trans(x.0, y.0, z.0);
    }
}

fn cmp_entry(a: &(String, usize), b: &(String, usize)) -> (r: bool)
    ensures
        r == entry_le((a.0@, a.1), (b.0@, b.1)),
{
    if a.1 > b.1 {
        true
    } else if a.1 < b.1 {
        false
    } else {
        lex_le_chars(&to_char_vec(a.0.as_str()), &to_char_vec(b.0.as_str()))
    }
}

fn clone_entries(v: &Vec<(String, usize)>) -> (r: Vec<(String, usize)>)
    ensures
        r@ == v@,
{
    let n = v.len();
    let mut r: Vec<(String, usize)> = Vec::new();
    let mut i: usize = 0;
    while i < n
        invariant
            n == v@.len(),
            i <= n,
            r@.len() == i,
            forall|k: int| 0 <= k < i ==> r@[k] == v@[k],
        decreases n - i,
    {
        r.push((v[i].0.clone(), v[i].1));
        i = i + 1;
    }
    assert(r@ =~= v@);
    r
}

fn kind_label(k: QuestionType) -> &'static str {
    match k {
        QuestionType::SingleChoice => "SingleChoice",
        QuestionType::MultipleChoice => "MultipleChoice",
        QuestionType::Text => "Text",
        QuestionType::Numeric => "Numeric",
    }
}

/// Append a percentage in hundredths of a percent with one decimal
/// place, truncated.
fn append_pct(s: &mut String, p: usize)
    ensures
        final(s)@.len() >= old(s)@.len(),
{
    s.append(usize_to_string(p / 100).as_str());
    s.append(".");
    s.append(usize_to_string((p / 10) % 10).as_str());
}

impl AnswerDistribution {
    /// The entries in presentation order: descending by count, equal
    /// counts in ascending option order — the same entries as stored,
    /// deterministically arranged for reproducible reports.
    pub fn sorted_entries(&self) -> (r: Vec<(String, usize)>)
        ensures
            entry_views(r@).to_multiset() == self@.entries.to_multiset(),
            forall|i: int, j: int|
                0 <= i < j < r@.len() ==> entry_le(entry_views(r@)[i], entry_views(r@)[j]),
    {
        let mut work = clone_entries(&self.distribution);
        let mut out: Vec<(String, usize)> = Vec::new();
        proof {
            assert(entry_views(out@) =~~= Seq::<(Seq<char>, usize)>::empty());
            assert(entry_views(out@).to_multiset().add(entry_views(work@).to_multiset()) =~=
            self@.entries.to_multiset());
        }
        while work.len() > 0
            invariant
                entry_views(out@).to_multiset().add(entry_views(work@).to_multiset())
                    == self@.entries.to_multiset(),
                forall|i: int, j: int|
                    0 <= i < j < out@.len() ==> entry_le(
                        entry_views(out@)[i],
                        entry_views(out@)[j],
                    ),
                forall|i: int, t: int|
                    0 <= i < out@.len() && 0 <= t < work@.len() ==> entry_le(
                        entry_views(out@)[i],
                        entry_views(work@)[t],
                    ),
            decreases work@.len(),
        {
            let wn = work.len();
            let mut best: usize = 0;
            proof {
                lemma_entry_le_total(entry_views(work@)[0], entry_views(work@)[0]);
            }
            let mut t: usize = 1;
            while t < wn
                invariant
                    wn == work@.len(),
                    best < t <= wn,
                    forall|u: int|
                        0 <= u < t ==> entry_le(
                            entry_views(work@)[best as int],
                            entry_views(work@)[u],
                        ),
                decreases wn - t,
            {
                if !cmp_entry(&work[best], &work[t]) {
                    proof {
                        let ev = entry_views(work@);
                        lemma_entry_le_total(ev[best as int], ev[t as int]);
                        assert forall|u: int| 0 <= u < t + 1 implies entry_le(
                            ev[t as int],
                            ev[u],
                        ) by {
                            if u < t {
                                lemma_entry_le_trans(ev[t as int], ev[best as int], ev[u]);
                            } else {
                                lemma_entry_le_total(ev[t as int], ev[t as int]);
                            }
                        }
                    }
                    best = t;
                }
                t = t + 1;
            }
            let ghost ev_out_old = entry_views(out@);
            let ghost ev_work_old = entry_views(work@);
            let ghost e_v = ev_work_old[best as int];
            proof {
                assert(ev_work_old.contains(e_v));
            }
            let e = work.remove(best);
            proof {
                assert((e.0@, e.1) == e_v);
                ev_work_old.remove_ensures(best as int);
                assert(entry_views(work@) =~~= ev_work_old.remove(best as int));
                assert(ev_work_old.remove(best as int).to_multiset() =~= ev_work_old.to_multiset()
                    .remove(e_v));
            }
            out.push(e);
            proof {
                assert(entry_views(out@) =~~= ev_out_old.push(e_v));
                assert(ev_out_old.push(e_v).to_multiset() =~= ev_out_old.to_multiset().insert(
                    e_v,
                ));
                assert(ev_work_old.to_multiset().count(e_v) >= 1);
                assert(entry_views(out@).to_multiset().add(entry_views(work@).to_multiset()) =~=
                self@.entries.to_multiset());
                assert forall|i: int, j: int| 0 <= i < j < out@.len() implies entry_le(
                    entry_views(out@)[i],
                    entry_views(out@)[j],
                ) by {
                    if j == out@.len() - 1 {
                        assert(entry_views(out@)[i] == ev_out_old[i]);
                    }
                }
                assert forall|i: int, t2: int|
                    0 <= i < out@.len() && 0 <= t2 < work@.len() implies entry_le(
                    entry_views(out@)[i],
                    entry_views(work@)[t2],
                ) by {
                    let w = entry_views(work@)[t2];
                    if t2 < best {
                        assert(w == ev_work_old[t2]);
                    } else {
                        assert(w == ev_work_old[t2 + 1]);
                    }
                    if i < out@.len() - 1 {
                        assert(entry_views(out@)[i] == ev_out_old[i]);
                    } else {
                        assert(entry_views(out@)[i] == e_v);
                    }
                }
            }
        }
        proof {
            assert(entry_views(work@) =~~= Seq::<(Seq<char>, usize)>::empty());
            assert(entry_views(out@).to_multiset() =~= self@.entries.to_multiset());
        }
        out
    }

    /// A report of the distribution: question, kind, total, and every
    /// entry with count and percentage, most popular first. The wording
    /// is presentation, not contract.
    pub fn display(&self) -> (r: String)
        ensures
            r@.len() > 0,
    {
        proof {
            reveal_strlit("Question ");
        }
        let mut s = String::from_str("Question ");
        s.append(usize_to_string(self.question_id).as_str());
        s.append(": ");
        s.append(self.question_text.as_str());
        s.append("\nType: ");
        s.append(kind_label(self.question_type));
        s.append("\nTotal Responses: ");
        s.append(usize_to_string(self.total_responses).as_str());
        s.append("\nDistribution:\n");
        let items = self.sorted_entries();
        let n = items.len();
        let mut i: usize = 0;
        while i < n
            invariant
                n == items@.len(),
                i <= n,
                s@.len() > 0,
            decreases n - i,
        {
            s.append("  ");
            s.append(items[i].0.as_str());
            s.append(": ");
            s.append(usize_to_string(items[i].1).as_str());
            s.append(" (");
            let p = percent_x100(items[i].1, self.total_responses);
            append_pct(&mut s, p);
            s.append("%)\n");
            i = i + 1;
        }
        s
    }
}

/// The respondents whose answer to one question matched one option
/// value, together with the question, the option, and the size of the
/// whole dataset.
#[derive(Debug)]
pub struct Subset {
    pub question_id: usize,
    pub option: String,
    pub respondent_ids: Vec<usize>,
    pub total_respondents: usize,
}

/// The mathematical value of a `Subset`.
#[verifier::ext_equal]
pub ghost struct SubsetV {
    pub question_id: usize,
    pub option: Seq<char>,
    pub respondent_ids: Seq<usize>,
    pub total_respondents: usize,
}

impl View for Subset {
    type V = SubsetV;

    open spec fn view(&self) -> SubsetV {
        SubsetV {
            question_id: self.question_id,
            option: self.option@,
            respondent_ids: self.respondent_ids@,
            total_respondents: self.total_respondents,
        }
    }
}

/// The ids present in both `a` and `b`, in `a`'s order, each kept once
/// (at its first occurrence in `a`).
pub open spec fn intersect_ids(a: Seq<usize>, b: Seq<usize>) -> Seq<usize>
    decreases a.len(),
{
    if a.len() == 0 {
        Seq::<usize>::empty()
    } else {
        let rest = intersect_ids(a.drop_last(), b);
        let x = a.last();
        if b.contains(x) && !a.drop_last().contains(x) {
            rest.push(x)
        } else {
            rest
        }
    }
}

/// An id is in the intersection exactly when it is in both inputs.
pub proof fn lemma_intersect_contains(a: Seq<usize>, b: Seq<usize>)
    ensures
        forall|x: usize|
            #[trigger] intersect_ids(a, b).contains(x) <==> (a.contains(x) && b.contains(x)),
    decreases a.len(),
{
    if a.len() > 0 {
        lemma_intersect_contains(a.drop_last(), b);
        assert forall|x: usize| #[trigger]
            intersect_ids(a, b).contains(x) <==> (a.contains(x) && b.contains(x)) by {
            let rest = intersect_ids(a.drop_last(), b);
            if a.drop_last().contains(x) || a.last() == x {
                assert(a.contains(x));
            }
            if a.contains(x) && a.last() != x {
                let i = choose|i: int| 0 <= i < a.len() && a[i] == x;
                assert(a.drop_last()[i] == x);
                assert(a.drop_last().contains(x));
            }
            if intersect_ids(a, b).contains(x) && !rest.contains(x) {
                assert(intersect_ids(a, b).last() == x);
            }
            if rest.contains(x) {
                assert(intersect_ids(a, b).contains(x)) by {
                    let i = choose|i: int| 0 <= i < rest.len() && rest[i] == x;
                    assert(intersect_ids(a, b)[i] == x);
                }
            }
            if a.contains(x) && b.contains(x) && !a.drop_last().contains(x) {
                assert(a.last() == x);
                assert(intersect_ids(a, b).last() == x);
                assert(intersect_ids(a, b).contains(x));
            }
        }
    }
}

/// The intersection holds no id twice.
pub proof fn lemma_intersect_no_duplicates(a: Seq<usize>, b: Seq<usize>)
    ensures
        intersect_ids(a, b).no_duplicates(),
    decreases a.len(),
{
    if a.len() > 0 {
        lemma_intersect_no_duplicates(a.drop_last(), b);
        lemma_intersect_contains(a.drop_last(), b);
        let rest = intersect_ids(a.drop_last(), b);
        let x = a.last();
        if b.contains(x) && !a.drop_last().contains(x) {
            assert(!rest.contains(x));
            assert forall|i: int| 0 <= i < rest.len() implies rest[i] != x by {
                if rest[i] == x {
                    assert(rest.contains(x));
                }
            }
            assert(rest.push(x).no_duplicates());
        }
    }
}

/// Intersection is commutative as a set: whatever the argument order,
/// the same ids are present.
pub proof fn lemma_intersect_commutative(a: Seq<usize>, b: Seq<usize>)
    ensures
        forall|x: usize|
            #[trigger] intersect_ids(a, b).contains(x) == intersect_ids(b, a).contains(x),
{
    lemma_intersect_contains(a, b);
    lemma_intersect_contains(b, a);
}

fn ids_contain(v: &Vec<usize>, x: usize) -> (r: bool)
    ensures
        r == v@.contains(x),
{
    let n = v.len();
    let mut i: usize = 0;
    while i < n
        invariant
            n == v@.len(),
            i <= n,
            forall|k: int| 0 <= k < i ==> v@[k] != x,
        decreases n - i,
    {
        if v[i] == x {
            return true;
        }
        i = i + 1;
    }
    false
}

impl Subset {
    /// How many respondents matched.
    pub fn size(&self) -> (r: usize)
        ensures
            r as nat == self@.respondent_ids.len(),
    {
        self.respondent_ids.len()
    }

    /// The subset's share of the whole dataset, in hundredths of a
    /// percent; zero when the dataset is empty.
    pub fn percentage(&self) -> (r: usize)
        ensures
            r as nat == clamp_usize(
                percent_x100_of(self@.respondent_ids.len(), self@.total_respondents as nat),
            ),
    {
        percent_x100(self.respondent_ids.len(), self.total_respondents)
    }

    /// Whether the respondent with this id is in the subset.
    pub fn contains_respondent(&self, respondent_id: usize) -> (r: bool)
        ensures
            r == self@.respondent_ids.contains(respondent_id),
    {
        ids_contain(&self.respondent_ids, respondent_id)
    }

    /// A report of the subset: question, option, size, share of the
    /// dataset, and the first ten respondent ids. The wording is
    /// presentation, not contract.
    pub fn display(&self) -> (r: String)
        ensures
            r@.len() > 0,
    {
        proof {
            reveal_strlit("Subset for Question ");
        }
        let mut s = String::from_str("Subset for Question ");
        s.append(usize_to_string(self.question_id).as_str());
        s.append(" - Option '");
        s.append(self.option.as_str());
        s.append("'\nSize: ");
        s.append(usize_to_string(self.respondent_ids.len()).as_str());
        s.append(" respondents (");
        let p = self.percentage();
        append_pct(&mut s, p);
        s.append("% of total)\nRespondent IDs: [");
        let shown = if self.respondent_ids.len() < 10 {
            self.respondent_ids.len()
        } else {
            10
        };
        let mut k: usize = 0;
        while k < shown
            invariant
                shown <= self@.respondent_ids.len(),
                k <= shown,
                s@.len() > 0,
            decreases shown - k,
        {
            if k > 0 {
                s.append(", ");
            }
            s.append(usize_to_string(self.respondent_ids[k]).as_str());
            k = k + 1;
        }
        s.append("]");
        s
    }

    /// The respondents present in both subsets, in this subset's order,
    /// duplicates collapsed. The two subsets may come from different
    /// questions.
    pub fn intersect(&self, other: &Subset) -> (r: Vec<usize>)
        ensures
            r@ == intersect_ids(self@.respondent_ids, other@.respondent_ids),
            r@.no_duplicates(),
            forall|x: usize|
                #[trigger] r@.contains(x) <==> (self@.respondent_ids.contains(x)
                    && other@.respondent_ids.contains(x)),
    {
        let a = &self.respondent_ids;
        let n = a.len();
        let mut r: Vec<usize> = Vec::new();
        proof {
            assert(a@.take(0) =~= Seq::<usize>::empty());
            assert(r@ =~= intersect_ids(a@.take(0), other@.respondent_ids));
        }
        let mut i: usize = 0;
        while i < n
            invariant
                n == a@.len(),
                a == &self.respondent_ids,
                i <= n,
                r@ == intersect_ids(a@.take(i as int), other@.respondent_ids),
            decreases n - i,
        {
            proof {
                let pfx = a@.take(i + 1);
                assert(pfx.drop_last() =~= a@.take(i as int));
                assert(pfx.last() == a@[i as int]);
                lemma_intersect_contains(a@.take(i as int), other@.respondent_ids);
            }
            let x = a[i];
            if ids_contain(&other.respondent_ids, x) && !ids_contain(&r, x) {
                // x is new: it is in the other subset and not yet collected,
                // so its first occurrence in the prefix is at position i
                assert(!a@.take(i as int).contains(x));
                r.push(x);
            } else {
                assert(r@ == intersect_ids(a@.take(i + 1), other@.respondent_ids)) by {
                    if other@.respondent_ids.contains(x) {
                        assert(a@.take(i as int).contains(x));
                    }
                }
            }
            i = i + 1;
        }
        proof {
            assert(a@.take(n as int) =~= a@);
            lemma_intersect_contains(a@, other@.respondent_ids);
            lemma_intersect_no_duplicates(a@, other@.respondent_ids);
        }
        r
    }
}

} // verus!
