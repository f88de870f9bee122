use vstd::prelude::*;
use vstd::seq_lib::{to_multiset_build, to_multiset_insert};
use crate::time::{Timestamp, not_after};
use crate::tree::{Entry, resolved, resolve, timeless, lemma_timeless_unresolved};

verus! {

/// One line of the report: a top-level directory and the most recent time in
/// its subtree.
#[derive(Clone, Debug, PartialEq, Eq)]
pub struct Row {
    pub path: String,
    pub time: Timestamp,
}

/// The rows of the directories among `top` whose subtree has a time, in the
/// order of `top`.
pub open spec fn rows_of(top: Seq<Entry>) -> Seq<Row>
    decreases top.len(),
{
    if top.len() == 0 {
        Seq::empty()
    } else {
        let rest = rows_of(top.drop_last());
        let e = top.last();
        if e.is_dir && resolved(e) is Some {
            rest.push(Row { path: e.path, time: resolved(e)->0 })
        } else {
            rest
        }
    }
}

/// `r` placed into `s` just before the first row that is no later than it.
pub open spec fn place(r: Row, s: Seq<Row>) -> Seq<Row>
    decreases s.len(),
{
    if s.len() == 0 {
        seq![r]
    } else if not_after(s[0].time, r.time) {
        seq![r] + s
    } else {
        seq![s[0]] + place(r, s.drop_first())
    }
}

/// The rows ordered newest first; rows with equal times come in the reverse
/// of their order in `s`.
pub open spec fn ordered(s: Seq<Row>) -> Seq<Row>
    decreases s.len(),
{
    if s.len() == 0 {
        Seq::empty()
    } else {
        place(s.last(), ordered(s.drop_last()))
    }
}

/// The report on the entries directly under a root.
pub open spec fn report_of(top: Seq<Entry>) -> Seq<Row> {
    ordered(rows_of(top))
}

/// Each row is no later than the rows before it.
pub open spec fn newest_first(s: Seq<Row>) -> bool {
    forall|j: int, k: int| 0 <= j < k < s.len() ==> not_after(#[trigger] s[k].time, #[trigger] s[j].time)
}

/// Placing a row at the first position whose row is no later than it.
proof fn lemma_place_at(r: Row, s: Seq<Row>, k: int)
    requires
        0 <= k <= s.len(),
        forall|j: int| 0 <= j < k ==> !not_after(#[trigger] s[j].time, r.time),
        k < s.len() ==> not_after(s[k].time, r.time),
    ensures
        place(r, s) == s.insert(k, r),
    decreases k,
{
    if k == 0 {
        if s.len() == 0 {
            assert(s.insert(0, r) =~= seq![r]);
        } else {
            assert(s.insert(0, r) =~= seq![r] + s);
        }
    } else {
        let t = s.drop_first();
        assert forall|j: int| 0 <= j < k - 1 implies !not_after(#[trigger] t[j].time, r.time) by {
            assert(t[j] == s[j + 1]);
        }
        lemma_place_at(r, t, k - 1);
        assert(s.insert(k, r) =~= seq![s[0]] + t.insert(k - 1, r));
    }
}

/// Placing a row keeps the rows newest first, and the first row is either the
/// placed one or the old first row.
proof fn lemma_place_newest_first(r: Row, s: Seq<Row>)
    requires
        newest_first(s),
    ensures
        newest_first(place(r, s)),
        place(r, s).len() == s.len() + 1,
        place(r, s)[0] == r || (s.len() > 0 && place(r, s)[0] == s[0]),
    decreases s.len(),
{
    if s.len() > 0 && !not_after(s[0].time, r.time) {
        let t = s.drop_first();
        assert forall|j: int, k: int| 0 <= j < k < t.len() implies not_after(#[trigger] t[k].time, #[trigger] t[j].time) by {
            assert(t[j] == s[j + 1] && t[k] == s[k + 1]);
        }
        lemma_place_newest_first(r, t);
        let p = place(r, t);
        assert forall|j: int, k: int| 0 <= j < k < p.len() + 1 implies not_after(
            #[trigger] (seq![s[0]] + p)[k].time,
            #[trigger] (seq![s[0]] + p)[j].time,
        ) by {
            assert((seq![s[0]] + p)[k] == p[k - 1]);
            if j > 0 {
                assert((seq![s[0]] + p)[j] == p[j - 1]);
            } else if k > 1 {
                assert(not_after(p[k - 1].time, p[0].time));
            }
        }
    } else if s.len() > 0 {
        assert forall|j: int, k: int| 0 <= j < k < s.len() + 1 implies not_after(
            #[trigger] (seq![r] + s)[k].time,
            #[trigger] (seq![r] + s)[j].time,
        ) by {
            assert((seq![r] + s)[k] == s[k - 1]);
            if j > 0 {
                assert((seq![r] + s)[j] == s[j - 1]);
            } else if k > 1 {
                assert(not_after(s[k - 1].time, s[0].time));
            }
        }
    }
}

/// Placing a row inserts it at some position.
proof fn lemma_place_inserts(r: Row, s: Seq<Row>) -> (k: int)
    ensures
        0 <= k <= s.len(),
        place(r, s) == s.insert(k, r),
    decreases s.len(),
{
    if s.len() == 0 {
        assert(s.insert(0, r) =~= seq![r]);
        0
    } else if not_after(s[0].time, r.time) {
        assert(s.insert(0, r) =~= seq![r] + s);
        0
    } else {
        let t = s.drop_first();
        let k = lemma_place_inserts(r, t);
        assert(s.insert(k + 1, r) =~= seq![s[0]] + t.insert(k, r));
        k + 1
    }
}

/// Ordering rows neither adds nor loses any.
proof fn lemma_ordered_same_rows(s: Seq<Row>)
    ensures
        ordered(s).to_multiset() == s.to_multiset(),
    decreases s.len(),
{
    if s.len() > 0 {
        let rest = s.drop_last();
        lemma_ordered_same_rows(rest);
        let k = lemma_place_inserts(s.last(), ordered(rest));
        to_multiset_insert(ordered(rest), k, s.last());
        to_multiset_build(rest, s.last());
        assert(rest.push(s.last()) =~= s);
    } else {
        assert(s =~= Seq::<Row>::empty());
    }
}

/// The report holds exactly one row for each top-level directory whose
/// subtree has a time, and nothing else.
pub proof fn lemma_report_same_rows(top: Seq<Entry>)
    ensures
        report_of(top).to_multiset() == rows_of(top).to_multiset(),
{
    lemma_ordered_same_rows(rows_of(top));
}

/// The report lists its rows newest first.
pub proof fn lemma_report_newest_first(top: Seq<Entry>)
    ensures
        newest_first(report_of(top)),
{
    lemma_ordered_newest_first(rows_of(top));
}

/// Ordering rows puts them newest first.
proof fn lemma_ordered_newest_first(s: Seq<Row>)
    ensures
        newest_first(ordered(s)),
    decreases s.len(),
{
    if s.len() > 0 {
        lemma_ordered_newest_first(s.drop_last());
        lemma_place_newest_first(s.last(), ordered(s.drop_last()));
    }
}

/// An entry that yields no row can be taken out without changing the rows.
proof fn lemma_rows_without(top: Seq<Entry>, i: int)
    requires
        0 <= i < top.len(),
        !(top[i].is_dir && resolved(top[i]) is Some),
    ensures
        rows_of(top) == rows_of(top.remove(i)),
    decreases top.len(),
{
    if i == top.len() - 1 {
        assert(top.remove(i) =~= top.drop_last());
    } else {
        lemma_rows_without(top.drop_last(), i);
        assert(top.remove(i).drop_last() =~= top.drop_last().remove(i));
        assert(top.remove(i).last() == top.last());
    }
}

/// A plain file directly under the root never shows in the report: the
/// report is the same without it.
pub proof fn lemma_top_level_file_excluded(top: Seq<Entry>, i: int)
    requires
        0 <= i < top.len(),
        !top[i].is_dir,
    ensures
        report_of(top) == report_of(top.remove(i)),
{
    lemma_rows_without(top, i);
}

/// A directory in whose subtree no time can be read has no time and does
/// not show in the report: the report is the same without it.
pub proof fn lemma_timeless_dir_excluded(top: Seq<Entry>, i: int)
    requires
        0 <= i < top.len(),
        timeless(top[i]),
    ensures
        resolved(top[i]) is None,
        report_of(top) == report_of(top.remove(i)),
{
    lemma_timeless_unresolved(top[i]);
    lemma_rows_without(top, i);
}

/// The report depends on the tree alone: the same tree, read twice, gives
/// the same report.
pub proof fn lemma_report_repeatable(a: Seq<Entry>, b: Seq<Entry>)
    requires
        a == b,
    ensures
        report_of(a) == report_of(b),
{
}

/// Inserts `r` into `out` before the first row that is no later than it.
fn insert_ordered(out: &mut Vec<Row>, r: Row)
    ensures
        final(out)@ == place(r, old(out)@),
{
    let n = out.len();
    let mut k: usize = 0;
    while k < n && !out[k].time.is_not_after(&r.time)
        invariant
            n == out@.len(),
            k <= n,
            forall|j: int| 0 <= j < k ==> !not_after(#[trigger] out@[j].time, r.time),
        decreases n - k,
    {
        k = k + 1;
    }
    proof {
        lemma_place_at(r, out@, k as int);
    }
    out.insert(k, r);
}

/// Resolves each directory among the entries directly under a root, drops
/// those without a time, and orders the rest newest first; directories with
/// equal times come in the reverse of their order in `top`.
pub fn report(top: &Vec<Entry>) -> (r: Vec<Row>)
    ensures
        r@ == report_of(top@),
        newest_first(r@),
        top@.len() == 0 ==> r@.len() == 0,
{
    let n = top.len();
    let mut out: Vec<Row> = Vec::new();
    let mut i: usize = 0;
    while i < n
        invariant
            n == top@.len(),
            i <= n,
            out@ == ordered(rows_of(top@.subrange(0, i as int))),
        decreases n - i,
    {
        let e = &top[i];
        let ghost pre = top@.subrange(0, i as int);
        assert(top@.subrange(0, i + 1).drop_last() == pre);
        assert(top@.subrange(0, i + 1).last() == top@[i as int]);
        if e.is_dir {
            match resolve(e) {
                Some(t) => {
                    let row = Row { path: e.path.clone(), time: t };
                    assert(rows_of(pre).push(row).drop_last() == rows_of(pre));
                    insert_ordered(&mut out, row);
                },
                None => {},
            }
        }
        i = i + 1;
    }
    assert(top@.subrange(0, n as int) == top@);
    proof {
        lemma_report_newest_first(top@);
    }
    out
}

} // verus!
