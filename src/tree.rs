use vstd::prelude::*;
use crate::time::{Timestamp, later, later_of, opt_not_after, lemma_later_of_bounds, lemma_opt_not_after_trans};

verus! {

/// One entry of a directory tree as it was read: its path, whether it is a
/// directory, its own modification time (absent where the file system gave
/// none), and the entries that could be read directly beneath it.
#[derive(Debug)]
pub struct Entry {
    pub path: String,
    pub is_dir: bool,
    pub modified: Option<Timestamp>,
    pub children: Vec<Entry>,
}

/// The most recent time in the entry's subtree: the later of its own time and
/// what each child contributes.
pub open spec fn resolved(e: Entry) -> Option<Timestamp>
    decreases e, 0int,
{
    later_of(e.modified, children_latest(e.children@))
}

/// The latest of the contributions of a sequence of children.
pub open spec fn children_latest(s: Seq<Entry>) -> Option<Timestamp>
    decreases s, 1int,
{
    if s.len() == 0 {
        None
    } else {
        later_of(children_latest(s.drop_last()), contribution(s.last()))
    }
}

/// What a child adds to its parent: a directory its whole subtree, anything
/// else its own time alone.
pub open spec fn contribution(c: Entry) -> Option<Timestamp>
    decreases c, 2int,
{
    if c.is_dir {
        resolved(c)
    } else {
        c.modified
    }
}

/// No time can be read anywhere in the entry's subtree.
pub open spec fn timeless(e: Entry) -> bool
    decreases e, 0int,
{
    e.modified is None && all_timeless(e.children@)
}

/// No time can be read anywhere under any entry of the sequence.
pub open spec fn all_timeless(s: Seq<Entry>) -> bool
    decreases s, 1int,
{
    s.len() == 0 || (all_timeless(s.drop_last()) && timeless(s.last()))
}

/// The latest of a sequence of contributions bounds each of them.
proof fn lemma_children_latest_bounds(s: Seq<Entry>, i: int)
    requires
        0 <= i < s.len(),
    ensures
        opt_not_after(contribution(s[i]), children_latest(s)),
    decreases s.len(),
{
    let rest = s.drop_last();
    lemma_later_of_bounds(children_latest(rest), contribution(s.last()));
    if i < s.len() - 1 {
        lemma_children_latest_bounds(rest, i);
        assert(rest[i] == s[i]);
        lemma_opt_not_after_trans(contribution(s[i]), children_latest(rest), children_latest(s));
    }
}

/// A directory's time is no earlier than what any child contributes: for a
/// child directory, that is the child's own subtree time.
pub proof fn lemma_parent_bounds_child(d: Entry, i: int)
    requires
        0 <= i < d.children@.len(),
    ensures
        opt_not_after(contribution(d.children@[i]), resolved(d)),
        d.children@[i].is_dir ==> opt_not_after(resolved(d.children@[i]), resolved(d)),
{
    lemma_children_latest_bounds(d.children@, i);
    lemma_later_of_bounds(d.modified, children_latest(d.children@));
    lemma_opt_not_after_trans(contribution(d.children@[i]), children_latest(d.children@), resolved(d));
}

/// A directory's time is no earlier than its own modification time.
pub proof fn lemma_own_time_floor(d: Entry)
    ensures
        opt_not_after(d.modified, resolved(d)),
        d.modified is Some ==> resolved(d) is Some,
{
    lemma_later_of_bounds(d.modified, children_latest(d.children@));
}

/// A subtree in which no time can be read has no time.
pub proof fn lemma_timeless_unresolved(e: Entry)
    requires
        timeless(e),
    ensures
        resolved(e) is None,
    decreases e, 0int,
{
    lemma_all_timeless_latest(e.children@);
}

/// Children in none of whose subtrees a time can be read contribute nothing.
pub proof fn lemma_all_timeless_latest(s: Seq<Entry>)
    requires
        all_timeless(s),
    ensures
        children_latest(s) is None,
    decreases s, 1int,
{
    if s.len() > 0 {
        lemma_all_timeless_latest(s.drop_last());
        lemma_timeless_unresolved(s.last());
        assert(s.last().modified is None);
        assert(contribution(s.last()) is None);
    }
}

/// Computes the most recent time in an entry's subtree.
pub fn resolve(e: &Entry) -> (r: Option<Timestamp>)
    ensures
        r == resolved(*e),
    decreases e,
{
    let n = e.children.len();
    let mut acc: Option<Timestamp> = None;
    let mut i: usize = 0;
    while i < n
        invariant
            n == e.children@.len(),
            i <= n,
            acc == children_latest(e.children@.subrange(0, i as int)),
        decreases n - i,
    {
        let c = &e.children[i];
        proof {
            assert(decreases_to!(e => e.children));
            assert(decreases_to!(e.children => e.children[i as int]));
        }
        let own = if c.is_dir {
            resolve(c)
        } else {
            c.modified
        };
        assert(own == contribution(e.children@[i as int]));
        assert(e.children@.subrange(0, i + 1).drop_last() == e.children@.subrange(0, i as int));
        assert(e.children@.subrange(0, i + 1).last() == e.children@[i as int]);
        acc = later(acc, own);
        i = i + 1;
    }
    assert(e.children@.subrange(0, n as int) == e.children@);
    later(e.modified, acc)
}

} // verus!
