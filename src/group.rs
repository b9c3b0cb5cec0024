//! Merging threads whose frame text is identical, and ranking the groups.
use vstd::prelude::*;
use crate::parse::{ParsedThread, StackFormat, threads_view, strings_view, threads_of};

verus! {

/// A group in the abstract: its frame text and the ids of its threads.
pub type GroupView = (Seq<char>, Seq<Seq<char>>);

/// Threads that share one frame text.
pub struct StackGroup {
    /// The frame text that every thread of the group has.
    pub frame_text: String,
    /// The ids of those threads, in the order they were found.
    pub contributor_ids: Vec<String>,
}

impl View for StackGroup {
    type V = GroupView;

    open spec fn view(&self) -> GroupView {
        (self.frame_text@, strings_view(self.contributor_ids@))
    }
}

pub open spec fn groups_view(v: Seq<StackGroup>) -> Seq<GroupView> {
    v.map_values(|g: StackGroup| g@)
}

/// The first group at or after `i` whose frame text is `text`, or -1.
pub open spec fn index_from(gs: Seq<GroupView>, text: Seq<char>, i: int) -> int
    decreases gs.len() - i,
{
    if i < 0 || i >= gs.len() {
        -1
    } else if gs[i].0 == text {
        i
    } else {
        index_from(gs, text, i + 1)
    }
}

/// Adds one thread: to the group with its frame text, or as a new last group.
pub open spec fn add_thread(gs: Seq<GroupView>, th: (Seq<char>, Seq<char>)) -> Seq<GroupView> {
    let k = index_from(gs, th.1, 0);
    if k >= 0 {
        gs.update(k, (gs[k].0, gs[k].1.push(th.0)))
    } else {
        gs.push((th.1, seq![th.0]))
    }
}

/// The groups of a sequence of threads, in the order their frame texts were
/// first seen.
pub open spec fn group_spec(ths: Seq<(Seq<char>, Seq<char>)>) -> Seq<GroupView>
    decreases ths.len(),
{
    if ths.len() == 0 {
        Seq::empty()
    } else {
        add_thread(group_spec(ths.drop_last()), ths.last())
    }
}

/// The groups with exactly `c` threads, in their order.
pub open spec fn with_count(gs: Seq<GroupView>, c: int) -> Seq<GroupView>
    decreases gs.len(),
{
    if gs.len() == 0 {
        Seq::empty()
    } else if gs.last().1.len() == c {
        with_count(gs.drop_last(), c).push(gs.last())
    } else {
        with_count(gs.drop_last(), c)
    }
}

/// The largest number of threads in a group (0 for no groups).
pub open spec fn max_count(gs: Seq<GroupView>) -> int
    decreases gs.len(),
{
    if gs.len() == 0 {
        0
    } else if gs.last().1.len() > max_count(gs.drop_last()) {
        gs.last().1.len() as int
    } else {
        max_count(gs.drop_last())
    }
}

/// The groups with `hi` down to `c` threads: bucket after bucket, the larger
/// first, each bucket in the groups' own order.
pub open spec fn buckets_down_to(gs: Seq<GroupView>, hi: int, c: int) -> Seq<GroupView>
    decreases hi - c + 1,
{
    if c > hi {
        Seq::empty()
    } else {
        buckets_down_to(gs, hi, c + 1) + with_count(gs, c)
    }
}

/// The groups ranked by number of threads, largest first; ties keep their order.
pub open spec fn rank(gs: Seq<GroupView>) -> Seq<GroupView> {
    buckets_down_to(gs, max_count(gs), 0)
}

proof fn lemma_index_absent(gs: Seq<GroupView>, text: Seq<char>, i: int)
    requires
        0 <= i,
        forall|k: int| i <= k < gs.len() ==> gs[k].0 != text,
    ensures
        index_from(gs, text, i) == -1,
    decreases gs.len() - i,
{
    if i < gs.len() {
        lemma_index_absent(gs, text, i + 1);
    }
}

pub(crate) proof fn lemma_distinct_groups(ths: Seq<(Seq<char>, Seq<char>)>)
    requires
        forall|a: int, b: int| 0 <= a < b < ths.len() ==> ths[a].1 != ths[b].1,
    ensures
        group_spec(ths).len() == ths.len(),
        forall|k: int| 0 <= k < ths.len() ==> #[trigger] group_spec(ths)[k] == (ths[k].1, seq![ths[k].0]),
    decreases ths.len(),
{
    if ths.len() > 0 {
        let prev = ths.drop_last();
        lemma_distinct_groups(prev);
        let gs = group_spec(prev);
        assert forall|k: int| 0 <= k < gs.len() implies gs[k].0 != ths.last().1 by {
            assert(gs[k] == (prev[k].1, seq![prev[k].0]));
        }
        lemma_index_absent(gs, ths.last().1, 0);
    }
}

/// Threads whose frame texts are pairwise distinct stay apart: a text with N
/// such thread blocks gives N groups, each holding exactly one thread.
pub proof fn lemma_distinct_stacks_stay_apart(fmt: StackFormat, t: Seq<char>)
    requires
        forall|a: int, b: int|
            0 <= a < b < threads_of(fmt, t).len() ==> threads_of(fmt, t)[a].1 != threads_of(fmt, t)[b].1,
    ensures
        group_spec(threads_of(fmt, t)).len() == threads_of(fmt, t).len(),
        forall|k: int|
            0 <= k < group_spec(threads_of(fmt, t)).len() ==> (#[trigger] group_spec(threads_of(fmt, t))[k]).1.len() == 1,
{
    let ths = threads_of(fmt, t);
    lemma_distinct_groups(ths);
    assert forall|k: int| 0 <= k < group_spec(ths).len() implies (#[trigger] group_spec(ths)[k]).1.len() == 1 by {
        assert(group_spec(ths)[k] == (ths[k].1, seq![ths[k].0]));
    }
}

pub(crate) proof fn lemma_same_group(ths: Seq<(Seq<char>, Seq<char>)>)
    requires
        ths.len() >= 1,
        forall|k: int| 0 <= k < ths.len() ==> #[trigger] ths[k].1 == ths[0].1,
    ensures
        group_spec(ths) == seq![(ths[0].1, ths.map_values(|th: (Seq<char>, Seq<char>)| th.0))],
    decreases ths.len(),
{
    let prev = ths.drop_last();
    if prev.len() == 0 {
        assert(group_spec(prev) == Seq::<GroupView>::empty());
        assert(ths.map_values(|th: (Seq<char>, Seq<char>)| th.0) =~= seq![ths[0].0]);
    } else {
        assert forall|k: int| 0 <= k < prev.len() implies #[trigger] prev[k].1 == prev[0].1 by {
            assert(prev[k] == ths[k]);
        }
        lemma_same_group(prev);
        assert(prev.map_values(|th: (Seq<char>, Seq<char>)| th.0).push(ths.last().0) =~= ths.map_values(
            |th: (Seq<char>, Seq<char>)| th.0,
        ));
        assert(ths.last().1 == ths[0].1);
    }
}

pub(crate) proof fn lemma_rank_single(g: GroupView, c: int)
    requires
        0 <= c <= g.1.len(),
    ensures
        buckets_down_to(seq![g], g.1.len() as int, c) == seq![g],
    decreases g.1.len() - c,
{
    let gs = seq![g];
    assert(gs.drop_last() =~= Seq::<GroupView>::empty());
    assert(gs.last() == g);
    assert(with_count(gs.drop_last(), c) == Seq::<GroupView>::empty());
    if c == g.1.len() {
        assert(buckets_down_to(gs, g.1.len() as int, c + 1) == Seq::<GroupView>::empty());
        assert(with_count(gs, c) =~= seq![g]);
        assert(Seq::<GroupView>::empty() + seq![g] =~= seq![g]);
    } else {
        lemma_rank_single(g, c + 1);
        assert(with_count(gs, c) =~= Seq::<GroupView>::empty());
        assert(seq![g] + Seq::<GroupView>::empty() =~= seq![g]);
    }
}

/// Threads that all share one frame text merge: a text with N >= 1 such thread
/// blocks gives exactly one group, holding all N thread ids in order, and
/// ranking puts that group first.
pub proof fn lemma_identical_stacks_merge(fmt: StackFormat, t: Seq<char>)
    requires
        threads_of(fmt, t).len() >= 1,
        forall|k: int|
            0 <= k < threads_of(fmt, t).len() ==> #[trigger] threads_of(fmt, t)[k].1 == threads_of(fmt, t)[0].1,
    ensures
        group_spec(threads_of(fmt, t)).len() == 1,
        group_spec(threads_of(fmt, t))[0].1 == threads_of(fmt, t).map_values(|th: (Seq<char>, Seq<char>)| th.0),
        group_spec(threads_of(fmt, t))[0].1.len() == threads_of(fmt, t).len(),
        rank(group_spec(threads_of(fmt, t))) == group_spec(threads_of(fmt, t)),
{
    let ths = threads_of(fmt, t);
    let g = (ths[0].1, ths.map_values(|th: (Seq<char>, Seq<char>)| th.0));
    lemma_same_group(ths);
    assert(max_count(seq![g]) == g.1.len()) by {
        assert(seq![g].drop_last() =~= Seq::<GroupView>::empty());
        assert(seq![g].last() == g);
        assert(max_count(seq![g].drop_last()) == 0);
    }
    lemma_rank_single(g, 0);
}

/// The number of thread ids over all groups.
pub open spec fn total_ids(gs: Seq<GroupView>) -> int
    decreases gs.len(),
{
    if gs.len() == 0 {
        0
    } else {
        total_ids(gs.drop_last()) + gs.last().1.len()
    }
}

proof fn lemma_index_found(gs: Seq<GroupView>, text: Seq<char>, i: int)
    requires
        0 <= i,
    ensures
        index_from(gs, text, i) >= 0 ==> i <= index_from(gs, text, i) < gs.len() && gs[index_from(gs, text, i)].0
            == text,
        index_from(gs, text, i) < 0 ==> forall|k: int| i <= k < gs.len() ==> gs[k].0 != text,
    decreases gs.len() - i,
{
    if i < gs.len() && gs[i].0 != text {
        lemma_index_found(gs, text, i + 1);
    }
}

proof fn lemma_total_update(gs: Seq<GroupView>, k: int, id: Seq<char>)
    requires
        0 <= k < gs.len(),
    ensures
        total_ids(gs.update(k, (gs[k].0, gs[k].1.push(id)))) == total_ids(gs) + 1,
    decreases gs.len(),
{
    let g2 = gs.update(k, (gs[k].0, gs[k].1.push(id)));
    if k == gs.len() - 1 {
        assert(g2.drop_last() =~= gs.drop_last());
    } else {
        lemma_total_update(gs.drop_last(), k, id);
        assert(g2.drop_last() =~= gs.drop_last().update(k, (gs[k].0, gs[k].1.push(id))));
    }
}

/// Grouping loses no thread and mixes no stacks: the groups' frame texts are
/// pairwise distinct, each thread block's id is in the group with its frame
/// text, and the groups hold as many ids as there were blocks.
pub proof fn lemma_each_thread_in_its_group(ths: Seq<(Seq<char>, Seq<char>)>)
    ensures
        forall|a: int, b: int|
            #![trigger group_spec(ths)[a], group_spec(ths)[b]]
            0 <= a < b < group_spec(ths).len() ==> group_spec(ths)[a].0 != group_spec(ths)[b].0,
        forall|k: int|
            #![trigger ths[k]]
            0 <= k < ths.len() ==> exists|j: int|
                0 <= j < group_spec(ths).len() && (#[trigger] group_spec(ths)[j]).0 == ths[k].1
                    && group_spec(ths)[j].1.contains(ths[k].0),
        total_ids(group_spec(ths)) == ths.len(),
    decreases ths.len(),
{
    if ths.len() > 0 {
        let prev = ths.drop_last();
        lemma_each_thread_in_its_group(prev);
        let gs = group_spec(prev);
        let th = ths.last();
        let k = index_from(gs, th.1, 0);
        lemma_index_found(gs, th.1, 0);
        let g2 = group_spec(ths);
        if k >= 0 {
            lemma_total_update(gs, k, th.0);
            assert forall|c: int| #![trigger ths[c]] 0 <= c < ths.len() implies exists|j: int|
                0 <= j < g2.len() && (#[trigger] g2[j]).0 == ths[c].1 && g2[j].1.contains(ths[c].0) by {
                if c == ths.len() - 1 {
                    assert(g2[k].1 == gs[k].1.push(th.0));
                    assert(g2[k].1[gs[k].1.len() as int] == th.0);
                } else {
                    assert(ths[c] == prev[c]);
                    let j = choose|j: int| 0 <= j < gs.len() && (#[trigger] gs[j]).0 == prev[c].1 && gs[j].1.contains(prev[c].0);
                    let m = choose|m: int| 0 <= m < gs[j].1.len() && gs[j].1[m] == prev[c].0;
                    assert(g2[j].1[m] == prev[c].0);
                }
            }
        } else {
            assert(g2.drop_last() =~= gs);
            assert forall|c: int| #![trigger ths[c]] 0 <= c < ths.len() implies exists|j: int|
                0 <= j < g2.len() && (#[trigger] g2[j]).0 == ths[c].1 && g2[j].1.contains(ths[c].0) by {
                if c == ths.len() - 1 {
                    assert(g2[gs.len() as int].1[0] == th.0);
                } else {
                    assert(ths[c] == prev[c]);
                    let j = choose|j: int| 0 <= j < gs.len() && (#[trigger] gs[j]).0 == prev[c].1 && gs[j].1.contains(prev[c].0);
                    let m = choose|m: int| 0 <= m < gs[j].1.len() && gs[j].1[m] == prev[c].0;
                    assert(g2[j] == gs[j]);
                    assert(g2[j].1[m] == prev[c].0);
                }
            }
        }
    }
}

proof fn lemma_counts_one(gs: Seq<GroupView>)
    requires
        forall|k: int| 0 <= k < gs.len() ==> (#[trigger] gs[k]).1.len() == 1,
    ensures
        gs.len() > 0 ==> max_count(gs) == 1,
        with_count(gs, 1) == gs,
        with_count(gs, 0) == Seq::<GroupView>::empty(),
    decreases gs.len(),
{
    if gs.len() > 0 {
        let prev = gs.drop_last();
        assert forall|k: int| 0 <= k < prev.len() implies (#[trigger] prev[k]).1.len() == 1 by {
            assert(prev[k] == gs[k]);
        }
        lemma_counts_one(prev);
        assert(gs.last().1.len() == 1);
        assert(prev.push(gs.last()) =~= gs);
        if prev.len() == 0 {
            assert(max_count(prev) == 0);
        }
    }
}

/// Groups of one thread each are ranked in their own order.
pub(crate) proof fn lemma_rank_ones(gs: Seq<GroupView>)
    requires
        forall|k: int| 0 <= k < gs.len() ==> (#[trigger] gs[k]).1.len() == 1,
    ensures
        rank(gs) == gs,
{
    lemma_counts_one(gs);
    if gs.len() > 0 {
        assert(buckets_down_to(gs, 1, 2) == Seq::<GroupView>::empty());
        assert(buckets_down_to(gs, 1, 1) == Seq::<GroupView>::empty() + with_count(gs, 1));
        assert(Seq::<GroupView>::empty() + gs =~= gs);
        assert(buckets_down_to(gs, 1, 0) == buckets_down_to(gs, 1, 1) + with_count(gs, 0));
        assert(gs + Seq::<GroupView>::empty() =~= gs);
    } else {
        assert(max_count(gs) == 0);
        assert(buckets_down_to(gs, 0, 1) == Seq::<GroupView>::empty());
        assert(with_count(gs, 0) =~= gs);
    }
}

fn copy_strings(v: &Vec<String>) -> (r: Vec<String>)
    ensures
        strings_view(r@) == strings_view(v@),
{
    let mut out: Vec<String> = Vec::new();
    let mut k: usize = 0;
    while k < v.len()
        invariant
            k <= v@.len(),
            strings_view(out@) == strings_view(v@.take(k as int)),
        decreases v@.len() - k,
    {
        let ghost before = out@;
        let s = v[k].clone();
        out.push(s);
        assert(out@ == before.push(s));
        assert(strings_view(out@) =~= strings_view(before).push(s@));
        assert(v@.take(k + 1) =~= v@.take(k as int).push(v@[k as int]));
        assert(strings_view(v@.take(k + 1)) =~= strings_view(v@.take(k as int)).push(v@[k as int]@));
        k = k + 1;
        assert(strings_view(out@) =~= strings_view(v@.take(k as int)));
    }
    assert(v@.take(k as int) =~= v@);
    out
}

fn copy_group(g: &StackGroup) -> (r: StackGroup)
    ensures
        r@ == g@,
{
    StackGroup { frame_text: g.frame_text.clone(), contributor_ids: copy_strings(&g.contributor_ids) }
}

/// Merges threads with identical frame text into groups, in discovery order.
pub fn group_threads(threads: &Vec<ParsedThread>) -> (r: Vec<StackGroup>)
    ensures
        groups_view(r@) == group_spec(threads_view(threads@)),
{
    let ghost ths = threads_view(threads@);
    let mut groups: Vec<StackGroup> = Vec::new();
    let mut i: usize = 0;
    while i < threads.len()
        invariant
            i <= threads@.len(),
            ths == threads_view(threads@),
            groups_view(groups@) == group_spec(ths.take(i as int)),
        decreases threads@.len() - i,
    {
        let ghost gs = groups_view(groups@);
        proof {
            assert(ths.take(i + 1).drop_last() =~= ths.take(i as int));
            assert(ths.take(i + 1).last() == ths[i as int]);
        }
        let th = &threads[i];
        let mut k: usize = 0;
        while k < groups.len() && groups[k].frame_text != th.frames
            invariant
                k <= groups@.len(),
                gs == groups_view(groups@),
                index_from(gs, th.frames@, k as int) == index_from(gs, th.frames@, 0),
            decreases groups@.len() - k,
        {
            k = k + 1;
        }
        if k < groups.len() {
            let mut g = StackGroup { frame_text: String::new(), contributor_ids: Vec::new() };
            groups.set_and_swap(k, &mut g);
            g.contributor_ids.push(th.thread_id.clone());
            assert(strings_view(g.contributor_ids@) =~= gs[k as int].1.push(th.thread_id@));
            groups.set(k, g);
            assert(groups_view(groups@) =~= gs.update(k as int, (gs[k as int].0, gs[k as int].1.push(th.thread_id@))));
        } else {
            let mut ids: Vec<String> = Vec::new();
            ids.push(th.thread_id.clone());
            assert(strings_view(ids@) =~= seq![th.thread_id@]);
            groups.push(StackGroup { frame_text: th.frames.clone(), contributor_ids: ids });
            assert(groups_view(groups@) =~= gs.push((th.frames@, seq![th.thread_id@])));
        }
        i = i + 1;
    }
    assert(ths.take(i as int) =~= ths);
    groups
}

fn bucket(groups: &Vec<StackGroup>, c: usize, out: &mut Vec<StackGroup>)
    ensures
        groups_view(final(out)@) == groups_view(old(out)@) + with_count(groups_view(groups@), c as int),
{
    let ghost gs = groups_view(groups@);
    let ghost start = groups_view(out@);
    let mut i: usize = 0;
    while i < groups.len()
        invariant
            i <= groups@.len(),
            gs == groups_view(groups@),
            groups_view(out@) == start + with_count(gs.take(i as int), c as int),
        decreases groups@.len() - i,
    {
        proof {
            assert(gs.take(i + 1).drop_last() =~= gs.take(i as int));
            assert(gs.take(i + 1).last() == gs[i as int]);
            assert(gs[i as int] == groups@[i as int]@);
            assert(gs[i as int].1.len() == groups@[i as int].contributor_ids@.len());
        }
        if groups[i].contributor_ids.len() == c {
            let ghost before = out@;
            let cg = copy_group(&groups[i]);
            out.push(cg);
            assert(out@ == before.push(cg));
            assert(groups_view(out@) =~= groups_view(before).push(cg@));
            assert(with_count(gs.take(i + 1), c as int) == with_count(gs.take(i as int), c as int).push(gs[i as int]));
            assert(groups_view(out@) =~= start + with_count(gs.take(i + 1), c as int));
        }
        i = i + 1;
    }
    assert(gs.take(i as int) =~= gs);
}

/// Ranks groups by number of threads, largest first; groups with equal counts
/// keep their order.
pub fn rank_groups(groups: &Vec<StackGroup>) -> (r: Vec<StackGroup>)
    ensures
        groups_view(r@) == rank(groups_view(groups@)),
{
    let ghost gs = groups_view(groups@);
    let mut hi: usize = 0;
    let mut i: usize = 0;
    while i < groups.len()
        invariant
            i <= groups@.len(),
            gs == groups_view(groups@),
            hi as int == max_count(gs.take(i as int)),
        decreases groups@.len() - i,
    {
        proof {
            assert(gs.take(i + 1).drop_last() =~= gs.take(i as int));
        }
        if groups[i].contributor_ids.len() > hi {
            hi = groups[i].contributor_ids.len();
        }
        i = i + 1;
    }
    assert(gs.take(i as int) =~= gs);
    let mut out: Vec<StackGroup> = Vec::new();
    let mut c: usize = hi;
    loop
        invariant
            c <= hi,
            gs == groups_view(groups@),
            hi as int == max_count(gs),
            groups_view(out@) == buckets_down_to(gs, hi as int, c + 1),
        decreases c,
    {
        bucket(groups, c, &mut out);
        if c == 0 {
            return out;
        }
        c = c - 1;
    }
}

} // verus!
