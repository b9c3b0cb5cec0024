//! The pipeline from raw tool output to a ranked report.
use vstd::prelude::*;
use crate::parse::{StackFormat, ParseError, recognized, threads_of, unparsed_of, parse_threads, strings_view};
use crate::grammar::{has_pid_header, has_gdb_header};
use crate::group::{
    GroupView, group_spec, rank, group_threads, rank_groups, max_count, lemma_distinct_groups, lemma_same_group,
    lemma_rank_ones,
};
use crate::text::{join, decimal};
use crate::report::{Palette, Report, report_text, suspicious_ids, is_terminal, render_report, block, hl_text, ids_text};

verus! {

/// The ranked groups of a text read in the given format.
pub open spec fn ranked_groups(fmt: StackFormat, t: Seq<char>) -> Seq<GroupView> {
    rank(group_spec(threads_of(fmt, t)))
}

/// Parses, groups, ranks and renders a text, keeping the lines it could not
/// read; a format mismatch when the text lacks the format's header.
pub fn uniquify(fmt: StackFormat, input: &str, p: &Palette) -> (r: Result<Report, ParseError>)
    ensures
        r is Ok <==> recognized(fmt, input@),
        r is Err ==> r == Err::<Report, ParseError>(ParseError::FormatMismatch),
        r matches Ok(rep) ==> rep.text@ == report_text(ranked_groups(fmt, input@), *p),
        r matches Ok(rep) ==> strings_view(rep.suspicious@) == suspicious_ids(ranked_groups(fmt, input@)),
        r matches Ok(rep) ==> strings_view(rep.unparsed@) == unparsed_of(fmt, input@),
{
    match parse_threads(fmt, input) {
        Err(e) => Err(e),
        Ok(parsed) => {
            let groups = group_threads(&parsed.threads);
            let ranked = rank_groups(&groups);
            let mut rep = render_report(&ranked, p);
            rep.unparsed = parsed.unparsed;
            Ok(rep)
        },
    }
}

/// The lines of a text that the format could not read (none when the text is
/// not in that format at all).
pub fn unparsed_lines(fmt: StackFormat, input: &str) -> (r: Vec<String>)
    ensures
        recognized(fmt, input@) ==> strings_view(r@) == unparsed_of(fmt, input@),
        !recognized(fmt, input@) ==> r@.len() == 0,
{
    match parse_threads(fmt, input) {
        Ok(parsed) => parsed.unparsed,
        Err(_) => Vec::new(),
    }
}

/// The unwinder's output grouped and ranked, with the terminal's colors; an
/// error when the text has no `PID <n> - process` header.
pub fn uniquify_eustack(input: &str) -> (r: Result<String, String>)
    ensures
        r is Ok <==> has_pid_header(input@),
        r is Err ==> r->Err_0@ == "not generated by eu-stack"@,
        r is Ok ==> exists|p: Palette|
            is_terminal(p) && r->Ok_0@ == #[trigger] report_text(ranked_groups(StackFormat::Unwinder, input@), p),
{
    let p = Palette::terminal();
    match uniquify(StackFormat::Unwinder, input, &p) {
        Ok(rep) => {
            assert(is_terminal(p) && rep.text@ == report_text(ranked_groups(StackFormat::Unwinder, input@), p));
            Ok(rep.text)
        },
        Err(_) => Err("not generated by eu-stack".to_owned()),
    }
}

/// The debugger's output grouped and ranked, with the terminal's colors; an
/// error naming the input when the text has no thread header.
pub fn uniquify_gdb(input: &str) -> (r: Result<String, String>)
    ensures
        r is Ok <==> has_gdb_header(input@),
        r is Err ==> r->Err_0@ == "not generated by gdb:\n"@ + input@,
        r is Ok ==> exists|p: Palette|
            is_terminal(p) && r->Ok_0@ == #[trigger] report_text(ranked_groups(StackFormat::Debugger, input@), p),
{
    let p = Palette::terminal();
    match uniquify(StackFormat::Debugger, input, &p) {
        Ok(rep) => {
            assert(is_terminal(p) && rep.text@ == report_text(ranked_groups(StackFormat::Debugger, input@), p));
            Ok(rep.text)
        },
        Err(_) => {
            let mut e = "not generated by gdb:\n".to_owned();
            e.append(input);
            Err(e)
        },
    }
}


/// Thread blocks with pairwise-distinct frame texts give a report with one
/// block per thread block, in input order, each headed
/// `Number of thread: 1 -- <id>:` and followed by that block's frames.
pub proof fn lemma_distinct_stacks_report(fmt: StackFormat, t: Seq<char>, p: Palette)
    requires
        forall|a: int, b: int|
            0 <= a < b < threads_of(fmt, t).len() ==> threads_of(fmt, t)[a].1 != threads_of(fmt, t)[b].1,
    ensures
        ranked_groups(fmt, t).len() == threads_of(fmt, t).len(),
        forall|k: int|
            0 <= k < threads_of(fmt, t).len() ==> #[trigger] block(ranked_groups(fmt, t)[k], p) == "Number of thread: 1 -- "@
                + threads_of(fmt, t)[k].0 + ":\n"@ + hl_text(threads_of(fmt, t)[k].1, p),
{
    let ths = threads_of(fmt, t);
    lemma_distinct_groups(ths);
    let gs = group_spec(ths);
    assert forall|k: int| 0 <= k < gs.len() implies (#[trigger] gs[k]).1.len() == 1 by {
        assert(gs[k] == (ths[k].1, seq![ths[k].0]));
    }
    lemma_rank_ones(gs);
    reveal_strlit("Number of thread: 1 -- ");
    reveal_strlit("Number of thread: ");
    reveal_strlit(" -- ");
    assert forall|k: int| 0 <= k < ths.len() implies #[trigger] block(ranked_groups(fmt, t)[k], p)
        == "Number of thread: 1 -- "@ + ths[k].0 + ":\n"@ + hl_text(ths[k].1, p) by {
        assert(gs[k] == (ths[k].1, seq![ths[k].0]));
        assert(decimal(1) == seq!['1']);
        assert(ids_text(seq![ths[k].0]) == ths[k].0);
        assert("Number of thread: "@ + decimal(1) + " -- "@ =~= "Number of thread: 1 -- "@);
    }
}

/// Thread blocks that all share one frame text give a report that opens with
/// `Number of thread: N -- <id 1>, ..., <id N>:` (ids in input order) and
/// holds no other group.
pub proof fn lemma_identical_stacks_report(fmt: StackFormat, t: Seq<char>, p: Palette)
    requires
        threads_of(fmt, t).len() >= 1,
        forall|k: int|
            0 <= k < threads_of(fmt, t).len() ==> #[trigger] threads_of(fmt, t)[k].1 == threads_of(fmt, t)[0].1,
    ensures
        ranked_groups(fmt, t).len() == 1,
        ({
            let ids = threads_of(fmt, t).map_values(|th: (Seq<char>, Seq<char>)| th.0);
            let head = "Number of thread: "@ + decimal(threads_of(fmt, t).len()) + " -- "@ + join(ids, ", "@) + ":\n"@;
            head.len() <= report_text(ranked_groups(fmt, t), p).len() && report_text(ranked_groups(fmt, t), p).subrange(
                0,
                head.len() as int,
            ) == head
        }),
{
    let ths = threads_of(fmt, t);
    lemma_same_group(ths);
    let ids = ths.map_values(|th: (Seq<char>, Seq<char>)| th.0);
    let g = (ths[0].1, ids);
    let gs = seq![g];
    lemma_rank_one_group(g);
    let head = "Number of thread: "@ + decimal(ths.len()) + " -- "@ + join(ids, ", "@) + ":\n"@;
    let b = block(g, p);
    assert(b == head + hl_text(g.0, p));
    let blocks = gs.map_values(|x: GroupView| block(x, p));
    assert(blocks =~= seq![b]);
    let r = report_text(gs, p);
    let s = suspicious_ids(gs);
    if s.len() == 0 {
        assert(r == b);
    } else {
        let last = "Suspicious threads: "@ + p.ids_on@ + join(s, ", "@) + p.ids_off@;
        let all = blocks.push(last);
        assert(all.drop_last() =~= seq![b]);
        assert(all.len() == 2);
        assert(all.last() == last);
        assert(join(seq![b], seq!['\n']) == b);
        assert(join(all, seq!['\n']) == join(all.drop_last(), seq!['\n']) + seq!['\n'] + all.last());
        assert(r == b + seq!['\n'] + last);
    }
    assert(r.subrange(0, head.len() as int) =~= head);
}

proof fn lemma_rank_one_group(g: GroupView)
    ensures
        rank(seq![g]) == seq![g],
{
    assert(seq![g].drop_last() =~= Seq::<GroupView>::empty());
    assert(max_count(seq![g].drop_last()) == 0);
    assert(max_count(seq![g]) == g.1.len());
    crate::group::lemma_rank_single(g, 0);
}

} // verus!
