//! The decisions of the collection orchestrator: the sampling plan, one
//! target's run of samples, and the aggregation of many targets. The caller
//! performs what each step asks for (run the tool, sleep) and reports back.
use vstd::prelude::*;
use crate::text::{join, decimal, chars_of, string_of, push_all, push_str, push_decimal};
use crate::parse::{StackFormat, strings_view};
use crate::grammar::{has_pid_header, has_gdb_header};
use crate::simplify::{simplified, simplify_stack};
use crate::uniquify::{uniquify_eustack, uniquify_gdb, ranked_groups};
use crate::report::{Palette, report_text, is_terminal};

verus! {

/// The shortest pause between two samples, in milliseconds.
pub const MIN_INTERVAL_MS: u64 = 100;

/// How often to sample a live target: `count` runs, `interval_ms` apart.
#[derive(Clone, Copy, Debug, PartialEq, Eq, Structural)]
pub struct SamplingPlan {
    pub interval_ms: u64,
    pub count: u32,
}

/// The plan for a requested interval (in milliseconds, if any) and count:
/// sampling only with an interval and a count above one, `count` runs at least
/// `MIN_INTERVAL_MS` apart; otherwise a single run.
pub fn sampling_plan(interval_ms: Option<u64>, count: i32) -> (r: SamplingPlan)
    ensures
        interval_ms is None ==> r.count == 1 && r.interval_ms == 0,
        interval_ms is Some && count <= 1 ==> r.count == 1 && r.interval_ms == 0,
        interval_ms is Some && count > 1 ==> r.count == count && r.interval_ms == (if interval_ms->0
            < MIN_INTERVAL_MS {
            MIN_INTERVAL_MS
        } else {
            interval_ms->0
        }),
{
    match interval_ms {
        Some(ms) if count > 1 => {
            let ms = if ms < MIN_INTERVAL_MS { MIN_INTERVAL_MS } else { ms };
            SamplingPlan { interval_ms: ms, count: count as u32 }
        },
        _ => SamplingPlan { interval_ms: 0, count: 1 },
    }
}

/// A number of milliseconds written as seconds: `100` as `0.1`, `1500` as `1.5`,
/// `2000` as `2`.
pub open spec fn seconds_text(ms: u64) -> Seq<char> {
    let whole = decimal((ms / 1000) as nat);
    let f = (ms % 1000) as int;
    if f == 0 {
        whole
    } else if f % 10 != 0 {
        whole + seq!['.', crate::text::digit_char(f / 100), crate::text::digit_char((f / 10) % 10), crate::text::digit_char(f % 10)]
    } else if f % 100 != 0 {
        whole + seq!['.', crate::text::digit_char(f / 100), crate::text::digit_char((f / 10) % 10)]
    } else {
        whole + seq!['.', crate::text::digit_char(f / 100)]
    }
}

fn digit_of(d: u64) -> (c: char)
    requires
        d < 10,
    ensures
        c == crate::text::digit_char(d as int),
{
    if d == 0 { '0' } else if d == 1 { '1' } else if d == 2 { '2' } else if d == 3 { '3' }
    else if d == 4 { '4' } else if d == 5 { '5' } else if d == 6 { '6' } else if d == 7 { '7' }
    else if d == 8 { '8' } else { '9' }
}

/// The line that heads a sampled report: `Interval: <seconds>, Count: <n>`;
/// empty for a single run.
pub open spec fn plan_prefix(p: SamplingPlan) -> Seq<char> {
    if p.count > 1 {
        "Interval: "@ + seconds_text(p.interval_ms) + ", Count: "@ + decimal(p.count as nat) + "\n"@
    } else {
        Seq::empty()
    }
}

pub fn prefix_of(p: &SamplingPlan) -> (r: String)
    ensures
        r@ == plan_prefix(*p),
{
    let mut out: Vec<char> = Vec::new();
    if p.count > 1 {
        push_str(&mut out, "Interval: ");
        push_decimal(&mut out, p.interval_ms / 1000);
        let f = p.interval_ms % 1000;
        if f != 0 {
            out.push('.');
            out.push(digit_of(f / 100));
            if f % 10 != 0 {
                out.push(digit_of((f / 10) % 10));
                out.push(digit_of(f % 10));
            } else if f % 100 != 0 {
                out.push(digit_of((f / 10) % 10));
            }
        }
        push_str(&mut out, ", Count: ");
        push_decimal(&mut out, p.count as u64);
        push_str(&mut out, "\n");
        assert(out@ =~= plan_prefix(*p));
    } else {
        assert(out@ =~= plan_prefix(*p));
    }
    string_of(out.as_slice())
}


/// What running the tool once against a target gave.
pub enum Invocation {
    /// The tool ran to the end.
    Finished { exit_code: i32, stdout: String, stderr: String },
    /// The tool could not be started.
    SpawnFailed(String),
}

/// Exit codes 0 and 1 are success; 1 means the tool wrote warnings.
pub open spec fn exit_ok(code: i32) -> bool {
    code == 0 || code == 1
}

/// What the caller is to do after a run.
pub enum SampleStep {
    /// Sleep this many milliseconds, then run the tool again.
    Sleep(u64),
    /// All runs are in.
    Done,
    /// The target failed, for the reason given; no further runs.
    Failed(String),
}

/// One target's runs, in time order.
pub struct Sampler {
    pub plan: SamplingPlan,
    /// The output of each successful run so far.
    pub outputs: Vec<String>,
    /// What the successful runs wrote to their error stream, where not empty.
    pub warnings: Vec<String>,
}

impl Sampler {
    pub fn new(plan: SamplingPlan) -> (r: Sampler)
        ensures
            r.plan == plan,
            r.outputs@.len() == 0,
            r.warnings@.len() == 0,
    {
        Sampler { plan, outputs: Vec::new(), warnings: Vec::new() }
    }

    /// Takes the result of the next run: keeps a success's output and asks for
    /// a pause before the next run, or says that all runs are in; a failure
    /// ends the target with the tool's error stream (or the spawn error).
    pub fn record(&mut self, inv: Invocation) -> (r: SampleStep)
        requires
            old(self).outputs@.len() < old(self).plan.count,
        ensures
            final(self).plan == old(self).plan,
            match inv {
                Invocation::Finished { exit_code, stdout, stderr } => if exit_ok(exit_code) {
                    &&& strings_view(final(self).outputs@) == strings_view(old(self).outputs@).push(stdout@)
                    &&& strings_view(final(self).warnings@) == if stderr@.len() > 0 {
                        strings_view(old(self).warnings@).push(stderr@)
                    } else {
                        strings_view(old(self).warnings@)
                    }
                    &&& if final(self).outputs@.len() == old(self).plan.count {
                        r is Done
                    } else {
                        r matches SampleStep::Sleep(ms) && ms == old(self).plan.interval_ms
                    }
                } else {
                    &&& r matches SampleStep::Failed(e) && e@ == stderr@
                    &&& final(self).outputs == old(self).outputs
                    &&& final(self).warnings == old(self).warnings
                },
                Invocation::SpawnFailed(msg) => {
                    &&& r matches SampleStep::Failed(e) && e@ == msg@
                    &&& final(self).outputs == old(self).outputs
                    &&& final(self).warnings == old(self).warnings
                },
            },
    {
        match inv {
            Invocation::Finished { exit_code, stdout, stderr } => {
                if exit_code == 0 || exit_code == 1 {
                    let ghost ow = self.warnings@;
                    let ghost oo = self.outputs@;
                    if !stderr.as_str().is_empty() {
                        self.warnings.push(stderr);
                        assert(strings_view(self.warnings@) =~= strings_view(ow).push(stderr@));
                    }
                    self.outputs.push(stdout);
                    assert(strings_view(self.outputs@) =~= strings_view(oo).push(stdout@));
                    if self.outputs.len() as u64 == self.plan.count as u64 {
                        SampleStep::Done
                    } else {
                        SampleStep::Sleep(self.plan.interval_ms)
                    }
                } else {
                    SampleStep::Failed(stderr)
                }
            },
            Invocation::SpawnFailed(msg) => SampleStep::Failed(msg),
        }
    }

    /// The target's outputs joined in time order.
    pub fn text(&self) -> (r: String)
        ensures
            r@ == join(strings_view(self.outputs@), "\n"@),
    {
        join_strings(&self.outputs, "\n")
    }
}

/// The strings joined with `sep` between each two.
pub fn join_strings(v: &Vec<String>, sep: &str) -> (r: String)
    ensures
        r@ == join(strings_view(v@), sep@),
{
    let ghost sv = strings_view(v@);
    let sepc = chars_of(sep);
    let mut out: Vec<char> = Vec::new();
    let mut k: usize = 0;
    while k < v.len()
        invariant
            sv == strings_view(v@),
            sepc@ == sep@,
            k <= v@.len(),
            out@ == join(sv.take(k as int), sep@),
        decreases v@.len() - k,
    {
        proof {
            assert(sv.take(k + 1).drop_last() =~= sv.take(k as int));
            assert(sv.take(k + 1).last() == v@[k as int]@);
        }
        if k > 0 {
            push_all(&mut out, &sepc);
        }
        let c = chars_of(v[k].as_str());
        push_all(&mut out, &c);
        proof {
            assert(out@ =~= join(sv.take(k + 1), sep@));
        }
        k = k + 1;
    }
    assert(sv.take(k as int) =~= sv);
    string_of(out.as_slice())
}


/// How a batch of targets went.
#[derive(Clone, Copy, Debug, PartialEq, Eq, Structural)]
pub enum Verdict {
    /// Nothing was recorded.
    NoTargets,
    /// Every target succeeded.
    AllSucceeded,
    /// Some targets failed and some succeeded: a report with a warning.
    SomeFailed,
    /// Every target failed: no report.
    AllFailed,
}

/// The results of several targets, each kept apart: a failure never touches
/// another target's output.
pub struct Batch {
    /// The successful targets' outputs, in the order they were recorded.
    pub outputs: Vec<String>,
    /// The failed targets' ids, in the order they were recorded.
    pub failed: Vec<String>,
}

impl Batch {
    pub fn new() -> (r: Batch)
        ensures
            r.outputs@.len() == 0,
            r.failed@.len() == 0,
    {
        Batch { outputs: Vec::new(), failed: Vec::new() }
    }

    /// Records one target's result: its output, or its id among the failed.
    pub fn record(&mut self, target: String, result: Result<String, String>)
        ensures
            match result {
                Ok(o) => strings_view(final(self).outputs@) == strings_view(old(self).outputs@).push(o@)
                    && final(self).failed == old(self).failed,
                Err(_) => strings_view(final(self).failed@) == strings_view(old(self).failed@).push(target@)
                    && final(self).outputs == old(self).outputs,
            },
    {
        match result {
            Ok(o) => {
                let ghost before = self.outputs@;
                self.outputs.push(o);
                assert(strings_view(self.outputs@) =~= strings_view(before).push(o@));
            },
            Err(_) => {
                let ghost before = self.failed@;
                self.failed.push(target);
                assert(strings_view(self.failed@) =~= strings_view(before).push(target@));
            },
        }
    }

    pub fn verdict(&self) -> (r: Verdict)
        ensures
            r == (if self.failed@.len() == 0 {
                if self.outputs@.len() == 0 {
                    Verdict::NoTargets
                } else {
                    Verdict::AllSucceeded
                }
            } else if self.outputs@.len() == 0 {
                Verdict::AllFailed
            } else {
                Verdict::SomeFailed
            }),
    {
        if self.failed.len() == 0 {
            if self.outputs.len() == 0 {
                Verdict::NoTargets
            } else {
                Verdict::AllSucceeded
            }
        } else if self.outputs.len() == 0 {
            Verdict::AllFailed
        } else {
            Verdict::SomeFailed
        }
    }

    /// The failed ids, comma-separated.
    pub fn failed_text(&self) -> (r: String)
        ensures
            r@ == join(strings_view(self.failed@), ","@),
    {
        join_strings(&self.failed, ",")
    }

    /// The successful outputs concatenated, one after another on new lines.
    pub fn output_text(&self) -> (r: String)
        ensures
            r@ == join(strings_view(self.outputs@), "\n"@),
    {
        join_strings(&self.outputs, "\n")
    }
}

/// A tool's output as the pipeline takes it in: the debugger's simplified
/// unless raw output was asked for.
pub open spec fn prepared(fmt: StackFormat, raw: bool, t: Seq<char>) -> Seq<char> {
    if fmt == StackFormat::Debugger && !raw {
        simplified(t)
    } else {
        t
    }
}

pub fn prepare_output(fmt: StackFormat, raw: bool, out: String) -> (r: String)
    ensures
        r@ == prepared(fmt, raw, out@),
{
    if fmt == StackFormat::Debugger && !raw {
        simplify_stack(out)
    } else {
        out
    }
}

/// The error that a text without the format's header gives.
pub open spec fn mismatch_error(fmt: StackFormat, t: Seq<char>) -> Seq<char> {
    match fmt {
        StackFormat::Unwinder => "not generated by eu-stack"@,
        StackFormat::Debugger => "not generated by gdb:\n"@ + t,
    }
}

/// A rendering of the text as the report of `fmt`, in some terminal palette.
pub open spec fn rendered_as(fmt: StackFormat, t: Seq<char>, out: Seq<char>) -> bool {
    exists|p: Palette| is_terminal(p) && out == #[trigger] report_text(ranked_groups(fmt, t), p)
}

/// The final report of a collection: the sampling line, then the collected
/// text, grouped and ranked when `unique` is set.
pub fn render_collected(fmt: StackFormat, unique: bool, plan: &SamplingPlan, text: &str) -> (r: Result<
    String,
    String,
>)
    ensures
        !unique ==> (r matches Ok(o) && o@ == plan_prefix(*plan) + text@),
        unique ==> (r is Ok <==> crate::parse::recognized(fmt, text@)),
        unique ==> (r matches Ok(o) ==> exists|body: Seq<char>|
            o@ == plan_prefix(*plan) + body && #[trigger] rendered_as(fmt, text@, body)),
        unique ==> (r matches Err(e) ==> e@ == mismatch_error(fmt, text@)),
{
    let prefix = prefix_of(plan);
    let body = if unique {
        let res = match fmt {
            StackFormat::Unwinder => uniquify_eustack(text),
            StackFormat::Debugger => uniquify_gdb(text),
        };
        match res {
            Ok(b) => {
                assert(rendered_as(fmt, text@, b@));
                b
            },
            Err(e) => {
                return Err(e);
            },
        }
    } else {
        text.to_owned()
    };
    let mut out = prefix;
    let ghost pv = out@;
    out.append(body.as_str());
    assert(out@ == pv + body@);
    Ok(out)
}

/// Content read from files or standard input: simplified unless raw, then
/// grouped in whichever format it is (the unwinder's tried first) when
/// `unique` is set; content in neither format is an error.
pub fn handle_content(contents: &str, raw: bool, unique: bool) -> (r: Result<String, String>)
    ensures
        !unique ==> (r matches Ok(o) && o@ == prepared(StackFormat::Debugger, raw, contents@)),
        unique ==> (r is Ok <==> (has_pid_header(prepared(StackFormat::Debugger, raw, contents@)) || has_gdb_header(
            prepared(StackFormat::Debugger, raw, contents@),
        ))),
        unique && has_pid_header(prepared(StackFormat::Debugger, raw, contents@)) ==> (r matches Ok(o)
            && rendered_as(StackFormat::Unwinder, prepared(StackFormat::Debugger, raw, contents@), o@)),
        unique && !has_pid_header(prepared(StackFormat::Debugger, raw, contents@)) ==> (r matches Ok(o)
            ==> rendered_as(StackFormat::Debugger, prepared(StackFormat::Debugger, raw, contents@), o@)),
        unique ==> (r matches Err(e) ==> e@ == "unrecognized stack format"@),
{
    let text = prepare_output(StackFormat::Debugger, raw, contents.to_owned());
    if !unique {
        return Ok(text);
    }
    match uniquify_eustack(text.as_str()) {
        Ok(o) => {
            assert(rendered_as(StackFormat::Unwinder, text@, o@));
            Ok(o)
        },
        Err(_) => match uniquify_gdb(text.as_str()) {
            Ok(o) => {
                assert(rendered_as(StackFormat::Debugger, text@, o@));
                Ok(o)
            },
            Err(_) => Err("unrecognized stack format".to_owned()),
        },
    }
}

} // verus!
