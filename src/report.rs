//! The suspicious-frame detector and the report renderer.
use vstd::prelude::*;
use crate::text::{split_lines, join, decimal, chars_of, lines_of, string_of, slice_of, push_all, push_str, push_decimal};
use crate::group::{StackGroup, GroupView, groups_view};
use colored::Colorize;
use crate::parse::strings_view;

verus! {

/// `c` matches the keyword character `k` ignoring case (simple case folding).
pub open spec fn ci_match(c: char, k: char) -> bool {
    c == k || ('a' <= k && k <= 'z' && (c as u32) + 32 == (k as u32)) || (k == 's' && c == '\u{17f}')
}

/// `w` occurs in `l` at `i`, ignoring case.
pub open spec fn ci_lit_at(l: Seq<char>, i: int, w: Seq<char>) -> bool {
    &&& 0 <= i
    &&& i + w.len() <= l.len()
    &&& forall|m: int| 0 <= m < w.len() ==> ci_match(#[trigger] l[i + m], w[m])
}

/// The words that mark a crash or a fault in a frame.
pub open spec fn keywords() -> Seq<Seq<char>> {
    seq![
        "__assert_fail"@,
        "raise"@,
        "segfault"@,
        "segment fault"@,
        "segmentfault"@,
        "segmentation fault"@,
        "signal handler called"@,
    ]
}

/// A frame line that names a crash or a fault: one of the keywords, or
/// `fatal` followed later by `signals`, in any case.
pub open spec fn suspicious_line(l: Seq<char>) -> bool {
    ||| exists|k: int, i: int| 0 <= k < keywords().len() && #[trigger] ci_lit_at(l, i, keywords()[k])
    ||| exists|i: int, j: int|
        #[trigger] ci_lit_at(l, i, "fatal"@) && i + "fatal"@.len() <= j && #[trigger] ci_lit_at(
            l,
            j,
            "signals"@,
        )
}

/// Some line of the frame text is suspicious.
pub open spec fn suspicious_text(t: Seq<char>) -> bool {
    exists|k: int| 0 <= k < split_lines(t).len() && #[trigger] suspicious_line(split_lines(t)[k])
}

/// How the report sets off what it highlights: a suspicious line is wrapped in
/// `line_on` / `line_off` and followed by `marker`; the closing list of
/// suspicious ids is wrapped in `ids_on` / `ids_off`.
pub struct Palette {
    pub line_on: String,
    pub line_off: String,
    pub marker: String,
    pub ids_on: String,
    pub ids_off: String,
}

/// The marker text set after a suspicious line.
pub open spec fn marker_text() -> Seq<char> {
    "                           <---- HERE "@
}

pub open spec fn hl_line(l: Seq<char>, p: Palette) -> Seq<char> {
    if suspicious_line(l) {
        p.line_on@ + l + p.line_off@ + p.marker@
    } else {
        l
    }
}

/// A frame text with each suspicious line highlighted.
pub open spec fn hl_text(t: Seq<char>, p: Palette) -> Seq<char> {
    join(split_lines(t).map_values(|l: Seq<char>| hl_line(l, p)), seq!['\n'])
}

pub open spec fn ids_text(ids: Seq<Seq<char>>) -> Seq<char> {
    join(ids, ", "@)
}

/// One group as the report shows it: a header with its size and ids, then its frames.
pub open spec fn block(g: GroupView, p: Palette) -> Seq<char> {
    "Number of thread: "@ + decimal(g.1.len()) + " -- "@ + ids_text(g.1) + ":\n"@ + hl_text(g.0, p)
}

/// The ids of each group with a suspicious frame, in the groups' order.
pub open spec fn suspicious_ids(gs: Seq<GroupView>) -> Seq<Seq<char>>
    decreases gs.len(),
{
    if gs.len() == 0 {
        Seq::empty()
    } else if suspicious_text(gs.last().0) {
        suspicious_ids(gs.drop_last()).push(ids_text(gs.last().1))
    } else {
        suspicious_ids(gs.drop_last())
    }
}

/// The report: the groups' blocks in order, then, if any group was suspicious,
/// a line naming the ids of every suspicious group.
pub open spec fn report_text(gs: Seq<GroupView>, p: Palette) -> Seq<char> {
    let blocks = gs.map_values(|g: GroupView| block(g, p));
    let s = suspicious_ids(gs);
    if s.len() == 0 {
        join(blocks, seq!['\n'])
    } else {
        join(blocks.push("Suspicious threads: "@ + p.ids_on@ + join(s, ", "@) + p.ids_off@), seq!['\n'])
    }
}

proof fn lemma_suspicious_listed(gs: Seq<GroupView>, k: int)
    requires
        0 <= k < gs.len(),
        suspicious_text(gs[k].0),
    ensures
        suspicious_ids(gs).contains(ids_text(gs[k].1)),
    decreases gs.len(),
{
    if k < gs.len() - 1 {
        let prev = gs.drop_last();
        assert(prev[k] == gs[k]);
        lemma_suspicious_listed(prev, k);
        let s0 = suspicious_ids(prev);
        let i = choose|i: int| 0 <= i < s0.len() && s0[i] == ids_text(gs[k].1);
        if suspicious_text(gs.last().0) {
            assert(suspicious_ids(gs)[i] == s0[i]);
        }
    } else {
        let s = suspicious_ids(gs);
        assert(s[s.len() - 1] == ids_text(gs[k].1));
    }
}

/// A group with a frame line that says `segmentation fault` (in any case) is
/// marked: that line is set off and followed by the marker, the group's ids
/// are among the suspicious ones, and the report ends with the line that
/// lists them.
pub proof fn lemma_segmentation_fault_marked(gs: Seq<GroupView>, k: int, j: int, i: int, p: Palette)
    requires
        0 <= k < gs.len(),
        0 <= j < split_lines(gs[k].0).len(),
        ci_lit_at(split_lines(gs[k].0)[j], i, "segmentation fault"@),
    ensures
        hl_line(split_lines(gs[k].0)[j], p) == p.line_on@ + split_lines(gs[k].0)[j] + p.line_off@ + p.marker@,
        suspicious_ids(gs).contains(ids_text(gs[k].1)),
        report_text(gs, p) == join(gs.map_values(|g: GroupView| block(g, p)), seq!['\n']) + seq!['\n']
            + "Suspicious threads: "@ + p.ids_on@ + join(suspicious_ids(gs), ", "@) + p.ids_off@,
{
    let l = split_lines(gs[k].0)[j];
    assert(keywords()[5] == "segmentation fault"@);
    assert(ci_lit_at(l, i, keywords()[5]));
    assert(suspicious_line(l));
    assert(suspicious_text(gs[k].0));
    lemma_suspicious_listed(gs, k);
    let blocks = gs.map_values(|g: GroupView| block(g, p));
    let last = "Suspicious threads: "@ + p.ids_on@ + join(suspicious_ids(gs), ", "@) + p.ids_off@;
    let all = blocks.push(last);
    assert(all.drop_last() =~= blocks);
    assert(all.last() == last);
    assert(join(all, seq!['\n']) == join(blocks, seq!['\n']) + seq!['\n'] + last);
    assert(join(blocks, seq!['\n']) + seq!['\n'] + last =~= join(blocks, seq!['\n']) + seq!['\n']
        + "Suspicious threads: "@ + p.ids_on@ + join(suspicious_ids(gs), ", "@) + p.ids_off@);
}

/// A rendered report with the ids of the groups it marked suspicious.
pub struct Report {
    pub text: String,
    pub suspicious: Vec<String>,
    /// Lines of the input that could not be read: each is worth a warning.
    pub unparsed: Vec<String>,
}

pub open spec fn chars_view(v: Seq<Vec<char>>) -> Seq<Seq<char>> {
    v.map_values(|x: Vec<char>| x@)
}

fn ci_char(c: char, k: char) -> (r: bool)
    ensures
        r == ci_match(c, k),
{
    c == k || ('a' <= k && k <= 'z' && (c as u32) + 32 == (k as u32)) || (k == 's' && c == '\u{17f}')
}

fn ci_here(l: &Vec<char>, i: usize, w: &Vec<char>) -> (r: bool)
    ensures
        r == ci_lit_at(l@, i as int, w@),
{
    let n = l.len();
    if i > n || w.len() > n - i {
        return false;
    }
    let mut m: usize = 0;
    while m < w.len()
        invariant
            n == l@.len(),
            i + w@.len() <= n,
            m <= w@.len(),
            forall|q: int| 0 <= q < m ==> ci_match(#[trigger] l@[i + q], w@[q]),
        decreases w@.len() - m,
    {
        if !ci_char(l[i + m], w[m]) {
            return false;
        }
        m = m + 1;
    }
    true
}

/// The first position at or after `from` where `w` occurs ignoring case, if any.
fn find_ci(l: &Vec<char>, from: usize, w: &Vec<char>) -> (r: Option<usize>)
    ensures
        r is Some ==> from <= r->0 && ci_lit_at(l@, r->0 as int, w@),
        r is Some ==> forall|i: int| from <= i < r->0 ==> !#[trigger] ci_lit_at(l@, i, w@),
        r is None ==> forall|i: int| from <= i ==> !#[trigger] ci_lit_at(l@, i, w@),
{
    let mut i = from;
    while i <= l.len()
        invariant
            from <= i,
            forall|q: int| from <= q < i ==> !#[trigger] ci_lit_at(l@, q, w@),
        decreases l@.len() + 1 - i,
    {
        if ci_here(l, i, w) {
            return Some(i);
        }
        if i == l.len() {
            return None;
        }
        i = i + 1;
    }
    None
}

fn keyword_chars() -> (r: Vec<Vec<char>>)
    ensures
        chars_view(r@) == keywords(),
{
    let r = vec![
        chars_of("__assert_fail"),
        chars_of("raise"),
        chars_of("segfault"),
        chars_of("segment fault"),
        chars_of("segmentfault"),
        chars_of("segmentation fault"),
        chars_of("signal handler called"),
    ];
    assert(chars_view(r@) =~= keywords());
    r
}

fn is_suspicious_line(l: &Vec<char>, kws: &Vec<Vec<char>>) -> (r: bool)
    requires
        chars_view(kws@) == keywords(),
    ensures
        r == suspicious_line(l@),
{
    let n = l.len();
    let mut k: usize = 0;
    while k < kws.len()
        invariant
            chars_view(kws@) == keywords(),
            k <= kws@.len(),
            forall|q: int, i: int| 0 <= q < k ==> !#[trigger] ci_lit_at(l@, i, keywords()[q]),
        decreases kws@.len() - k,
    {
        assert(kws@[k as int]@ == keywords()[k as int]);
        if find_ci(l, 0, &kws[k]).is_some() {
            return true;
        }
        proof {
            assert forall|i: int| !#[trigger] ci_lit_at(l@, i, keywords()[k as int]) by {
                if i < 0 {
                }
            }
        }
        k = k + 1;
    }
    let fatal = chars_of("fatal");
    let signals = chars_of("signals");
    match find_ci(l, 0, &fatal) {
        None => false,
        Some(i) => {
            match find_ci(l, i + fatal.len(), &signals) {
                Some(_) => true,
                None => {
                    proof {
                        assert forall|a: int, b: int|
                            #[trigger] ci_lit_at(l@, a, "fatal"@) && a + "fatal"@.len() <= b implies !#[trigger] ci_lit_at(
                                l@,
                                b,
                                "signals"@,
                            ) by {
                            if a < 0 {
                            } else if a < i {
                            }
                        }
                    }
                    false
                },
            }
        },
    }
}

/// Appends the pieces joined with `sep` between each two.
fn push_joined(out: &mut Vec<char>, ls: &Vec<Vec<char>>, sep: &Vec<char>)
    ensures
        final(out)@ == old(out)@ + join(chars_view(ls@), sep@),
{
    let ghost v = chars_view(ls@);
    let mut k: usize = 0;
    while k < ls.len()
        invariant
            v == chars_view(ls@),
            k <= ls@.len(),
            out@ == old(out)@ + join(v.take(k as int), sep@),
        decreases ls@.len() - k,
    {
        proof {
            assert(v.take(k + 1).drop_last() =~= v.take(k as int));
            assert(v.take(k + 1).last() == ls@[k as int]@);
        }
        if k > 0 {
            push_all(out, sep);
        }
        push_all(out, &ls[k]);
        proof {
            assert(out@ =~= old(out)@ + join(v.take(k + 1), sep@));
        }
        k = k + 1;
    }
    assert(v.take(k as int) =~= v);
}

/// Highlights the suspicious lines of a frame text; says whether there was one.
fn highlight(t: &String, p: &Palette, kws: &Vec<Vec<char>>) -> (r: (Vec<char>, bool))
    requires
        chars_view(kws@) == keywords(),
    ensures
        r.0@ == hl_text(t@, *p),
        r.1 == suspicious_text(t@),
{
    let cs = chars_of(t.as_str());
    let lines = lines_of(&cs);
    let ghost ls = split_lines(t@);
    let on = chars_of(p.line_on.as_str());
    let off = chars_of(p.line_off.as_str());
    let mark = chars_of(p.marker.as_str());
    let mut outs: Vec<Vec<char>> = Vec::new();
    let mut any = false;
    let mut k: usize = 0;
    while k < lines.len()
        invariant
            chars_view(kws@) == keywords(),
            lines@.len() == ls.len(),
            forall|m: int| 0 <= m < lines@.len() ==> #[trigger] lines@[m]@ == ls[m],
            on@ == p.line_on@,
            off@ == p.line_off@,
            mark@ == p.marker@,
            k <= lines@.len(),
            chars_view(outs@) == ls.take(k as int).map_values(|l: Seq<char>| hl_line(l, *p)),
            any == exists|m: int| 0 <= m < k && #[trigger] suspicious_line(ls[m]),
        decreases lines@.len() - k,
    {
        let l = &lines[k];
        assert(l@ == ls[k as int]);
        let mut o: Vec<char> = Vec::new();
        if is_suspicious_line(l, kws) {
            push_all(&mut o, &on);
            push_all(&mut o, l);
            push_all(&mut o, &off);
            push_all(&mut o, &mark);
            any = true;
            assert(o@ =~= p.line_on@ + l@ + p.line_off@ + p.marker@);
        } else {
            push_all(&mut o, l);
            assert(o@ =~= l@);
        }
        assert(o@ == hl_line(ls[k as int], *p));
        let ghost before = outs@;
        let ghost oo = o@;
        outs.push(o);
        assert(chars_view(outs@) =~= chars_view(before).push(oo));
        assert(ls.take(k + 1).map_values(|l: Seq<char>| hl_line(l, *p)) =~= ls.take(k as int).map_values(
            |l: Seq<char>| hl_line(l, *p),
        ).push(hl_line(ls[k as int], *p)));
        assert(chars_view(outs@) =~= ls.take(k + 1).map_values(|l: Seq<char>| hl_line(l, *p)));
        k = k + 1;
    }
    assert(ls.take(k as int) =~= ls);
    let mut r: Vec<char> = Vec::new();
    let nl = vec!['\n'];
    assert(nl@ =~= seq!['\n']);
    push_joined(&mut r, &outs, &nl);
    assert(chars_view(outs@) =~= split_lines(t@).map_values(|l: Seq<char>| hl_line(l, *p)));
    assert(r@ =~= hl_text(t@, *p));
    (r, any)
}


fn ids_chars(ids: &Vec<String>) -> (r: Vec<Vec<char>>)
    ensures
        chars_view(r@) == strings_view(ids@),
{
    let mut out: Vec<Vec<char>> = Vec::new();
    let mut k: usize = 0;
    while k < ids.len()
        invariant
            k <= ids@.len(),
            chars_view(out@) == strings_view(ids@.take(k as int)),
        decreases ids@.len() - k,
    {
        let ghost before = out@;
        let c = chars_of(ids[k].as_str());
        let ghost cc = c@;
        out.push(c);
        assert(chars_view(out@) =~= chars_view(before).push(cc));
        assert(strings_view(ids@.take(k + 1)) =~= strings_view(ids@.take(k as int)).push(ids@[k as int]@));
        k = k + 1;
    }
    assert(ids@.take(k as int) =~= ids@);
    out
}

/// Renders ranked groups: a block per group, suspicious lines set off as the
/// palette says, and a closing line with the ids of the suspicious groups.
pub fn render_report(groups: &Vec<StackGroup>, p: &Palette) -> (r: Report)
    ensures
        r.text@ == report_text(groups_view(groups@), *p),
        strings_view(r.suspicious@) == suspicious_ids(groups_view(groups@)),
        r.unparsed@.len() == 0,
{
    let kws = keyword_chars();
    let ghost gs = groups_view(groups@);
    let comma = chars_of(", ");
    let mut blocks: Vec<Vec<char>> = Vec::new();
    let mut sus: Vec<String> = Vec::new();
    let mut k: usize = 0;
    while k < groups.len()
        invariant
            chars_view(kws@) == keywords(),
            gs == groups_view(groups@),
            comma@ == ", "@,
            k <= groups@.len(),
            chars_view(blocks@) == gs.take(k as int).map_values(|g: GroupView| block(g, *p)),
            strings_view(sus@) == suspicious_ids(gs.take(k as int)),
        decreases groups@.len() - k,
    {
        let g = &groups[k];
        assert(gs[k as int] == g@);
        let mut b: Vec<char> = Vec::new();
        push_str(&mut b, "Number of thread: ");
        push_decimal(&mut b, g.contributor_ids.len() as u64);
        push_str(&mut b, " -- ");
        let idc = ids_chars(&g.contributor_ids);
        let mut idt: Vec<char> = Vec::new();
        push_joined(&mut idt, &idc, &comma);
        push_all(&mut b, &idt);
        push_str(&mut b, ":\n");
        let (h, any) = highlight(&g.frame_text, p, &kws);
        push_all(&mut b, &h);
        assert(b@ =~= block(g@, *p));
        let ghost before = blocks@;
        let ghost bb = b@;
        blocks.push(b);
        assert(chars_view(blocks@) =~= chars_view(before).push(bb));
        assert(gs.take(k + 1).map_values(|g: GroupView| block(g, *p)) =~= gs.take(k as int).map_values(
            |g: GroupView| block(g, *p),
        ).push(block(gs[k as int], *p)));
        proof {
            assert(gs.take(k + 1).drop_last() =~= gs.take(k as int));
            assert(gs.take(k + 1).last() == gs[k as int]);
        }
        if any {
            let ghost sb = sus@;
            let ids_s = string_of(idt.as_slice());
            sus.push(ids_s);
            assert(strings_view(sus@) =~= strings_view(sb).push(ids_text(g@.1)));
        }
        k = k + 1;
    }
    assert(gs.take(k as int) =~= gs);
    let ghost blocks_v = gs.map_values(|g: GroupView| block(g, *p));
    let sus_text = if sus.len() > 0 {
        let mut last: Vec<char> = Vec::new();
        push_str(&mut last, "Suspicious threads: ");
        push_str(&mut last, p.ids_on.as_str());
        let sc = ids_chars(&sus);
        push_joined(&mut last, &sc, &comma);
        push_str(&mut last, p.ids_off.as_str());
        let ghost bl = blocks@;
        let ghost lv = last@;
        blocks.push(last);
        assert(chars_view(blocks@) =~= chars_view(bl).push(lv));
        true
    } else {
        false
    };
    let mut out: Vec<char> = Vec::new();
    let nl = vec!['\n'];
    assert(nl@ =~= seq!['\n']);
    push_joined(&mut out, &blocks, &nl);
    assert(out@ =~= report_text(gs, *p));
    Report { text: string_of(out.as_slice()), suspicious: sus, unparsed: Vec::new() }
}

pub open spec fn ansi_blue() -> Seq<char> {
    "\u{1b}[34m"@
}

pub open spec fn ansi_red() -> Seq<char> {
    "\u{1b}[31m"@
}

pub open spec fn ansi_red_bold() -> Seq<char> {
    "\u{1b}[1;31m"@
}

pub open spec fn ansi_reset() -> Seq<char> {
    "\u{1b}[0m"@
}

/// Relies on colored's `Colorize::blue` and the `Display` of `ColoredString`:
/// with colors off the text comes back as it is; with colors on it is wrapped
/// in `ESC[34m` ... `ESC[0m` (a text without ESC is not otherwise changed).
#[verifier::external_body]
fn paint_blue(s: &str) -> (r: String)
    ensures
        !s@.contains('\u{1b}') ==> (r@ == s@ || r@ == ansi_blue() + s@ + ansi_reset()),
{
    s.blue().to_string()
}

/// Relies on colored's `Colorize::red` and the `Display` of `ColoredString`:
/// the text as it is, or wrapped in `ESC[31m` ... `ESC[0m`.
#[verifier::external_body]
fn paint_red(s: &str) -> (r: String)
    ensures
        !s@.contains('\u{1b}') ==> (r@ == s@ || r@ == ansi_red() + s@ + ansi_reset()),
{
    s.red().to_string()
}

/// Relies on colored's `Colorize::red`, `Colorize::bold` and the `Display` of
/// `ColoredString`: the text as it is, or wrapped in `ESC[1;31m` ... `ESC[0m`.
#[verifier::external_body]
fn paint_red_bold(s: &str) -> (r: String)
    ensures
        !s@.contains('\u{1b}') ==> (r@ == s@ || r@ == ansi_red_bold() + s@ + ansi_reset()),
{
    s.red().bold().to_string()
}

/// A palette that sets nothing off but the marker text.
pub open spec fn is_plain(p: Palette) -> bool {
    &&& p.line_on@ == Seq::<char>::empty()
    &&& p.line_off@ == Seq::<char>::empty()
    &&& p.marker@ == marker_text()
    &&& p.ids_on@ == Seq::<char>::empty()
    &&& p.ids_off@ == Seq::<char>::empty()
}

/// A palette that the terminal's color setting may give: each style either
/// absent or as colored writes it (lines blue, the marker red and bold, the
/// closing ids red).
pub open spec fn is_terminal(p: Palette) -> bool {
    &&& (p.line_on@ == Seq::<char>::empty() && p.line_off@ == Seq::<char>::empty()) || (p.line_on@
        == ansi_blue() && p.line_off@ == ansi_reset())
    &&& p.marker@ == marker_text() || p.marker@ == ansi_red_bold() + marker_text() + ansi_reset()
    &&& (p.ids_on@ == Seq::<char>::empty() && p.ids_off@ == Seq::<char>::empty()) || (p.ids_on@
        == ansi_red() && p.ids_off@ == ansi_reset())
}

impl Palette {
    /// No colors: only the marker text after a suspicious line.
    pub fn plain() -> (r: Palette)
        ensures
            is_plain(r),
    {
        Palette {
            line_on: String::new(),
            line_off: String::new(),
            marker: "                           <---- HERE ".to_owned(),
            ids_on: String::new(),
            ids_off: String::new(),
        }
    }

    /// The palette whose styles are what painting the probe text `x` gave:
    /// the characters before the probe's first `x` open a style, those after
    /// it close it. The marker is taken as it is.
    pub fn palette_from(line_probe: &String, ids_probe: &String, marker: String) -> (r: Palette)
        ensures
            forall|pre: Seq<char>, post: Seq<char>|
                #[trigger] around_x(line_probe@, pre, post) ==> r.line_on@ == pre && r.line_off@ == post,
            forall|pre: Seq<char>, post: Seq<char>|
                #[trigger] around_x(ids_probe@, pre, post) ==> r.ids_on@ == pre && r.ids_off@ == post,
            r.marker == marker,
    {
        let (line_on, line_off) = split_probe(line_probe);
        let (ids_on, ids_off) = split_probe(ids_probe);
        Palette { line_on, line_off, marker, ids_on, ids_off }
    }

    /// The palette that colored gives on this terminal.
    pub fn terminal() -> (r: Palette)
        ensures
            is_terminal(r),
    {
        proof {
            reveal_strlit("x");
            reveal_strlit("                           <---- HERE ");
            reveal_strlit("\u{1b}[34m");
            reveal_strlit("\u{1b}[31m");
            reveal_strlit("\u{1b}[0m");
        }
        let blue = paint_blue("x");
        let red = paint_red("x");
        let marker = paint_red_bold("                           <---- HERE ");
        proof {
            let e = Seq::<char>::empty();
            assert(!ansi_blue().contains('x'));
            assert(!ansi_red().contains('x'));
            assert(!e.contains('x'));
            if blue@ == "x"@ {
                assert(blue@ =~= e + seq!['x'] + e);
                assert(around_x(blue@, e, e));
            } else {
                assert(blue@ =~= ansi_blue() + seq!['x'] + ansi_reset());
                assert(around_x(blue@, ansi_blue(), ansi_reset()));
            }
            if red@ == "x"@ {
                assert(red@ =~= e + seq!['x'] + e);
                assert(around_x(red@, e, e));
            } else {
                assert(red@ =~= ansi_red() + seq!['x'] + ansi_reset());
                assert(around_x(red@, ansi_red(), ansi_reset()));
            }
        }
        Palette::palette_from(&blue, &red, marker)
    }
}

/// `s` is `pre`, then the first `x` of `s`, then `post`.
pub open spec fn around_x(s: Seq<char>, pre: Seq<char>, post: Seq<char>) -> bool {
    s == pre + seq!['x'] + post && !pre.contains('x')
}

/// The characters before and after the first `x` of a probe (both empty if
/// there is none).
fn split_probe(probe: &String) -> (r: (String, String))
    ensures
        forall|pre: Seq<char>, post: Seq<char>|
            #[trigger] around_x(probe@, pre, post) ==> r.0@ == pre && r.1@ == post,
{
    let cs = chars_of(probe.as_str());
    let mut k: usize = 0;
    while k < cs.len()
        invariant
            cs@ == probe@,
            k <= cs@.len(),
            forall|j: int| 0 <= j < k ==> cs@[j] != 'x',
        decreases cs@.len() - k,
    {
        if cs[k] == 'x' {
            let pre = slice_of(&cs, 0, k);
            let post = slice_of(&cs, k + 1, cs.len());
            proof {
                assert forall|p: Seq<char>, q: Seq<char>| #[trigger] around_x(probe@, p, q) implies pre@ == p
                    && post@ == q by {
                    if p.len() < k {
                        assert(probe@[p.len() as int] == 'x');
                    } else if p.len() > k {
                        assert(p[k as int] == probe@[k as int]);
                        assert(p.contains('x'));
                    }
                    assert(pre@ =~= p);
                    assert(post@ =~= q);
                }
            }
            return (string_of(pre.as_slice()), string_of(post.as_slice()));
        }
        k = k + 1;
    }
    proof {
        assert forall|p: Seq<char>, q: Seq<char>| #[trigger] around_x(probe@, p, q) implies false by {
            assert(probe@[p.len() as int] == 'x');
        }
    }
    (String::new(), String::new())
}

} // verus!
