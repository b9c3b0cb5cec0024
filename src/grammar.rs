//! The line grammars of the two stack formats: headers, frame entries and the
//! lines that are skipped. Each pattern is a spec function over characters and
//! an executable recognizer proved equal to it.
use vstd::prelude::*;
use crate::text::{is_ws, is_digit, ws, digit, slice_of};

verus! {

/// `w` occurs in `t` at position `i`.
pub open spec fn lit_at(t: Seq<char>, i: int, w: Seq<char>) -> bool {
    0 <= i && i + w.len() <= t.len() && t.subrange(i, i + w.len()) == w
}

/// The end of the run of whitespace that starts at `i`.
pub open spec fn ws_end(t: Seq<char>, i: int) -> int
    decreases t.len() - i,
{
    if 0 <= i < t.len() && is_ws(t[i]) {
        ws_end(t, i + 1)
    } else {
        i
    }
}

/// The end of the run of digits that starts at `i`.
pub open spec fn digit_end(t: Seq<char>, i: int) -> int
    decreases t.len() - i,
{
    if 0 <= i < t.len() && is_digit(t[i]) {
        digit_end(t, i + 1)
    } else {
        i
    }
}

/// No `'\n'` among `t[i..j]`.
pub open spec fn no_newline(t: Seq<char>, i: int, j: int) -> bool {
    forall|k: int| i <= k < j ==> t[k] != '\n'
}

pub open spec fn word_pid() -> Seq<char> {
    seq!['P', 'I', 'D']
}

pub open spec fn word_process() -> Seq<char> {
    seq!['p', 'r', 'o', 'c', 'e', 's', 's']
}

pub open spec fn word_tid() -> Seq<char> {
    seq!['T', 'I', 'D']
}

pub open spec fn word_thread() -> Seq<char> {
    seq!['T', 'h', 'r', 'e', 'a', 'd']
}

pub open spec fn word_lwp() -> Seq<char> {
    seq!['(', 'L', 'W', 'P']
}

pub open spec fn word_close() -> Seq<char> {
    seq![')', ':']
}

pub open spec fn word_inferior() -> Seq<char> {
    seq!['I', 'n', 'f', 'e', 'r', 'i', 'o', 'r']
}

pub open spec fn word_detached() -> Seq<char> {
    seq!['d', 'e', 't', 'a', 'c', 'h', 'e', 'd']
}

pub proof fn lemma_ws_end_bounds(t: Seq<char>, i: int)
    requires
        0 <= i <= t.len(),
    ensures
        i <= ws_end(t, i) <= t.len(),
        ws_end(t, i) < t.len() ==> !is_ws(t[ws_end(t, i)]),
        forall|k: int| i <= k < ws_end(t, i) ==> is_ws(#[trigger] t[k]),
    decreases t.len() - i,
{
    if i < t.len() && is_ws(t[i]) {
        lemma_ws_end_bounds(t, i + 1);
    }
}

/// Whether `w` occurs in `t` at `i`.
pub fn has_lit(t: &Vec<char>, i: usize, w: &[char]) -> (r: bool)
    ensures
        r == lit_at(t@, i as int, w@),
{
    if i > t.len() || w.len() > t.len() - i {
        return false;
    }
    let n = t.len();
    let mut k: usize = 0;
    while k < w.len()
        invariant
            n == t@.len(),
            i + w@.len() <= n,
            k <= w@.len(),
            forall|m: int| 0 <= m < k ==> t@[i + m] == w@[m],
        decreases w@.len() - k,
    {
        if t[i + k] != w[k] {
            assert(t@.subrange(i as int, i + w@.len())[k as int] != w@[k as int]);
            return false;
        }
        k = k + 1;
    }
    assert(t@.subrange(i as int, i + w@.len()) =~= w@);
    true
}

pub fn skip_ws(t: &Vec<char>, i: usize) -> (r: usize)
    requires
        i <= t@.len(),
    ensures
        r as int == ws_end(t@, i as int),
        i <= r <= t@.len(),
{
    let mut j = i;
    while j < t.len() && ws(t[j])
        invariant
            i <= j <= t@.len(),
            ws_end(t@, j as int) == ws_end(t@, i as int),
        decreases t@.len() - j,
    {
        j = j + 1;
    }
    j
}

pub fn skip_digits(t: &Vec<char>, i: usize) -> (r: usize)
    requires
        i <= t@.len(),
    ensures
        r as int == digit_end(t@, i as int),
        i <= r <= t@.len(),
{
    let mut j = i;
    while j < t.len() && digit(t[j])
        invariant
            i <= j <= t@.len(),
            digit_end(t@, j as int) == digit_end(t@, i as int),
        decreases t@.len() - j,
    {
        j = j + 1;
    }
    j
}


/// `PID <digits> - process` starts at `i`: the unwinder's process header.
pub open spec fn pid_header_at(t: Seq<char>, i: int) -> bool {
    &&& lit_at(t, i, word_pid())
    &&& ws_end(t, i + 3) > i + 3
    &&& digit_end(t, ws_end(t, i + 3)) > ws_end(t, i + 3)
    &&& ws_end(t, digit_end(t, ws_end(t, i + 3))) > digit_end(t, ws_end(t, i + 3))
    &&& lit_at(t, ws_end(t, digit_end(t, ws_end(t, i + 3))), seq!['-'])
    &&& ws_end(t, ws_end(t, digit_end(t, ws_end(t, i + 3))) + 1) > ws_end(
        t,
        digit_end(t, ws_end(t, i + 3)),
    ) + 1
    &&& lit_at(t, ws_end(t, ws_end(t, digit_end(t, ws_end(t, i + 3))) + 1), word_process())
}

/// The text holds a process header somewhere (whitespace may span lines).
pub open spec fn has_pid_header(t: Seq<char>) -> bool {
    exists|i: int| 0 <= i < t.len() && #[trigger] pid_header_at(t, i)
}

/// `TID <digits>:` starts at `i`: the unwinder's thread header.
pub open spec fn tid_at(t: Seq<char>, i: int) -> bool {
    &&& lit_at(t, i, word_tid())
    &&& ws_end(t, i + 3) > i + 3
    &&& digit_end(t, ws_end(t, i + 3)) > ws_end(t, i + 3)
    &&& lit_at(t, digit_end(t, ws_end(t, i + 3)), seq![':'])
}

/// The first position at or after `i` where a thread header starts, or -1.
pub open spec fn first_tid_from(t: Seq<char>, i: int) -> int
    decreases t.len() - i,
{
    if i < 0 || i >= t.len() {
        -1
    } else if tid_at(t, i) {
        i
    } else {
        first_tid_from(t, i + 1)
    }
}

/// The thread id that an unwinder thread-header line opens, if it is one.
pub open spec fn eu_open(l: Seq<char>) -> Option<Seq<char>> {
    let i = first_tid_from(l, 0);
    if i >= 0 {
        Some(l.subrange(ws_end(l, i + 3), digit_end(l, ws_end(l, i + 3))))
    } else {
        None
    }
}

/// `#<digits> <spaces>0x...` at the start of the line: an unwinder frame.
pub open spec fn eu_entry(l: Seq<char>) -> bool {
    &&& l.len() > 0
    &&& l[0] == '#'
    &&& digit_end(l, 1) > 1
    &&& ws_end(l, digit_end(l, 1)) > digit_end(l, 1)
    &&& lit_at(l, ws_end(l, digit_end(l, 1)), seq!['0', 'x'])
}

/// Some `"):"` at or after `g` on the same line.
pub open spec fn closes_after(t: Seq<char>, g: int) -> bool {
    exists|h: int| g <= h && no_newline(t, g, h) && #[trigger] lit_at(t, h, word_close())
}

/// `(LWP <digits> ... ):` starts at `j`.
pub open spec fn lwp_at(t: Seq<char>, j: int) -> bool {
    &&& lit_at(t, j, word_lwp())
    &&& ws_end(t, j + 4) > j + 4
    &&& digit_end(t, ws_end(t, j + 4)) > ws_end(t, j + 4)
    &&& closes_after(t, digit_end(t, ws_end(t, j + 4)))
}

/// The light-weight process number that an `lwp_at` at `j` names.
pub open spec fn lwp_digits(t: Seq<char>, j: int) -> Seq<char> {
    t.subrange(ws_end(t, j + 4), digit_end(t, ws_end(t, j + 4)))
}

/// `Thread <digits> ... (LWP <digits> ...):` starts at `i`: the debugger's thread header.
pub open spec fn gdb_header_at(t: Seq<char>, i: int) -> bool {
    &&& lit_at(t, i, word_thread())
    &&& ws_end(t, i + 6) > i + 6
    &&& digit_end(t, ws_end(t, i + 6)) > ws_end(t, i + 6)
    &&& ws_end(t, digit_end(t, ws_end(t, i + 6))) > digit_end(t, ws_end(t, i + 6))
    &&& exists|j: int|
        ws_end(t, digit_end(t, ws_end(t, i + 6))) <= j && no_newline(
            t,
            ws_end(t, digit_end(t, ws_end(t, i + 6))),
            j,
        ) && #[trigger] lwp_at(t, j)
}

/// The text holds a debugger thread header somewhere.
pub open spec fn has_gdb_header(t: Seq<char>) -> bool {
    exists|i: int| 0 <= i < t.len() && #[trigger] gdb_header_at(t, i)
}

/// The last position at or before `k` where `(LWP <digits> ... ):` starts, or -1.
pub open spec fn last_lwp(t: Seq<char>, k: int) -> int
    decreases k + 1,
{
    if k < 0 {
        -1
    } else if lwp_at(t, k) {
        k
    } else {
        last_lwp(t, k - 1)
    }
}

/// The thread id that a debugger thread-header line opens, if it is one: the
/// number after the line's last `(LWP`.
pub open spec fn gdb_open(l: Seq<char>) -> Option<Seq<char>> {
    if has_gdb_header(l) {
        Some(lwp_digits(l, last_lwp(l, l.len() - 1)))
    } else {
        None
    }
}

/// A `#` followed by digits and whitespace somewhere in the line: a debugger frame.
pub open spec fn gdb_entry_at(l: Seq<char>, i: int) -> bool {
    &&& 0 <= i < l.len()
    &&& l[i] == '#'
    &&& digit_end(l, ws_end(l, i + 1)) > ws_end(l, i + 1)
    &&& digit_end(l, ws_end(l, i + 1)) < l.len()
    &&& is_ws(l[digit_end(l, ws_end(l, i + 1))])
}

pub open spec fn gdb_entry(l: Seq<char>) -> bool {
    exists|i: int| #[trigger] gdb_entry_at(l, i)
}

/// `Inferior ... detached`: the debugger's closing line.
pub open spec fn gdb_detach(l: Seq<char>) -> bool {
    exists|i: int, j: int|
        #[trigger] lit_at(l, i, word_inferior()) && i + 8 <= j && #[trigger] lit_at(
            l,
            j,
            word_detached(),
        )
}

fn pid_header_here(t: &Vec<char>, i: usize) -> (r: bool)
    requires
        i < t@.len(),
    ensures
        r == pid_header_at(t@, i as int),
{
    let n = t.len();
    let w = ['P', 'I', 'D'];
    assert(w@ =~= word_pid());
    if !has_lit(t, i, &w) {
        return false;
    }
    let a = skip_ws(t, i + 3);
    if a == i + 3 {
        return false;
    }
    let b = skip_digits(t, a);
    if b == a {
        return false;
    }
    let c = skip_ws(t, b);
    let w = ['-'];
    assert(w@ =~= seq!['-']);
    if c == b || !has_lit(t, c, &w) {
        return false;
    }
    let d = skip_ws(t, c + 1);
    let w = ['p', 'r', 'o', 'c', 'e', 's', 's'];
    assert(w@ =~= word_process());
    d > c + 1 && has_lit(t, d, &w)
}

/// Whether the text holds an unwinder process header.
pub fn find_pid_header(t: &Vec<char>) -> (r: bool)
    ensures
        r == has_pid_header(t@),
{
    let mut i: usize = 0;
    while i < t.len()
        invariant
            i <= t@.len(),
            forall|k: int| 0 <= k < i ==> !#[trigger] pid_header_at(t@, k),
        decreases t@.len() - i,
    {
        if pid_header_here(t, i) {
            return true;
        }
        i = i + 1;
    }
    false
}

fn tid_here(t: &Vec<char>, i: usize) -> (r: bool)
    requires
        i < t@.len(),
    ensures
        r == tid_at(t@, i as int),
{
    let n = t.len();
    let w = ['T', 'I', 'D'];
    assert(w@ =~= word_tid());
    if !has_lit(t, i, &w) {
        return false;
    }
    let a = skip_ws(t, i + 3);
    if a == i + 3 {
        return false;
    }
    let b = skip_digits(t, a);
    let w = [':'];
    assert(w@ =~= seq![':']);
    b > a && has_lit(t, b, &w)
}

/// The thread id opened by an unwinder thread-header line.
pub fn eu_open_of(l: &Vec<char>) -> (r: Option<Vec<char>>)
    ensures
        r is Some <==> eu_open(l@) is Some,
        r is Some ==> r->0@ == eu_open(l@)->0,
{
    let mut i: usize = 0;
    while i < l.len()
        invariant
            i <= l@.len(),
            first_tid_from(l@, 0) == first_tid_from(l@, i as int),
        decreases l@.len() - i,
    {
        if tid_here(l, i) {
            let a = skip_ws(l, i + 3);
            let b = skip_digits(l, a);
            return Some(slice_of(l, a, b));
        }
        i = i + 1;
    }
    None
}


/// Whether the line is an unwinder frame.
pub fn eu_entry_of(l: &Vec<char>) -> (r: bool)
    ensures
        r == eu_entry(l@),
{
    let n = l.len();
    if n == 0 || l[0] != '#' {
        return false;
    }
    let b = skip_digits(l, 1);
    if b == 1 {
        return false;
    }
    let c = skip_ws(l, b);
    let w = ['0', 'x'];
    assert(w@ =~= seq!['0', 'x']);
    c > b && has_lit(l, c, &w)
}

fn closes_here(t: &Vec<char>, g: usize) -> (r: bool)
    requires
        g <= t@.len(),
    ensures
        r == closes_after(t@, g as int),
{
    let mut h = g;
    while h < t.len()
        invariant
            g <= h <= t@.len(),
            no_newline(t@, g as int, h as int),
            forall|k: int| g <= k < h ==> !#[trigger] lit_at(t@, k, word_close()),
        decreases t@.len() - h,
    {
        let w = [')', ':'];
        assert(w@ =~= word_close());
        if has_lit(t, h, &w) {
            assert(lit_at(t@, h as int, word_close()));
            return true;
        }
        if t[h] == '\n' {
            proof {
                assert forall|k: int| g <= k && no_newline(t@, g as int, k) implies !#[trigger] lit_at(
                    t@,
                    k,
                    word_close(),
                ) by {
                    if k > h {
                        assert(t@[h as int] != '\n');
                    }
                }
            }
            return false;
        }
        h = h + 1;
    }
    false
}

fn lwp_here(t: &Vec<char>, j: usize) -> (r: bool)
    requires
        j <= t@.len(),
    ensures
        r == lwp_at(t@, j as int),
{
    let n = t.len();
    let w = ['(', 'L', 'W', 'P'];
    assert(w@ =~= word_lwp());
    if !has_lit(t, j, &w) {
        return false;
    }
    let f = skip_ws(t, j + 4);
    if f == j + 4 {
        return false;
    }
    let g = skip_digits(t, f);
    g > f && closes_here(t, g)
}

#[verifier::loop_isolation(false)]
fn gdb_header_here(t: &Vec<char>, i: usize) -> (r: bool)
    requires
        i < t@.len(),
    ensures
        r == gdb_header_at(t@, i as int),
{
    let n = t.len();
    let w = ['T', 'h', 'r', 'e', 'a', 'd'];
    assert(w@ =~= word_thread());
    if !has_lit(t, i, &w) {
        return false;
    }
    let a = skip_ws(t, i + 6);
    if a == i + 6 {
        return false;
    }
    let b = skip_digits(t, a);
    if b == a {
        return false;
    }
    let c = skip_ws(t, b);
    if c == b {
        return false;
    }
    let mut j = c;
    while j < t.len()
        invariant
            c <= j <= t@.len(),
            c as int == ws_end(t@, digit_end(t@, ws_end(t@, i + 6))),
            no_newline(t@, c as int, j as int),
            forall|k: int| c <= k < j ==> !#[trigger] lwp_at(t@, k),
        decreases t@.len() - j,
    {
        if lwp_here(t, j) {
            assert(lwp_at(t@, j as int));
            return true;
        }
        if t[j] == '\n' {
            proof {
                assert forall|k: int| c <= k && no_newline(t@, c as int, k) implies !#[trigger] lwp_at(
                    t@,
                    k,
                ) by {
                    if k > j {
                        assert(t@[j as int] != '\n');
                    }
                }
            }
            return false;
        }
        j = j + 1;
    }
    assert forall|k: int| c <= k && no_newline(t@, c as int, k) implies !#[trigger] lwp_at(t@, k) by {
        if k >= j {
            assert(!lit_at(t@, k, word_lwp()));
        }
    }
    false
}

/// Whether the text holds a debugger thread header.
pub fn find_gdb_header(t: &Vec<char>) -> (r: bool)
    ensures
        r == has_gdb_header(t@),
{
    let mut i: usize = 0;
    while i < t.len()
        invariant
            i <= t@.len(),
            forall|k: int| 0 <= k < i ==> !#[trigger] gdb_header_at(t@, k),
        decreases t@.len() - i,
    {
        if gdb_header_here(t, i) {
            return true;
        }
        i = i + 1;
    }
    false
}

proof fn lemma_last_lwp(t: Seq<char>, k: int, j: int)
    requires
        0 <= j <= k,
        lwp_at(t, j),
    ensures
        j <= last_lwp(t, k) <= k,
        lwp_at(t, last_lwp(t, k)),
    decreases k + 1,
{
    if k > j && !lwp_at(t, k) {
        lemma_last_lwp(t, k - 1, j);
    }
}

/// The thread id opened by a debugger thread-header line.
#[verifier::loop_isolation(false)]
pub fn gdb_open_of(l: &Vec<char>) -> (r: Option<Vec<char>>)
    ensures
        r is Some <==> gdb_open(l@) is Some,
        r is Some ==> r->0@ == gdb_open(l@)->0,
{
    let n = l.len();
    if !find_gdb_header(l) {
        return None;
    }
    let ghost i = choose|i: int| 0 <= i < l@.len() && #[trigger] gdb_header_at(l@, i);
    let ghost c = ws_end(l@, digit_end(l@, ws_end(l@, i + 6)));
    let ghost j0 = choose|j: int| c <= j && no_newline(l@, c, j) && #[trigger] lwp_at(l@, j);
    proof {
        assert(lit_at(l@, j0, word_lwp()));
        lemma_last_lwp(l@, l@.len() - 1, j0);
    }
    let mut k = l.len();
    while k > 0
        invariant
            k <= l@.len(),
            last_lwp(l@, k - 1) == last_lwp(l@, l@.len() - 1),
            last_lwp(l@, l@.len() - 1) >= 0,
        decreases k,
    {
        if lwp_here(l, k - 1) {
            let f = skip_ws(l, k + 3);
            let g = skip_digits(l, f);
            return Some(slice_of(l, f, g));
        }
        k = k - 1;
    }
    None
}

fn gdb_entry_here(l: &Vec<char>, i: usize) -> (r: bool)
    requires
        i < l@.len(),
    ensures
        r == gdb_entry_at(l@, i as int),
{
    let n = l.len();
    if l[i] != '#' {
        return false;
    }
    let a = skip_ws(l, i + 1);
    let b = skip_digits(l, a);
    b > a && b < l.len() && ws(l[b])
}

/// The first position at or after `i` where a debugger thread header starts, or -1.
pub open spec fn first_gdb_header(t: Seq<char>, i: int) -> int
    decreases t.len() - i,
{
    if i < 0 || i >= t.len() {
        -1
    } else if gdb_header_at(t, i) {
        i
    } else {
        first_gdb_header(t, i + 1)
    }
}

/// The thread number that a debugger thread-header line shows (not its id).
pub open spec fn gdb_thread_number(l: Seq<char>) -> Option<Seq<char>> {
    let i = first_gdb_header(l, 0);
    if i >= 0 {
        Some(l.subrange(ws_end(l, i + 6), digit_end(l, ws_end(l, i + 6))))
    } else {
        None
    }
}

/// The thread number shown by a debugger thread-header line.
pub fn gdb_thread_number_of(l: &Vec<char>) -> (r: Option<Vec<char>>)
    ensures
        r is Some <==> gdb_thread_number(l@) is Some,
        r is Some ==> r->0@ == gdb_thread_number(l@)->0,
{
    let n = l.len();
    let mut i: usize = 0;
    while i < n
        invariant
            n == l@.len(),
            i <= n,
            first_gdb_header(l@, 0) == first_gdb_header(l@, i as int),
        decreases n - i,
    {
        if gdb_header_here(l, i) {
            let a = skip_ws(l, i + 6);
            let b = skip_digits(l, a);
            return Some(slice_of(l, a, b));
        }
        i = i + 1;
    }
    None
}

/// Whether the line is a debugger frame.
pub fn gdb_entry_of(l: &Vec<char>) -> (r: bool)
    ensures
        r == gdb_entry(l@),
{
    let mut i: usize = 0;
    while i < l.len()
        invariant
            i <= l@.len(),
            forall|k: int| 0 <= k < i ==> !#[trigger] gdb_entry_at(l@, k),
        decreases l@.len() - i,
    {
        if gdb_entry_here(l, i) {
            return true;
        }
        i = i + 1;
    }
    false
}

/// Whether the line is the debugger's `Inferior ... detached` line.
#[verifier::loop_isolation(false)]
pub fn gdb_detach_of(l: &Vec<char>) -> (r: bool)
    ensures
        r == gdb_detach(l@),
{
    let mut i: usize = 0;
    while i < l.len()
        invariant
            i <= l@.len(),
            forall|k: int| 0 <= k < i ==> !#[trigger] lit_at(l@, k, word_inferior()),
        decreases l@.len() - i,
    {
        let w = ['I', 'n', 'f', 'e', 'r', 'i', 'o', 'r'];
        assert(w@ =~= word_inferior());
        if has_lit(l, i, &w) {
            let mut j = i + 8;
            while j < l.len()
                invariant
                    i + 8 <= j,
                    j <= l@.len() || j == i + 8,
                    i + 8 <= l@.len(),
                    forall|k: int| i + 8 <= k < j ==> !#[trigger] lit_at(l@, k, word_detached()),
                decreases l@.len() - j,
            {
                let w = ['d', 'e', 't', 'a', 'c', 'h', 'e', 'd'];
                assert(w@ =~= word_detached());
                if has_lit(l, j, &w) {
                    return true;
                }
                j = j + 1;
            }
            proof {
                assert forall|a: int, b: int|
                    #[trigger] lit_at(l@, a, word_inferior()) && i + 8 <= b implies !#[trigger] lit_at(
                        l@,
                        b,
                        word_detached(),
                    ) by {
                    if a < i {
                    } else if b >= j {
                    }
                }
            }
            return false;
        }
        i = i + 1;
    }
    false
}

} // verus!
