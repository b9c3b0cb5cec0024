//! The frame simplifier: in each line, `<ws> in FUNC (ARGS) at|from LOCATION`
//! becomes ` FUNC`.
use vstd::prelude::*;
use crate::text::{is_ws, ws, split_lines, join, chars_of, lines_of, string_of, slice_of, push_all};
use crate::grammar::{lit_at, ws_end, has_lit, skip_ws, lemma_ws_end_bounds};

verus! {

/// Every character of `l[i..j]` is whitespace.
pub open spec fn all_ws(l: Seq<char>, i: int, j: int) -> bool {
    forall|k: int| i <= k < j ==> is_ws(#[trigger] l[k])
}

/// `at` or `from` at `r`, followed by whitespace.
pub open spec fn location_word_at(l: Seq<char>, r: int) -> bool {
    ||| lit_at(l, r, seq!['a', 't']) && r + 2 < l.len() && is_ws(l[r + 2])
    ||| lit_at(l, r, seq!['f', 'r', 'o', 'm']) && r + 4 < l.len() && is_ws(l[r + 4])
}

/// `<ws> ( ... ) <ws> at|from <ws>` with its whitespace at `b`, `(` at `p`,
/// `)` at `q` and the location word at `r`.
pub open spec fn tail_wit(l: Seq<char>, b: int, p: int, q: int, r: int) -> bool {
    &&& 0 <= b < p
    &&& all_ws(l, b, p)
    &&& p < q < l.len()
    &&& l[p] == '('
    &&& l[q] == ')'
    &&& q + 1 < r
    &&& all_ws(l, q + 1, r)
    &&& location_word_at(l, r)
}

/// A function name may end at `b`: what follows is its argument list and location.
pub open spec fn tail_at(l: Seq<char>, b: int) -> bool {
    exists|p: int, q: int, r: int| #[trigger] tail_wit(l, b, p, q, r)
}

/// The pattern matches from `s`, with `in` at `m` and the name at `l[a..b]`.
pub open spec fn match_wit(l: Seq<char>, s: int, m: int, a: int, b: int) -> bool {
    &&& 0 <= s < m
    &&& all_ws(l, s, m)
    &&& lit_at(l, m, seq!['i', 'n'])
    &&& m + 2 < a <= b
    &&& all_ws(l, m + 2, a)
    &&& tail_at(l, b)
}

pub open spec fn match_at(l: Seq<char>, s: int) -> bool {
    exists|m: int, a: int, b: int| #[trigger] match_wit(l, s, m, a, b)
}

/// The first position at or after `i` where the pattern matches, or -1.
pub open spec fn first_match(l: Seq<char>, i: int) -> int
    decreases l.len() - i,
{
    if i < 0 || i >= l.len() {
        -1
    } else if match_at(l, i) {
        i
    } else {
        first_match(l, i + 1)
    }
}

/// The name that a match from `s` picks: the whitespace after `in` taken
/// greedily, then the shortest name.
pub open spec fn chosen(l: Seq<char>, s: int, a: int, b: int) -> bool {
    &&& exists|m: int| #[trigger] match_wit(l, s, m, a, b)
    &&& forall|m: int, a2: int, b2: int| a < a2 ==> !#[trigger] match_wit(l, s, m, a2, b2)
    &&& forall|b2: int| a <= b2 < b ==> !#[trigger] tail_at(l, b2)
}

/// One line simplified: from the first match on, the line is replaced by a
/// space and the function name.
pub open spec fn simplify_line(l: Seq<char>) -> Seq<char> {
    let s = first_match(l, 0);
    if s >= 0 {
        let ab = choose|ab: (int, int)| chosen(l, s, ab.0, ab.1);
        l.subrange(0, s).push(' ') + l.subrange(ab.0, ab.1)
    } else {
        l
    }
}

/// A text simplified line by line.
pub open spec fn simplified(t: Seq<char>) -> Seq<char> {
    join(split_lines(t).map_values(|l: Seq<char>| simplify_line(l)), seq!['\n'])
}

proof fn lemma_ws_run_end(l: Seq<char>, i: int, j: int)
    requires
        0 <= i <= j <= l.len(),
        all_ws(l, i, j),
        j == l.len() || !is_ws(l[j]),
    ensures
        ws_end(l, i) == j,
    decreases j - i,
{
    if i < j {
        lemma_ws_run_end(l, i + 1, j);
    }
}

/// `)` at `q` and a location word after whitespace from `q + 1`.
fn closes_at(l: &Vec<char>, q: usize) -> (r: bool)
    requires
        q < l@.len(),
    ensures
        r == (l@[q as int] == ')' && exists|rr: int| q + 1 < rr && all_ws(l@, q + 1, rr) && #[trigger] location_word_at(l@, rr)),
{
    let n = l.len();
    if l[q] != ')' {
        return false;
    }
    let rr = skip_ws(l, q + 1);
    proof {
        lemma_ws_end_bounds(l@, q + 1);
    }
    if rr == q + 1 {
        proof {
            assert forall|x: int| q + 1 < x && all_ws(l@, q + 1, x) implies !#[trigger] location_word_at(l@, x) by {
                if q + 1 < l@.len() {
                    assert(is_ws(l@[q + 1]));
                }
            }
        }
        return false;
    }
    let w1 = ['a', 't'];
    assert(w1@ =~= seq!['a', 't']);
    let w2 = ['f', 'r', 'o', 'm'];
    assert(w2@ =~= seq!['f', 'r', 'o', 'm']);
    let found = (has_lit(l, rr, &w1) && rr + 2 < n && ws(l[rr + 2])) || (has_lit(l, rr, &w2) && rr + 4 < n && ws(l[rr + 4]));
    proof {
        assert forall|x: int| q + 1 < x && all_ws(l@, q + 1, x) && #[trigger] location_word_at(l@, x) implies x == rr by {
            lemma_ws_run_end(l@, q + 1, x);
        }
        assert(found == location_word_at(l@, rr as int));
        assert(all_ws(l@, q + 1, rr as int));
    }
    found
}

fn tail_here(l: &Vec<char>, b: usize) -> (r: bool)
    ensures
        r == tail_at(l@, b as int),
{
    let n = l.len();
    if b >= n || !ws(l[b]) {
        return false;
    }
    let p = skip_ws(l, b);
    proof {
        lemma_ws_end_bounds(l@, b as int);
        assert forall|p2: int, q2: int, r2: int| #[trigger] tail_wit(l@, b as int, p2, q2, r2) implies p2 == p by {
            lemma_ws_run_end(l@, b as int, p2);
        }
    }
    if p >= n || l[p] != '(' {
        return false;
    }
    let mut q = p + 1;
    while q < n
        invariant
            n == l@.len(),
            p < q <= n,
            forall|q2: int, r2: int| #[trigger] tail_wit(l@, b as int, p as int, q2, r2) ==> q2 >= q,
            forall|p2: int, q2: int, r2: int| #[trigger] tail_wit(l@, b as int, p2, q2, r2) ==> p2 == p,
            all_ws(l@, b as int, p as int),
            l@[p as int] == '(',
            b < p,
        decreases n - q,
    {
        if closes_at(l, q) {
            let ghost rr = choose|rr: int| q + 1 < rr && all_ws(l@, q + 1, rr) && #[trigger] location_word_at(l@, rr);
            assert(tail_wit(l@, b as int, p as int, q as int, rr));
            return true;
        }
        q = q + 1;
    }
    false
}


proof fn lemma_tail_in_run(l: Seq<char>, b: int, e: int)
    requires
        0 <= b < e <= l.len(),
        all_ws(l, b, e),
        e == l.len() || !is_ws(l[e]),
        tail_at(l, b),
    ensures
        tail_at(l, e - 1),
{
    let (p, q, r) = choose|p: int, q: int, r: int| #[trigger] tail_wit(l, b, p, q, r);
    lemma_ws_run_end(l, b, p);
    lemma_ws_run_end(l, b, e);
    assert(tail_wit(l, e - 1, p, q, r));
}

/// The name that a match from `s` picks, if the pattern matches from `s`.
#[verifier::loop_isolation(false)]
fn match_here(l: &Vec<char>, s: usize) -> (r: Option<(usize, usize)>)
    requires
        s < l@.len(),
    ensures
        r is None ==> !match_at(l@, s as int),
        r matches Some(ab) ==> chosen(l@, s as int, ab.0 as int, ab.1 as int),
        r matches Some(ab) ==> ab.0 <= ab.1 <= l@.len(),
{
    let n = l.len();
    if !ws(l[s]) {
        assert forall|m: int, a: int, b: int| !#[trigger] match_wit(l@, s as int, m, a, b) by {
            if match_wit(l@, s as int, m, a, b) {
                assert(is_ws(l@[s as int]));
            }
        }
        return None;
    }
    let m = skip_ws(l, s);
    proof {
        lemma_ws_end_bounds(l@, s as int);
    }
    let w = ['i', 'n'];
    assert(w@ =~= seq!['i', 'n']);
    proof {
        assert forall|m2: int, a: int, b: int| #[trigger] match_wit(l@, s as int, m2, a, b) implies m2 == m by {
            lemma_ws_run_end(l@, s as int, m2);
        }
    }
    if !has_lit(l, m, &w) {
        return None;
    }
    let e = skip_ws(l, m + 2);
    proof {
        lemma_ws_end_bounds(l@, m + 2);
        assert forall|m2: int, a: int, b: int| #[trigger] match_wit(l@, s as int, m2, a, b) implies a <= e by {
            if a > e {
                let (p, q, rr) = choose|p: int, q: int, rr: int| #[trigger] tail_wit(l@, b, p, q, rr);
                assert(is_ws(l@[e as int]));
            }
        }
    }
    if e == m + 2 {
        assert forall|m2: int, a: int, b: int| !#[trigger] match_wit(l@, s as int, m2, a, b) by {
            if match_wit(l@, s as int, m2, a, b) {
                assert(is_ws(l@[m + 2]));
            }
        }
        return None;
    }
    let mut b = e;
    while b < n
        invariant
            n == l@.len(),
            e <= b,
            forall|b2: int| e <= b2 < b ==> !#[trigger] tail_at(l@, b2),
        decreases n - b,
    {
        if tail_here(l, b) {
            proof {
                assert(match_wit(l@, s as int, m as int, e as int, b as int));
            }
            return Some((e, b));
        }
        b = b + 1;
    }
    proof {
        assert forall|b2: int| e <= b2 implies !#[trigger] tail_at(l@, b2) by {
            if b2 >= n && tail_at(l@, b2) {
                let (p, q, rr) = choose|p: int, q: int, rr: int| #[trigger] tail_wit(l@, b2, p, q, rr);
            }
        }
    }
    if e - 1 > m + 2 && tail_here(l, e - 1) {
        proof {
            assert(match_wit(l@, s as int, m as int, e - 1, e - 1));
        }
        return Some((e - 1, e - 1));
    }
    proof {
        assert forall|m2: int, a: int, b2: int| !#[trigger] match_wit(l@, s as int, m2, a, b2) by {
            if match_wit(l@, s as int, m2, a, b2) {
                if b2 < e {
                    lemma_tail_in_run(l@, b2, e as int);
                }
            }
        }
    }
    None
}


proof fn lemma_chosen_unique(l: Seq<char>, s: int, a: int, b: int, a2: int, b2: int)
    requires
        chosen(l, s, a, b),
        chosen(l, s, a2, b2),
    ensures
        a == a2 && b == b2,
{
    let m = choose|m: int| #[trigger] match_wit(l, s, m, a, b);
    let m2 = choose|m: int| #[trigger] match_wit(l, s, m, a2, b2);
    if a < a2 {
        assert(!match_wit(l, s, m2, a2, b2));
    } else if a2 < a {
        assert(!match_wit(l, s, m, a, b));
    } else if b < b2 {
        assert(!tail_at(l, b));
    } else if b2 < b {
        assert(!tail_at(l, b2));
    }
}

/// One line simplified.
fn simplify_chars(l: &Vec<char>) -> (r: Vec<char>)
    ensures
        r@ == simplify_line(l@),
{
    let mut s: usize = 0;
    while s < l.len()
        invariant
            s <= l@.len(),
            first_match(l@, 0) == first_match(l@, s as int),
        decreases l@.len() - s,
    {
        match match_here(l, s) {
            Some((a, b)) => {
                proof {
                    assert(match_at(l@, s as int));
                    let ab = choose|ab: (int, int)| chosen(l@, s as int, ab.0, ab.1);
                    assert(chosen(l@, s as int, (a as int, b as int).0, (a as int, b as int).1));
                    lemma_chosen_unique(l@, s as int, a as int, b as int, ab.0, ab.1);
                }
                let mut out = slice_of(l, 0, s);
                out.push(' ');
                let name = slice_of(l, a, b);
                push_all(&mut out, &name);
                return out;
            },
            None => {},
        }
        s = s + 1;
    }
    slice_of(l, 0, l.len())
}

/// Replaces, in each line, `<ws> in FUNC (ARGS) at|from LOCATION` by ` FUNC`;
/// lines without it are left as they are.
pub fn simplify_stack(input: String) -> (r: String)
    ensures
        r@ == simplified(input@),
{
    let cs = chars_of(input.as_str());
    let lines = lines_of(&cs);
    let ghost ls = split_lines(input@);
    let mut out: Vec<char> = Vec::new();
    let mut k: usize = 0;
    while k < lines.len()
        invariant
            lines@.len() == ls.len(),
            forall|m: int| 0 <= m < lines@.len() ==> #[trigger] lines@[m]@ == ls[m],
            k <= lines@.len(),
            out@ == join(ls.take(k as int).map_values(|l: Seq<char>| simplify_line(l)), seq!['\n']),
        decreases lines@.len() - k,
    {
        let ghost mapped = ls.take(k + 1).map_values(|l: Seq<char>| simplify_line(l));
        proof {
            assert(mapped.drop_last() =~= ls.take(k as int).map_values(|l: Seq<char>| simplify_line(l)));
            assert(mapped.last() == simplify_line(lines@[k as int]@));
        }
        if k > 0 {
            out.push('\n');
        }
        let sl = simplify_chars(&lines[k]);
        push_all(&mut out, &sl);
        proof {
            assert(out@ =~= join(mapped, seq!['\n']));
        }
        k = k + 1;
    }
    assert(ls.take(k as int) =~= ls);
    string_of(out.as_slice())
}


/// No `'\n'` in `x`.
pub open spec fn one_line(x: Seq<char>) -> bool {
    forall|k: int| 0 <= k < x.len() ==> #[trigger] x[k] != '\n'
}

proof fn lemma_split_one_line(x: Seq<char>)
    requires
        one_line(x),
    ensures
        split_lines(x) == seq![x],
    decreases x.len(),
{
    if x.len() > 0 {
        lemma_split_one_line(x.drop_last());
        assert(x.drop_last().push(x.last()) =~= x);
        assert(seq![x.drop_last()].update(0, x.drop_last().push(x.last())) =~= seq![x]);
    } else {
        assert(x =~= Seq::<char>::empty());
    }
}

proof fn lemma_split_append(a: Seq<char>, b: Seq<char>)
    requires
        one_line(b),
    ensures
        split_lines(a.push('\n') + b) == split_lines(a).push(b),
    decreases b.len(),
{
    let t = a.push('\n') + b;
    if b.len() == 0 {
        assert(t =~= a.push('\n'));
        assert(t.drop_last() =~= a);
        assert(t.last() == '\n');
        assert(b =~= Seq::<char>::empty());
        assert(split_lines(t) == split_lines(t.drop_last()).push(Seq::<char>::empty()));
    } else {
        let b0 = b.drop_last();
        assert(one_line(b0)) by {
            assert forall|k: int| 0 <= k < b0.len() implies #[trigger] b0[k] != '\n' by {
                assert(b0[k] == b[k]);
            }
        }
        assert(b[b.len() - 1] != '\n');
        assert(t.drop_last() =~= a.push('\n') + b0);
        lemma_split_append(a, b0);
        assert(t.last() == b.last());
        assert(b0.push(b.last()) =~= b);
        let p = split_lines(t.drop_last());
        assert(p == split_lines(a).push(b0));
        assert(t.last() != '\n');
        assert(split_lines(t) == p.update(p.len() - 1, p.last().push(t.last())));
        assert(split_lines(a).push(b0).update(split_lines(a).len() as int, b0.push(b.last())) =~= split_lines(a).push(
            b,
        ));
    }
}

proof fn lemma_split_join(ls: Seq<Seq<char>>)
    requires
        ls.len() >= 1,
        forall|k: int| 0 <= k < ls.len() ==> one_line(#[trigger] ls[k]),
    ensures
        split_lines(join(ls, seq!['\n'])) == ls,
    decreases ls.len(),
{
    if ls.len() == 1 {
        lemma_split_one_line(ls[0]);
        assert(seq![ls[0]] =~= ls);
    } else {
        let prev = ls.drop_last();
        lemma_split_join(prev);
        assert(join(prev, seq!['\n']) + seq!['\n'] + ls.last() =~= join(prev, seq!['\n']).push('\n') + ls.last());
        lemma_split_append(join(prev, seq!['\n']), ls.last());
        assert(prev.push(ls.last()) =~= ls);
    }
}

proof fn lemma_split_pieces(t: Seq<char>)
    ensures
        forall|k: int| 0 <= k < split_lines(t).len() ==> one_line(#[trigger] split_lines(t)[k]),
    decreases t.len(),
{
    if t.len() > 0 {
        lemma_split_pieces(t.drop_last());
        crate::text::lemma_split_lines_nonempty(t.drop_last());
        let p = split_lines(t.drop_last());
        if t.last() != '\n' {
            assert forall|k: int| 0 <= k < split_lines(t).len() implies one_line(#[trigger] split_lines(t)[k]) by {
                if k == p.len() - 1 {
                    assert(one_line(p[k]));
                    assert forall|j: int| 0 <= j < p[k].push(t.last()).len() implies #[trigger] p[k].push(t.last())[j] != '\n' by {
                        if j < p[k].len() {
                            assert(p[k][j] != '\n');
                        }
                    }
                }
            }
        } else {
            assert forall|k: int| 0 <= k < split_lines(t).len() implies one_line(#[trigger] split_lines(t)[k]) by {
                if k < p.len() {
                    assert(split_lines(t)[k] == p[k]);
                }
            }
        }
    }
}

proof fn lemma_first_match(l: Seq<char>, i: int)
    requires
        0 <= i,
    ensures
        first_match(l, i) >= 0 ==> i <= first_match(l, i) && match_at(l, first_match(l, i)),
        first_match(l, i) >= 0 ==> forall|k: int| i <= k < first_match(l, i) ==> !#[trigger] match_at(l, k),
        first_match(l, i) < 0 ==> forall|k: int| i <= k < l.len() ==> !#[trigger] match_at(l, k),
    decreases l.len() - i,
{
    if i < l.len() && !match_at(l, i) {
        lemma_first_match(l, i + 1);
    }
}

proof fn lemma_no_match(l: Seq<char>, i: int)
    requires
        0 <= i,
        forall|k: int| #![trigger match_at(l, k)] 0 <= k < l.len() ==> !match_at(l, k),
    ensures
        first_match(l, i) == -1,
    decreases l.len() - i,
{
    if i < l.len() {
        lemma_no_match(l, i + 1);
    }
}

proof fn lemma_lit_shift(n: Seq<char>, l: Seq<char>, x: int, d: int, w: Seq<char>)
    requires
        lit_at(n, x, w),
        0 <= x + d,
        x + d + w.len() <= l.len(),
        forall|j: int| x <= j < x + w.len() ==> #[trigger] n[j] == l[j + d],
    ensures
        lit_at(l, x + d, w),
{
    assert forall|j: int| 0 <= j < w.len() implies #[trigger] l.subrange(x + d, x + d + w.len())[j] == w[j] by {
        assert(n.subrange(x, x + w.len())[j] == w[j]);
        assert(n[x + j] == l[x + j + d]);
    }
    assert(l.subrange(x + d, x + d + w.len()) =~= w);
}

/// The first position at or after `b` where a name may end, or -1.
spec fn first_tail(l: Seq<char>, b: int) -> int
    decreases l.len() - b,
{
    if b < 0 || b >= l.len() {
        -1
    } else if tail_at(l, b) {
        b
    } else {
        first_tail(l, b + 1)
    }
}

proof fn lemma_first_tail(l: Seq<char>, b: int)
    requires
        0 <= b,
    ensures
        first_tail(l, b) >= 0 ==> b <= first_tail(l, b) && tail_at(l, first_tail(l, b)),
        first_tail(l, b) >= 0 ==> forall|k: int| b <= k < first_tail(l, b) ==> !#[trigger] tail_at(l, k),
        first_tail(l, b) < 0 ==> forall|k: int| b <= k ==> !#[trigger] tail_at(l, k),
    decreases l.len() - b,
{
    if b < l.len() && !tail_at(l, b) {
        lemma_first_tail(l, b + 1);
    }
    if b >= l.len() {
        assert forall|k: int| b <= k implies !#[trigger] tail_at(l, k) by {
            if tail_at(l, k) {
                let (p, q, r) = choose|p: int, q: int, r: int| #[trigger] tail_wit(l, k, p, q, r);
            }
        }
    }
}

/// Where the pattern matches, the priorities pick a name.
proof fn lemma_chosen_exists(l: Seq<char>, s: int)
    requires
        match_at(l, s),
    ensures
        exists|ab: (int, int)| chosen(l, s, ab.0, ab.1),
{
    let (m, a0, b0) = choose|m: int, a: int, b: int| #[trigger] match_wit(l, s, m, a, b);
    lemma_ws_run_end(l, s, m);
    lemma_ws_end_bounds(l, m + 2);
    let e = ws_end(l, m + 2);
    assert forall|m2: int, a2: int, b2: int| #[trigger] match_wit(l, s, m2, a2, b2) implies m2 == m && a2 <= e by {
        lemma_ws_run_end(l, s, m2);
        if a2 > e {
            let (p, q, r) = choose|p: int, q: int, r: int| #[trigger] tail_wit(l, b2, p, q, r);
            assert(is_ws(l[e]));
        }
    }
    lemma_first_tail(l, e);
    let ft = first_tail(l, e);
    if ft >= 0 {
        assert(match_wit(l, s, m, e, ft));
        assert(chosen(l, s, (e, ft).0, (e, ft).1));
    } else {
        lemma_tail_in_run(l, b0, e);
        assert(match_wit(l, s, m, e - 1, e - 1));
        assert(chosen(l, s, (e - 1, e - 1).0, (e - 1, e - 1).1));
    }
}

/// The line `l` simplified at `s`, with the name `l[a..b]`.
spec fn rewritten(l: Seq<char>, s: int, a: int, b: int) -> Seq<char> {
    l.subrange(0, s).push(' ') + l.subrange(a, b)
}

proof fn lemma_settled_before(l: Seq<char>, s: int, a: int, b: int, m: int, i: int, m2: int, a2: int, b2: int)
    requires
        0 <= s,
        chosen(l, s, a, b),
        match_wit(l, s, m, a, b),
        forall|k: int| 0 <= k < s ==> !#[trigger] match_at(l, k),
        m2 < s,
    ensures
        !match_wit(rewritten(l, s, a, b), i, m2, a2, b2),
{
    if match_wit(rewritten(l, s, a, b), i, m2, a2, b2) {
        let n = rewritten(l, s, a, b);
        assert forall|x: int| 0 <= x < s implies #[trigger] n[x] == l[x] by {}
        assert(n[s] == ' ');
        assert(is_ws(l[s]));
        assert(n[m2 + 1] == 'n');
        assert(m2 + 1 != s);
        assert(m2 + 2 <= s);
        assert forall|k: int| i <= k < m2 implies is_ws(#[trigger] l[k]) by {
            assert(n[k] == l[k]);
        }
        lemma_lit_shift(n, l, m2, 0, seq!['i', 'n']);
        assert(is_ws(l[m2 + 2])) by {
            assert(is_ws(n[m2 + 2]));
            if m2 + 2 < s {
                assert(n[m2 + 2] == l[m2 + 2]);
            }
        }
        assert(match_wit(l, i, m2, m2 + 3, b));
        assert(!match_at(l, i));
    }
}

proof fn lemma_settled_after(l: Seq<char>, s: int, a: int, b: int, m: int, i: int, m2: int, a2: int, b2: int)
    requires
        0 <= s,
        chosen(l, s, a, b),
        match_wit(l, s, m, a, b),
        m2 >= s,
    ensures
        !match_wit(rewritten(l, s, a, b), i, m2, a2, b2),
{
    if match_wit(rewritten(l, s, a, b), i, m2, a2, b2) {
        let n = rewritten(l, s, a, b);
        let d = a - s - 1;
        assert(n.len() == s + 1 + (b - a));
        assert forall|x: int| s + 1 <= x < n.len() implies #[trigger] n[x] == l[x + d] by {}
        assert(n[s] == ' ');
        assert(m2 > s);
        let (p2, q2, r2) = choose|p2: int, q2: int, r2: int| #[trigger] tail_wit(n, b2, p2, q2, r2);
        assert forall|k: int| b2 + d <= k < p2 + d implies is_ws(#[trigger] l[k]) by {
            assert(n[k - d] == l[k]);
        }
        assert forall|k: int| q2 + 1 + d <= k < r2 + d implies is_ws(#[trigger] l[k]) by {
            assert(n[k - d] == l[k]);
        }
        assert(n[p2] == l[p2 + d]);
        assert(n[q2] == l[q2 + d]);
        if lit_at(n, r2, seq!['a', 't']) && r2 + 2 < n.len() && is_ws(n[r2 + 2]) {
            lemma_lit_shift(n, l, r2, d, seq!['a', 't']);
            assert(n[r2 + 2] == l[r2 + 2 + d]);
        } else {
            lemma_lit_shift(n, l, r2, d, seq!['f', 'r', 'o', 'm']);
            assert(n[r2 + 4] == l[r2 + 4 + d]);
        }
        assert(tail_wit(l, b2 + d, p2 + d, q2 + d, r2 + d));
        assert(!tail_at(l, b2 + d));
    }
}

/// A simplified line holds no further match.
proof fn lemma_line_settled(l: Seq<char>)
    requires
        one_line(l),
    ensures
        one_line(simplify_line(l)),
        simplify_line(simplify_line(l)) == simplify_line(l),
{
    let s = first_match(l, 0);
    lemma_first_match(l, 0);
    if s < 0 {
        return;
    }
    let ab = choose|ab: (int, int)| chosen(l, s, ab.0, ab.1);
    lemma_chosen_exists(l, s);
    let a = ab.0;
    let b = ab.1;
    let m = choose|m: int| #[trigger] match_wit(l, s, m, a, b);
    let n = rewritten(l, s, a, b);
    let d = a - s - 1;
    assert(n.len() == s + 1 + (b - a));
    assert forall|x: int| 0 <= x < s implies #[trigger] n[x] == l[x] by {}
    assert forall|x: int| s + 1 <= x < n.len() implies #[trigger] n[x] == l[x + d] by {}
    assert(n[s] == ' ');
    assert(is_ws(l[s]));
    assert(one_line(n)) by {
        assert forall|k: int| 0 <= k < n.len() implies #[trigger] n[k] != '\n' by {
            if k < s {
                assert(n[k] == l[k]);
            } else if k > s {
                assert(n[k] == l[k + d]);
            }
        }
    }
    assert forall|i: int| #![trigger match_at(n, i)] 0 <= i < n.len() implies !match_at(n, i) by {
        if match_at(n, i) {
            let (m2, a2, b2) = choose|m2: int, a2: int, b2: int| #[trigger] match_wit(n, i, m2, a2, b2);
            if m2 < s {
                lemma_settled_before(l, s, a, b, m, i, m2, a2, b2);
            } else {
                lemma_settled_after(l, s, a, b, m, i, m2, a2, b2);
            }
        }
    }
    lemma_no_match(n, 0);
}

/// Simplifying a simplified text changes nothing.
pub proof fn lemma_simplify_idempotent(t: Seq<char>)
    ensures
        simplified(simplified(t)) == simplified(t),
{
    let ls = split_lines(t);
    let once = ls.map_values(|l: Seq<char>| simplify_line(l));
    lemma_split_pieces(t);
    crate::text::lemma_split_lines_nonempty(t);
    assert forall|k: int| 0 <= k < once.len() implies one_line(#[trigger] once[k]) && simplify_line(once[k]) == once[k] by {
        lemma_line_settled(ls[k]);
    }
    lemma_split_join(once);
    assert(once.map_values(|l: Seq<char>| simplify_line(l)) =~= once);
}

} // verus!
