//! Filtering the process table's rows by a pattern that the user gives.
use vstd::prelude::*;
use crate::text::{chars_of, decimal, push_decimal};
use crate::grammar::{lit_at, has_lit};
use crate::parse::strings_view;

verus! {

#[verifier::external_type_specification]
#[verifier::external_body]
pub struct ExRegex(regex::Regex);

/// Whether `pattern` is a regular expression that the regex crate accepts.
pub uninterp spec fn pattern_valid(pattern: Seq<char>) -> bool;

/// Whether the regular expression `pattern` matches somewhere in `text`.
pub uninterp spec fn pattern_matches(pattern: Seq<char>, text: Seq<char>) -> bool;

/// A compiled pattern with the source it was compiled from. Only `compile`
/// builds one.
pub struct RowFilter {
    re: regex::Regex,
    source: Ghost<Seq<char>>,
}

/// Relies on `regex::Regex::new`: it compiles exactly the valid patterns; the
/// filter it builds records the pattern it was compiled from; the error is
/// the regex crate's message.
#[verifier::external_body]
fn compile(pattern: &str) -> (r: Result<RowFilter, String>)
    ensures
        r is Ok <==> pattern_valid(pattern@),
        r matches Ok(f) ==> f.source@ == pattern@,
{
    match regex::Regex::new(pattern) {
        Ok(re) => Ok(RowFilter { re, source: Ghost(pattern@) }),
        Err(e) => Err(e.to_string()),
    }
}

/// Relies on `regex::Regex::is_match`: whether the compiled pattern matches
/// somewhere in the text.
#[verifier::external_body]
fn filter_matches(f: &RowFilter, text: &str) -> (r: bool)
    ensures
        r == pattern_matches(f.source@, text@),
{
    f.re.is_match(text)
}

impl RowFilter {
    pub closed spec fn pattern(&self) -> Seq<char> {
        self.source@
    }

    /// Compiles a pattern; the error is the regex crate's message.
    pub fn new(pattern: &str) -> (r: Result<RowFilter, String>)
        ensures
            r is Ok <==> pattern_valid(pattern@),
            r matches Ok(f) ==> f.pattern() == pattern@,
    {
        compile(pattern)
    }

    /// Whether the pattern matches somewhere in the row.
    pub fn matches(&self, row: &str) -> (r: bool)
        ensures
            r == pattern_matches(self.pattern(), row@),
    {
        filter_matches(self, row)
    }
}

/// `w` occurs somewhere in `s`.
pub open spec fn contains_text(s: Seq<char>, w: Seq<char>) -> bool {
    exists|i: int| #[trigger] lit_at(s, i, w)
}

/// The row names the process `pid` as a word of its own.
pub open spec fn names_pid(row: Seq<char>, pid: u32) -> bool {
    contains_text(row, seq![' '] + decimal(pid as nat) + seq![' '])
}

/// The rows that the pattern matches, in order, leaving out those that name
/// the process `own`, if given.
pub open spec fn kept_rows(rows: Seq<Seq<char>>, pattern: Seq<char>, own: Option<u32>) -> Seq<Seq<char>>
    decreases rows.len(),
{
    if rows.len() == 0 {
        Seq::empty()
    } else {
        let keep = pattern_matches(pattern, rows.last()) && match own {
            Some(pid) => !names_pid(rows.last(), pid),
            None => true,
        };
        if keep {
            kept_rows(rows.drop_last(), pattern, own).push(rows.last())
        } else {
            kept_rows(rows.drop_last(), pattern, own)
        }
    }
}

fn find_text(s: &Vec<char>, w: &Vec<char>) -> (r: bool)
    ensures
        r == contains_text(s@, w@),
{
    let mut i: usize = 0;
    while i <= s.len()
        invariant
            forall|k: int| 0 <= k < i ==> !#[trigger] lit_at(s@, k, w@),
        decreases s@.len() + 1 - i,
    {
        if has_lit(s, i, w.as_slice()) {
            return true;
        }
        if i == s.len() {
            assert forall|k: int| !#[trigger] lit_at(s@, k, w@) by {
                if k > i {
                }
            }
            return false;
        }
        i = i + 1;
    }
    false
}

/// The rows that match `pattern`, leaving out the rows that name the process
/// `own` (the caller itself), if given. An invalid pattern is an error with
/// the regex crate's message.
pub fn rows_matching(rows: &Vec<String>, pattern: &str, own: Option<u32>) -> (r: Result<Vec<String>, String>)
    ensures
        r is Ok <==> pattern_valid(pattern@),
        r matches Ok(v) ==> strings_view(v@) == kept_rows(strings_view(rows@), pattern@, own),
{
    let filter = match RowFilter::new(pattern) {
        Ok(f) => f,
        Err(e) => {
            return Err(e);
        },
    };
    let own_word: Vec<char> = match own {
        Some(pid) => {
            let mut w: Vec<char> = Vec::new();
            w.push(' ');
            push_decimal(&mut w, pid as u64);
            w.push(' ');
            assert(w@ =~= seq![' '] + decimal(pid as nat) + seq![' ']);
            w
        },
        None => Vec::new(),
    };
    let ghost rv = strings_view(rows@);
    let mut out: Vec<String> = Vec::new();
    let mut k: usize = 0;
    while k < rows.len()
        invariant
            k <= rows@.len(),
            rv == strings_view(rows@),
            filter.pattern() == pattern@,
            own matches Some(pid) ==> own_word@ == seq![' '] + decimal(pid as nat) + seq![' '],
            strings_view(out@) == kept_rows(rv.take(k as int), pattern@, own),
        decreases rows@.len() - k,
    {
        proof {
            assert(rv.take(k + 1).drop_last() =~= rv.take(k as int));
            assert(rv.take(k + 1).last() == rows@[k as int]@);
        }
        let row = &rows[k];
        let mut keep = filter.matches(row.as_str());
        if keep && own.is_some() {
            let cs = chars_of(row.as_str());
            if find_text(&cs, &own_word) {
                keep = false;
            }
        }
        if keep {
            let ghost before = out@;
            out.push(row.clone());
            assert(strings_view(out@) =~= strings_view(before).push(row@));
        }
        k = k + 1;
    }
    assert(rv.take(k as int) =~= rv);
    Ok(out)
}

} // verus!
