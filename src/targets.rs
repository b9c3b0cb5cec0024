//! What the orchestrator hands the outside tools and takes from them: argument
//! vectors, the process table's rows, and checks on the requested inputs.
use vstd::prelude::*;
use crate::text::{is_ws, is_digit, ws, digit, split_lines, chars_of, lines_of, string_of, slice_of};
use crate::grammar::{digit_end, skip_digits};
use crate::parse::strings_view;

verus! {

/// The unwinder's arguments for a live process.
pub fn eustack_pid_args(pid: &str) -> (r: Vec<String>)
    ensures
        strings_view(r@) == seq!["-p"@, pid@],
{
    let r = vec!["-p".to_owned(), pid.to_owned()];
    assert(strings_view(r@) =~= seq!["-p"@, pid@]);
    r
}

/// The unwinder's arguments for a core file, with the executable if given.
pub fn eustack_core_args(core: &str, executable: Option<&str>) -> (r: Vec<String>)
    ensures
        executable is None ==> strings_view(r@) == seq!["--core"@, core@],
        executable matches Some(e) ==> strings_view(r@) == seq!["--core"@, core@, "-e"@, e@],
{
    let mut r = vec!["--core".to_owned(), core.to_owned()];
    match executable {
        Some(e) => {
            r.push("-e".to_owned());
            r.push(e.to_owned());
            assert(strings_view(r@) =~= seq!["--core"@, core@, "-e"@, e@]);
        },
        None => {
            assert(strings_view(r@) =~= seq!["--core"@, core@]);
        },
    }
    r
}

/// The debugger's arguments for a live process: attach, print every thread's
/// backtrace, detach.
pub fn gdb_pid_args(pid: &str) -> (r: Vec<String>)
    ensures
        strings_view(r@) == seq!["--batch"@, "-p"@, pid@, "-ex"@, "thread apply all backtrace"@],
{
    let r = vec![
        "--batch".to_owned(),
        "-p".to_owned(),
        pid.to_owned(),
        "-ex".to_owned(),
        "thread apply all backtrace".to_owned(),
    ];
    assert(strings_view(r@) =~= seq!["--batch"@, "-p"@, pid@, "-ex"@, "thread apply all backtrace"@]);
    r
}

/// The process table's arguments: the given users' processes, or all.
pub fn ps_args(users: Option<&str>) -> (r: Vec<String>)
    ensures
        users is None ==> strings_view(r@) == seq!["-o"@, "pid,user,stime,cmd"@, "-A"@],
        users matches Some(u) ==> strings_view(r@) == seq!["-o"@, "pid,user,stime,cmd"@, "-u"@, u@, "-U"@, u@],
{
    let mut r = vec!["-o".to_owned(), "pid,user,stime,cmd".to_owned()];
    match users {
        Some(u) => {
            r.push("-u".to_owned());
            r.push(u.to_owned());
            r.push("-U".to_owned());
            r.push(u.to_owned());
            assert(strings_view(r@) =~= seq!["-o"@, "pid,user,stime,cmd"@, "-u"@, u@, "-U"@, u@]);
        },
        None => {
            r.push("-A".to_owned());
            assert(strings_view(r@) =~= seq!["-o"@, "pid,user,stime,cmd"@, "-A"@]);
        },
    }
    r
}

/// The rows of the process table's output: every line but the heading.
pub fn process_rows(out: &str) -> (r: Vec<String>)
    ensures
        strings_view(r@) == split_lines(out@).drop_first(),
{
    let cs = chars_of(out);
    let lines = lines_of(&cs);
    let ghost ls = split_lines(out@);
    proof {
        crate::text::lemma_split_lines_nonempty(out@);
    }
    let mut r: Vec<String> = Vec::new();
    let mut k: usize = 1;
    while k < lines.len()
        invariant
            lines@.len() == ls.len(),
            ls.len() >= 1,
            forall|m: int| 0 <= m < lines@.len() ==> #[trigger] lines@[m]@ == ls[m],
            1 <= k <= lines@.len(),
            strings_view(r@) == ls.subrange(1, k as int),
        decreases lines@.len() - k,
    {
        let ghost before = r@;
        let s = string_of(lines[k].as_slice());
        r.push(s);
        assert(strings_view(r@) =~= strings_view(before).push(ls[k as int]));
        assert(ls.subrange(1, k + 1) =~= ls.subrange(1, k as int).push(ls[k as int]));
        k = k + 1;
    }
    assert(ls.subrange(1, k as int) =~= ls.drop_first());
    r
}

/// A run of digits starts at `k` (none just before it) and whitespace follows it.
pub open spec fn pid_at(s: Seq<char>, k: int) -> bool {
    &&& 0 <= k < s.len()
    &&& is_digit(s[k])
    &&& (k == 0 || !is_digit(s[k - 1]))
    &&& digit_end(s, k) < s.len()
    &&& is_ws(s[digit_end(s, k)])
}

/// The process id of a process-table row: the first run of digits followed by
/// whitespace.
pub open spec fn row_pid(s: Seq<char>) -> Option<Seq<char>> {
    if exists|k: int| #[trigger] pid_at(s, k) {
        let k = choose|k: int| #[trigger] pid_at(s, k) && forall|j: int| 0 <= j < k ==> !#[trigger] pid_at(s, j);
        Some(s.subrange(k, digit_end(s, k)))
    } else {
        None
    }
}

/// The process id at the start of a process-table row, if there is one.
pub fn parse_pid(row: &str) -> (r: Option<String>)
    ensures
        r is None <==> row_pid(row@) is None,
        r matches Some(p) ==> row_pid(row@) == Some(p@),
{
    let s = chars_of(row);
    let n = s.len();
    let mut k: usize = 0;
    while k < n
        invariant
            n == s@.len(),
            s@ == row@,
            k <= n,
            forall|j: int| 0 <= j < k ==> !#[trigger] pid_at(s@, j),
        decreases n - k,
    {
        if digit(s[k]) && (k == 0 || !digit(s[k - 1])) {
            let e = skip_digits(&s, k);
            if e < n && ws(s[e]) {
                proof {
                    assert(pid_at(s@, k as int));
                    let c = choose|c: int| #[trigger] pid_at(s@, c) && forall|j: int| 0 <= j < c ==> !#[trigger] pid_at(s@, j);
                    if c < k {
                    } else if c > k {
                        assert(!pid_at(s@, k as int));
                    }
                }
                return Some(string_of(slice_of(&s, k, e).as_slice()));
            }
        }
        k = k + 1;
    }
    None
}

/// Checks the list of input files: standard input (`-`) stands alone, and
/// with several files none may look like an option.
#[verifier::loop_isolation(false)]
pub fn check_files(files: &Vec<String>) -> (r: Result<(), String>)
    ensures
        files@.len() > 1 && (exists|k: int| 0 <= k < files@.len() && #[trigger] files@[k]@ == "-"@)
            ==> (r matches Err(e) && e@ == "stdin should not be used together with other files"@),
        files@.len() > 1 && !(exists|k: int| 0 <= k < files@.len() && #[trigger] files@[k]@ == "-"@) ==> (r is Ok
            <==> forall|k: int| 0 <= k < files@.len() ==> !(#[trigger] files@[k]@.len() > 0 && files@[k]@[0] == '-')),
        files@.len() <= 1 ==> r is Ok,
{
    if files.len() <= 1 {
        return Ok(());
    }
    let mut k: usize = 0;
    while k < files.len()
        invariant
            k <= files@.len(),
            forall|j: int| 0 <= j < k ==> #[trigger] files@[j]@ != "-"@,
        decreases files@.len() - k,
    {
        let c = chars_of(files[k].as_str());
        if c.len() == 1 && c[0] == '-' {
            assert(files@[k as int]@ =~= "-"@) by {
                reveal_strlit("-");
            }
            return Err("stdin should not be used together with other files".to_owned());
        }
        assert(files@[k as int]@ != "-"@) by {
            reveal_strlit("-");
        }
        k = k + 1;
    }
    let mut k: usize = 0;
    while k < files.len()
        invariant
            k <= files@.len(),
            forall|j: int| 0 <= j < k ==> !(#[trigger] files@[j]@.len() > 0 && files@[j]@[0] == '-'),
        decreases files@.len() - k,
    {
        let c = chars_of(files[k].as_str());
        if c.len() > 0 && c[0] == '-' {
            let mut msg = "Failed to parse arg: ".to_owned();
            msg.append(files[k].as_str());
            return Err(msg);
        }
        k = k + 1;
    }
    Ok(())
}

/// How many rows a selection list shows for a terminal of `height` rows.
pub fn page_size(height: usize) -> (r: usize)
    ensures
        r == (if height >= 9 { height - 2 } else { 7 }),
{
    if height >= 9 {
        height - 2
    } else {
        7
    }
}

/// How many characters of a row fit beside a selection list's markers.
pub fn visible_columns(width: usize, multi: bool) -> (r: usize)
    ensures
        r == (if multi {
            if width >= 8 { width - 8 } else { 0 }
        } else {
            if width >= 4 { width - 4 } else { 0 }
        }),
{
    let margin: usize = if multi { 8 } else { 4 };
    if width >= margin {
        width - margin
    } else {
        0
    }
}

/// The first `columns` characters of a row.
pub fn truncate_row(row: &str, columns: usize) -> (r: String)
    ensures
        r@ == row@.take(if columns < row@.len() { columns as int } else { row@.len() as int }),
{
    let s = chars_of(row);
    let end = if columns < s.len() { columns } else { s.len() };
    string_of(slice_of(&s, 0, end).as_slice())
}

/// Relies on `std::path::Path::exists`: whether the file system holds the path.
#[verifier::external_body]
fn path_exists(file: &str) -> bool {
    std::path::Path::new(file).exists()
}

/// Checks that an input file exists.
pub fn ensure_file_exists(file: &str) -> (r: Result<(), String>)
    ensures
        r matches Err(e) ==> e@ == "File "@ + file@ + " does not exist"@,
{
    if path_exists(file) {
        Ok(())
    } else {
        let mut e = "File ".to_owned();
        e.append(file);
        e.append(" does not exist");
        Err(e)
    }
}

} // verus!
