use callstack::group::{group_threads, rank_groups};
use callstack::parse::{parse_threads, ParseError, StackFormat};
use callstack::report::Palette;
use callstack::simplify::simplify_stack;
use callstack::uniquify::{uniquify, uniquify_eustack, uniquify_gdb, unparsed_lines};
use callstack::grammar::{gdb_open_of, gdb_thread_number_of};

const EU_INPUT: &str = r#"
PID 14794 - process
TID 14794:
#0  0x00007f83df80a3ec g_type_check_instance_is_a
#1  0x00007f83df14f421 gdk_frame_clock_request_phase
#19 0x00007f83ddb902e0
#20 0x00007f83ddb90399 __libc_start_main
#21 0x0000557b62938905 _start
TID 14818:
#0  0x00007f83ddba6fea __sigtimedwait
#1  0x00007f83ddba666c sigwait
#2  0x0000557b62997e8b signalThread(void*)
#3  0x00007f83ddbf4359
TID 14820:
#0  0x00007f83ddc5363f __poll
#1  0x00007f83de32a8d7
#2  0x00007f83de32afa0 g_main_context_iteration
#3  0x00007f83de32aff1
#4  0x00007f83de3581a1
TID 14822:
#0  0x00007f83ddc5363f __poll
#1  0x00007f83de32a8d7
#2  0x00007f83de32afa0 g_main_context_iteration
#3  0x00007f83de32aff1
#4  0x00007f83de3581a1

"#;

const GDB_INPUT: &str = r#"
Thread 3 (Thread 0x7f29ce816740 (LWP 37746) "test"):
#0  0x00007f29ce8db9e7 in clock_nanosleep () from /usr/lib64/libc.so.6
#1  0x00007f29ce8e6a47 in nanosleep () from /usr/lib64/libc.so.6
#2  0x00007f29ce8f7bce in sleep () from /usr/lib64/libc.so.6
#3  0x000055723be89162 in func2 () at test.c:5
#4  0x000055723be8917d in func1 () at test.c:10
#7  0x00007f29ce83f320 in ?? () from /usr/lib64/libc.so.6
#8  0x00007f29ce83f3d9 in __libc_start_main () from /usr/lib64/libc.so.6
#9  0x000055723be89085 in _start ()

Thread 2 (Thread 0x7f29ce816740 (LWP 37748) "test"):
#0  0x00007f29ce8db9e7 in clock_nanosleep () from /usr/lib64/libc.so.6
#1  0x00007f29ce8e6a47 in nanosleep () from /usr/lib64/libc.so.6
#2  0x00007f29ce8f7bce in sleep () from /usr/lib64/libc.so.6
#3  0x000055723be89162 in func2 () at test.c:5
#4  0x000055723be8917d in func1 () at test.c:10
#5  0x000055723be8918d in func () at test.c:15
#6  0x000055723be891af in main (argc=1, argv=0x7ffec118b6f8) at test.c:19
#7  0x00007f29ce83f320 in ?? () from /usr/lib64/libc.so.6
#8  0x00007f29ce83f3d9 in __libc_start_main () from /usr/lib64/libc.so.6
#9  0x000055723be89085 in _start ()

Thread 1 (Thread 0x7f29ce816740 (LWP 37747) "test"):
#0  0x00007f29ce8db9e7 in clock_nanosleep () from /usr/lib64/libc.so.6
#1  0x00007f29ce8e6a47 in nanosleep () from /usr/lib64/libc.so.6
#2  0x00007f29ce8f7bce in sleep () from /usr/lib64/libc.so.6
#3  0x000055723be89162 in func2 () at test.c:5
#4  0x000055723be8917d in func1 () at test.c:10
#5  0x000055723be8918d in func () at test.c:15
#6  0x000055723be891af in main (argc=1, argv=0x7ffec118b6f8) at test.c:19
#7  0x00007f29ce83f320 in ?? () from /usr/lib64/libc.so.6
#8  0x00007f29ce83f3d9 in __libc_start_main () from /usr/lib64/libc.so.6
#9  0x000055723be89085 in _start ()

"#;

fn chars(s: &str) -> Vec<char> {
    s.chars().collect()
}

#[test]
fn test_regex_tid() {
    let line = chars(r#"Thread 15 (Thread 0x7fa1aea006c0 (LWP 1175) "waybar"):"#);
    match gdb_thread_number_of(&line) {
        Some(tid) => assert_eq!(tid.iter().collect::<String>(), "15"),
        None => panic!("header not recognized"),
    }
    match gdb_open_of(&line) {
        Some(lwp) => assert_eq!(lwp.iter().collect::<String>(), "1175"),
        None => panic!("header not recognized"),
    }
    let line = chars(r#"Thread 13 (LWP 258729 "tokio-runtime-w"):"#);
    match gdb_thread_number_of(&line) {
        Some(tid) => assert_eq!(tid.iter().collect::<String>(), "13"),
        None => panic!("header not recognized"),
    }
    match gdb_open_of(&line) {
        Some(lwp) => assert_eq!(lwp.iter().collect::<String>(), "258729"),
        None => panic!("header not recognized"),
    }
}

#[test]
fn test_unquify() {
    assert!(uniquify_eustack(EU_INPUT).is_ok());
    assert!(uniquify_gdb(EU_INPUT).is_err());
    assert!(uniquify_gdb(GDB_INPUT).is_ok());
    assert!(uniquify_eustack(GDB_INPUT).is_err());
}

#[test]
fn test_regex_replace() {
    let input = r#"
Thread 1 (Thread 0x7f29ce816740 (LWP 37747) "test"):
#0  0x00007f29ce8db9e7 in clock_nanosleep () from /usr/lib64/libc.so.6
#1  0x00007f29ce8e6a47 in nanosleep () from /usr/lib64/libc.so.6
#2  0x00007f29ce8f7bce in sleep () from /usr/lib64/libc.so.6
#3  0x000055723be89162 in func2 () at test.c:5
#4  0x000055723be8917d in func1 () at test.c:10
#5  0x000055723be8918d in func () at test.c:15
#6  0x000055723be891af in main (argc=1, argv=0x7ffec118b6f8) at test.c:19
#7  0x00007f29ce83f320 in ?? () from /usr/lib64/libc.so.6
#8  0x00007f29ce83f3d9 in __libc_start_main () from /usr/lib64/libc.so.6
#9  0x000055723be89085 in _start ()

"#
    .to_owned();
    let result = simplify_stack(input);
    println!("{result}");
    assert!(result.find("in func1 () at").is_none());
}

#[test]
fn simplify_keeps_function_names() {
    let out = simplify_stack("#4  0x000055723be8917d in func1 () at test.c:10\n#9  0x000055723be89085 in _start ()".to_owned());
    assert_eq!(out, "#4  0x000055723be8917d func1\n#9  0x000055723be89085 in _start ()");
    let out = simplify_stack("#6  0x1 in main (argc=1, argv=0x7ffe) at test.c:19".to_owned());
    assert_eq!(out, "#6  0x1 main");
    let out = simplify_stack("#0  0x7 in clock_nanosleep () from /usr/lib64/libc.so.6".to_owned());
    assert_eq!(out, "#0  0x7 clock_nanosleep");
}

#[test]
fn simplify_twice_is_simplify_once() {
    let once = simplify_stack(GDB_INPUT.to_owned());
    let twice = simplify_stack(once.clone());
    assert_eq!(once, twice);
    assert!(once.contains("#6  0x000055723be891af main\n"));
}

#[test]
fn simplify_leaves_other_lines() {
    let text = "Thread 1 (LWP 5):\nno frames here\n";
    assert_eq!(simplify_stack(text.to_owned()), text);
    assert_eq!(simplify_stack(String::new()), "");
}

#[test]
fn shared_stack_ranks_first() {
    let parsed = parse_threads(StackFormat::Debugger, GDB_INPUT).unwrap();
    assert_eq!(parsed.threads.len(), 3);
    let ranked = rank_groups(&group_threads(&parsed.threads));
    assert_eq!(ranked.len(), 2);
    assert_eq!(ranked[0].contributor_ids, vec!["37748".to_owned(), "37747".to_owned()]);
    assert_eq!(ranked[1].contributor_ids, vec!["37746".to_owned()]);
    assert!(ranked[0].frame_text.contains("in main (argc=1"));
    let report = uniquify(StackFormat::Debugger, GDB_INPUT, &Palette::plain()).unwrap();
    assert!(report.text.starts_with(
        "Number of thread: 2 -- 37748, 37747:\n#0  0x00007f29ce8db9e7 in clock_nanosleep () from /usr/lib64/libc.so.6\n"
    ));
    assert!(report.text.contains("\nNumber of thread: 1 -- 37746:\n#0  0x00007f29ce8db9e7"));
    assert!(report.suspicious.is_empty());
}

#[test]
fn distinct_stacks_stay_apart() {
    let parsed = parse_threads(StackFormat::Unwinder, EU_INPUT).unwrap();
    assert_eq!(parsed.threads.len(), 4);
    let groups = group_threads(&parsed.threads);
    assert_eq!(groups.len(), 3);
    let ranked = rank_groups(&groups);
    assert_eq!(ranked[0].contributor_ids, vec!["14820".to_owned(), "14822".to_owned()]);
    assert_eq!(ranked[1].contributor_ids, vec!["14794".to_owned()]);
    assert_eq!(ranked[2].contributor_ids, vec!["14818".to_owned()]);

    let text = "PID 1 - process\nTID 1:\n#0  0x1 a\nTID 2:\n#0  0x2 b\nTID 3:\n#0  0x3 c\n";
    let parsed = parse_threads(StackFormat::Unwinder, text).unwrap();
    let groups = group_threads(&parsed.threads);
    assert_eq!(groups.len(), 3);
    for g in &groups {
        assert_eq!(g.contributor_ids.len(), 1);
    }
}

#[test]
fn identical_stacks_merge() {
    let text = "PID 1 - process\nTID 7:\n#0  0x1 a\n#1  0x2 b\nTID 8:\n#0  0x1 a\n#1  0x2 b\nTID 9:\n#0  0x1 a\n#1  0x2 b\n";
    let parsed = parse_threads(StackFormat::Unwinder, text).unwrap();
    let ranked = rank_groups(&group_threads(&parsed.threads));
    assert_eq!(ranked.len(), 1);
    assert_eq!(ranked[0].contributor_ids, vec!["7".to_owned(), "8".to_owned(), "9".to_owned()]);
    assert_eq!(ranked[0].frame_text, "#0  0x1 a\n#1  0x2 b\n");
    let report = uniquify(StackFormat::Unwinder, text, &Palette::plain()).unwrap();
    assert_eq!(report.text, "Number of thread: 3 -- 7, 8, 9:\n#0  0x1 a\n#1  0x2 b\n");
}

#[test]
fn format_mismatch_is_refused() {
    assert!(parse_threads(StackFormat::Unwinder, GDB_INPUT).is_err());
    assert!(parse_threads(StackFormat::Debugger, EU_INPUT).err() == Some(ParseError::FormatMismatch));
    assert_eq!(uniquify_eustack(GDB_INPUT), Err("not generated by eu-stack".to_owned()));
    assert_eq!(uniquify_gdb(EU_INPUT), Err(format!("not generated by gdb:\n{}", EU_INPUT)));
    assert!(parse_threads(StackFormat::Unwinder, "").is_err());
}

#[test]
fn suspicious_group_is_marked() {
    let text = "PID 1 - process\nTID 10:\n#0  0x1 raise\n#1  0x2 Segmentation Fault handler\nTID 11:\n#0  0x3 poll\n";
    let report = uniquify(StackFormat::Unwinder, text, &Palette::plain()).unwrap();
    assert_eq!(report.suspicious, vec!["10".to_owned()]);
    assert!(report.text.contains("#1  0x2 Segmentation Fault handler                           <---- HERE \n"));
    assert!(report.text.contains("#0  0x1 raise                           <---- HERE \n"));
    assert!(report.text.contains("#0  0x3 poll\n"));
    assert!(report.text.ends_with("\nSuspicious threads: 10"));
}

#[test]
fn segmentation_fault_is_suspicious() {
    let text = "Thread 2 (LWP 21):\n#0  0x1 in handler () received segmentation fault\nThread 1 (LWP 20):\n#0  0x2 in poll ()\n";
    let report = uniquify(StackFormat::Debugger, text, &Palette::plain()).unwrap();
    assert_eq!(report.suspicious, vec!["21".to_owned()]);
    assert!(report.text.contains("received segmentation fault                           <---- HERE \n"));
    assert!(report.text.ends_with("Suspicious threads: 21"));
}

#[test]
fn fatal_signals_marks_line() {
    let text = "PID 1 - process\nTID 4:\n#0  0x1 FATAL: caught signals\n";
    let report = uniquify(StackFormat::Unwinder, text, &Palette::plain()).unwrap();
    assert_eq!(report.suspicious, vec!["4".to_owned()]);
    let text = "PID 1 - process\nTID 4:\n#0  0x1 signals then fatal\n";
    let report = uniquify(StackFormat::Unwinder, text, &Palette::plain()).unwrap();
    assert!(report.suspicious.is_empty());
}

#[test]
fn unwinder_without_threads_has_no_block() {
    let parsed = parse_threads(StackFormat::Unwinder, "PID 3 - process\n#0  0x1 a\n").unwrap();
    assert!(parsed.threads.is_empty());
    let report = uniquify(StackFormat::Unwinder, "PID 3 - process\n", &Palette::plain()).unwrap();
    assert_eq!(report.text, "");
    assert!(!report.text.contains("Number of thread: "));
}

#[test]
fn report_keeps_unparsed_lines() {
    let text = "Thread 1 (LWP 5):\n#0  0x1 in f ()\ngarbage\n";
    let report = uniquify(StackFormat::Debugger, text, &Palette::plain()).unwrap();
    assert_eq!(report.unparsed, vec!["garbage".to_owned()]);
    assert_eq!(unparsed_lines(StackFormat::Debugger, text), vec!["garbage".to_owned()]);
    assert!(unparsed_lines(StackFormat::Unwinder, text).is_empty());
}

#[test]
fn palette_follows_probes() {
    let colored = Palette::palette_from(&"\u{1b}[34mx\u{1b}[0m".to_owned(), &"x".to_owned(), "M".to_owned());
    assert_eq!(colored.line_on, "\u{1b}[34m");
    assert_eq!(colored.line_off, "\u{1b}[0m");
    assert_eq!(colored.ids_on, "");
    assert_eq!(colored.ids_off, "");
    assert_eq!(colored.marker, "M");
}

#[test]
fn debugger_reports_unparsed_lines() {
    let text = "noise before\nThread 1 (LWP 5):\n#0  0x1 in f ()\ngarbage\n[Inferior 1 (process 5) detached]\n";
    let parsed = parse_threads(StackFormat::Debugger, text).unwrap();
    assert_eq!(parsed.unparsed, vec!["garbage".to_owned()]);
    assert_eq!(parsed.threads.len(), 1);
    assert_eq!(parsed.threads[0].thread_id, "5");
    assert_eq!(parsed.threads[0].frames, "#0  0x1 in f ()\n");
}

#[test]
fn terminal_palette_uses_colored_styles() {
    let p = Palette::terminal();
    assert!(p.line_on.is_empty() || p.line_on == "\u{1b}[34m");
    assert!(p.marker.contains("<---- HERE "));
    assert!(p.ids_on.is_empty() || p.ids_on == "\u{1b}[31m");
}
