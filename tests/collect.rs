use callstack::rows::rows_matching;
use callstack::collect::{
    handle_content, prefix_of, prepare_output, render_collected, sampling_plan, Batch, Invocation, SampleStep,
    Sampler, SamplingPlan, Verdict,
};
use callstack::parse::StackFormat;
use callstack::targets::{
    check_files, ensure_file_exists, eustack_core_args, eustack_pid_args, gdb_pid_args, page_size, parse_pid,
    process_rows, ps_args, truncate_row, visible_columns,
};

fn ok_run(out: &str) -> Invocation {
    Invocation::Finished { exit_code: 0, stdout: out.to_owned(), stderr: String::new() }
}

#[test]
fn sampling_interval_is_clamped() {
    let plan = sampling_plan(Some(1), 3);
    assert_eq!(plan, SamplingPlan { interval_ms: 100, count: 3 });
    let mut s = Sampler::new(plan);
    let mut runs = 1;
    let mut step = s.record(ok_run("a"));
    while let SampleStep::Sleep(ms) = step {
        assert_eq!(ms, 100);
        runs += 1;
        step = s.record(ok_run("b"));
    }
    assert!(matches!(step, SampleStep::Done));
    assert_eq!(runs, 3);
    assert_eq!(s.text(), "a\nb\nb");
    assert_eq!(prefix_of(&plan), "Interval: 0.1, Count: 3\n");
}

#[test]
fn sampling_plan_cases() {
    assert_eq!(sampling_plan(None, 5), SamplingPlan { interval_ms: 0, count: 1 });
    assert_eq!(sampling_plan(Some(500), 2), SamplingPlan { interval_ms: 500, count: 2 });
    assert_eq!(sampling_plan(Some(10), 0), SamplingPlan { interval_ms: 0, count: 1 });
    assert_eq!(sampling_plan(Some(10), -3), SamplingPlan { interval_ms: 0, count: 1 });
    assert_eq!(sampling_plan(Some(10), 1), SamplingPlan { interval_ms: 0, count: 1 });
    assert_eq!(prefix_of(&SamplingPlan { interval_ms: 1500, count: 2 }), "Interval: 1.5, Count: 2\n");
    assert_eq!(prefix_of(&SamplingPlan { interval_ms: 2000, count: 4 }), "Interval: 2, Count: 4\n");
    assert_eq!(prefix_of(&SamplingPlan { interval_ms: 250, count: 2 }), "Interval: 0.25, Count: 2\n");
    assert_eq!(prefix_of(&SamplingPlan { interval_ms: 1234, count: 12 }), "Interval: 1.234, Count: 12\n");
    assert_eq!(prefix_of(&SamplingPlan { interval_ms: 0, count: 1 }), "");
}

#[test]
fn sampler_failures() {
    let plan = SamplingPlan { interval_ms: 100, count: 2 };
    let mut s = Sampler::new(plan);
    let step = s.record(Invocation::Finished { exit_code: 1, stdout: "x".to_owned(), stderr: "warn".to_owned() });
    assert!(matches!(step, SampleStep::Sleep(100)));
    assert_eq!(s.warnings, vec!["warn".to_owned()]);
    match s.record(Invocation::Finished { exit_code: 2, stdout: String::new(), stderr: "bad".to_owned() }) {
        SampleStep::Failed(e) => assert_eq!(e, "bad"),
        _ => panic!("a failing exit code must end the target"),
    }
    let mut s = Sampler::new(plan);
    match s.record(Invocation::SpawnFailed("no such tool".to_owned())) {
        SampleStep::Failed(e) => assert_eq!(e, "no such tool"),
        _ => panic!("a spawn failure must end the target"),
    }
    let mut s = Sampler::new(plan);
    assert!(matches!(
        s.record(Invocation::Finished { exit_code: -1, stdout: String::new(), stderr: "killed".to_owned() }),
        SampleStep::Failed(_)
    ));
}

#[test]
fn one_failed_target_is_isolated() {
    let a = "PID 1 - process\nTID 1:\n#0  0x1 poll\n";
    let b = "PID 2 - process\nTID 2:\n#0  0x1 poll\n";
    let mut batch = Batch::new();
    batch.record("1".to_owned(), Ok(a.to_owned()));
    batch.record("2".to_owned(), Err("boom".to_owned()));
    batch.record("3".to_owned(), Ok(b.to_owned()));
    assert_eq!(batch.verdict(), Verdict::SomeFailed);
    assert_eq!(batch.failed, vec!["2".to_owned()]);
    assert_eq!(batch.outputs.len(), 2);
    assert_eq!(batch.failed_text(), "2");
    let plan = SamplingPlan { interval_ms: 0, count: 1 };
    let report = render_collected(StackFormat::Unwinder, true, &plan, &batch.output_text()).unwrap();
    assert!(report.starts_with("Number of thread: 2 -- 1, 2:\n#0  0x1 poll\n"));
}

#[test]
fn batch_verdicts() {
    let mut batch = Batch::new();
    assert_eq!(batch.verdict(), Verdict::NoTargets);
    batch.record("1".to_owned(), Err("x".to_owned()));
    batch.record("2".to_owned(), Err("y".to_owned()));
    assert_eq!(batch.verdict(), Verdict::AllFailed);
    assert_eq!(batch.failed_text(), "1,2");
    let mut batch = Batch::new();
    batch.record("1".to_owned(), Ok("out".to_owned()));
    assert_eq!(batch.verdict(), Verdict::AllSucceeded);
}

#[test]
fn collected_text_without_grouping() {
    let plan = SamplingPlan { interval_ms: 500, count: 2 };
    let r = render_collected(StackFormat::Unwinder, false, &plan, "raw text").unwrap();
    assert_eq!(r, "Interval: 0.5, Count: 2\nraw text");
    let r = render_collected(StackFormat::Unwinder, true, &plan, "raw text");
    assert_eq!(r, Err("not generated by eu-stack".to_owned()));
}

#[test]
fn debugger_output_is_simplified_unless_raw() {
    let out = "#3  0x5 in func2 () at test.c:5".to_owned();
    assert_eq!(prepare_output(StackFormat::Debugger, false, out.clone()), "#3  0x5 func2");
    assert_eq!(prepare_output(StackFormat::Debugger, true, out.clone()), out);
    assert_eq!(prepare_output(StackFormat::Unwinder, false, out.clone()), out);
}

#[test]
fn content_is_tried_in_both_formats() {
    let eu = "PID 1 - process\nTID 1:\n#0  0x1 poll\n";
    assert!(handle_content(eu, true, true).unwrap().starts_with("Number of thread: 1 -- 1:"));
    let gdb = "Thread 1 (LWP 9):\n#0  0x1 in poll () from libc.so\n";
    let r = handle_content(gdb, false, true).unwrap();
    assert!(r.contains("-- 9:\n#0  0x1 poll\n"));
    assert_eq!(handle_content(gdb, false, false).unwrap(), "Thread 1 (LWP 9):\n#0  0x1 poll\n");
    assert_eq!(handle_content("nothing", true, true), Err("unrecognized stack format".to_owned()));
}

#[test]
fn test_parse_and_get_pid() {
    assert_eq!(parse_pid(" 320282 root     15:29 [kworker/0:2-i915-unordered]"), Some("320282".to_owned()));
}

#[test]
fn pid_parsing_cases() {
    assert_eq!(parse_pid("no digits here"), None);
    assert_eq!(parse_pid("a12b 34 x"), Some("34".to_owned()));
    assert_eq!(parse_pid("12"), None);
}

#[test]
fn tool_arguments() {
    assert_eq!(eustack_pid_args("42"), vec!["-p", "42"]);
    assert_eq!(eustack_core_args("core", None), vec!["--core", "core"]);
    assert_eq!(eustack_core_args("core", Some("exe")), vec!["--core", "core", "-e", "exe"]);
    assert_eq!(gdb_pid_args("7"), vec!["--batch", "-p", "7", "-ex", "thread apply all backtrace"]);
    assert_eq!(ps_args(None), vec!["-o", "pid,user,stime,cmd", "-A"]);
    assert_eq!(ps_args(Some("root")), vec!["-o", "pid,user,stime,cmd", "-u", "root", "-U", "root"]);
}

#[test]
fn process_table_rows() {
    assert_eq!(process_rows("PID USER\n1 root\n2 me"), vec!["1 root", "2 me"]);
    assert!(process_rows("PID USER").is_empty());
}

#[test]
fn file_list_checks() {
    assert!(check_files(&vec!["-".to_owned()]).is_ok());
    assert_eq!(
        check_files(&vec!["a".to_owned(), "-".to_owned()]),
        Err("stdin should not be used together with other files".to_owned())
    );
    assert_eq!(check_files(&vec!["a".to_owned(), "-x".to_owned()]), Err("Failed to parse arg: -x".to_owned()));
    assert!(check_files(&vec!["a".to_owned(), "b".to_owned()]).is_ok());
}

#[test]
fn layout_helpers() {
    assert_eq!(page_size(24), 22);
    assert_eq!(page_size(5), 7);
    assert_eq!(visible_columns(80, true), 72);
    assert_eq!(visible_columns(80, false), 76);
    assert_eq!(visible_columns(3, false), 0);
    assert_eq!(truncate_row("abcdef", 3), "abc");
    assert_eq!(truncate_row("ab", 3), "ab");
}

#[test]
fn missing_file_is_reported() {
    assert_eq!(
        ensure_file_exists("/no/such/file/here"),
        Err("File /no/such/file/here does not exist".to_owned())
    );
    assert!(ensure_file_exists("/").is_ok());
}

#[test]
fn rows_are_filtered_by_pattern() {
    let rows = vec![
        "  1 root 10:00 bash".to_owned(),
        "  2 me   10:01 vim notes".to_owned(),
        " 42 me   10:02 cs -P vim".to_owned(),
    ];
    assert_eq!(rows_matching(&rows, "vim|bash", None).unwrap(), rows.clone());
    assert_eq!(rows_matching(&rows, "vim", Some(42)).unwrap(), vec![rows[1].clone()]);
    assert_eq!(rows_matching(&rows, "^  [0-9] ", None).unwrap(), vec![rows[0].clone(), rows[1].clone()]);
    assert!(rows_matching(&rows, "(", None).is_err());
}
