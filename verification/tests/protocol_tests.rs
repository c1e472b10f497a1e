use ril::error::{error_line, RilError};
use ril::executor::{exit_message, is_auto_mode, plan_pipeline, stage_name, MonitorEvent, StderrMonitor};
use ril::parser::parse;
use ril::protocol::{batch_line, control_line, parse_control_line, timing_line, total_line};

#[test]
fn lines_are_written_as_documented() {
    assert_eq!(batch_line(12), "RIL_BATCH:12");
    assert_eq!(total_line(0), "RIL_TOTAL_BATCHES:0");
    assert_eq!(timing_line(12345), "RIL_TIMING:12.345");
    assert_eq!(timing_line(7), "RIL_TIMING:0.007");
    assert_eq!(control_line(5), "5\n");
    assert_eq!(error_line("a\nb"), "RIL_ERROR:a\\nb");
}

#[test]
fn control_lines_are_read_back() {
    assert_eq!(parse_control_line(" 7 \n"), Some(7));
    assert_eq!(parse_control_line(&control_line(123)), Some(123));
    assert_eq!(parse_control_line("x"), None);
    assert_eq!(parse_control_line(""), None);
}

#[test]
fn plan_for_auto_pipeline() {
    let stages = parse("load a.csv | t.py | tee m.csv | save b.csv").unwrap();
    let p = plan_pipeline(&stages).unwrap();
    assert_eq!(p.names, vec!["load a.csv", "t.py", "tee m.csv", "save b.csv"]);
    assert_eq!(p.load_index, Some(0));
    assert_eq!(p.progress_index, Some(3));
    assert_eq!(p.script_indices, vec![1]);
    assert_eq!(p.capture_stderr, vec![true, true, false, true]);
    assert!(p.auto_mode);
    assert_eq!(p.auto_alloc, vec![false, true, false, false]);
    assert_eq!(p.timed_stages, 1);
    assert_eq!(p.pinned_workers, 0);
}

#[test]
fn pinned_stages_are_left_out_of_the_split() {
    let stages = parse("load a | x.py x3 | y.py | z.py x2 | tee t").unwrap();
    assert!(is_auto_mode(&stages));
    let p = plan_pipeline(&stages).unwrap();
    assert_eq!(p.auto_alloc, vec![false, false, true, false, false]);
    assert_eq!(p.pinned_workers, 5);
    assert_eq!(p.timed_stages, 1);
    assert_eq!(p.progress_index, Some(3));
    let all_pinned = parse("load a | x.py x3 | save b").unwrap();
    assert!(!is_auto_mode(&all_pinned));
    let q = plan_pipeline(&all_pinned).unwrap();
    assert!(!q.auto_mode);
    assert_eq!(q.auto_alloc, vec![false, false, false]);
}

#[test]
fn empty_pipeline_is_refused() {
    assert_eq!(plan_pipeline(&vec![]).err(), Some(RilError::Fatal("empty pipeline".to_string())));
}

#[test]
fn stage_names() {
    let stages = parse("load a.csv +5 | ./bin k=v | save o.csv").unwrap();
    assert_eq!(stage_name(&stages[0]), "load a.csv");
    assert_eq!(stage_name(&stages[1]), "./bin");
    assert_eq!(stage_name(&stages[2]), "save o.csv");
}

#[test]
fn monitors_route_lines() {
    let stages = parse("load a.csv | t.py | save b.csv").unwrap();
    let p = plan_pipeline(&stages).unwrap();
    let mut load = StderrMonitor::new(&p, 0);
    assert_eq!(load.on_line("RIL_TOTAL_BATCHES:10"), MonitorEvent::Total(10));
    assert_eq!(load.on_line("RIL_BATCH:3"), MonitorEvent::Nothing);
    let mut save = StderrMonitor::new(&p, 2);
    assert_eq!(save.on_line(&batch_line(3)), MonitorEvent::Batch(3));
    assert_eq!(save.on_line("RIL_TOTAL_BATCHES:10"), MonitorEvent::Nothing);
    assert_eq!(save.on_line("RIL_BATCH:x"), MonitorEvent::Nothing);
    let mut script = StderrMonitor::new(&p, 1);
    assert_eq!(script.on_line("RIL_TIMING:12.5"), MonitorEvent::Timing(12500));
    assert_eq!(script.on_line("RIL_TIMING:13"), MonitorEvent::Nothing);
    assert_eq!(
        script.on_line(&error_line("boom\nline 2")),
        MonitorEvent::Print("error in stage[1] `t.py`: boom\\nline 2".to_string())
    );
    assert_eq!(script.on_line("hello"), MonitorEvent::Print("hello".to_string()));
}

#[test]
fn timing_values() {
    let stages = parse("t.py").unwrap();
    let p = plan_pipeline(&stages).unwrap();
    let read = |line: &str| {
        let mut m = StderrMonitor::new(&p, 0);
        m.on_line(line)
    };
    assert_eq!(read("RIL_TIMING:3"), MonitorEvent::Timing(3000));
    assert_eq!(read("RIL_TIMING:0.0004"), MonitorEvent::Timing(0));
    assert_eq!(read("RIL_TIMING:1.23456"), MonitorEvent::Timing(1234));
    assert_eq!(read(&timing_line(987654321)), MonitorEvent::Timing(987654321));
    assert_eq!(read("RIL_TIMING:1e3"), MonitorEvent::Nothing);
    assert_eq!(read("RIL_TIMING:.5"), MonitorEvent::Nothing);
    assert_eq!(read("RIL_TIMING:"), MonitorEvent::Nothing);
}

#[test]
fn exit_messages() {
    assert_eq!(exit_message(2, "save out.csv", Some(1)), "stage[2] `save out.csv` exited with code 1");
    assert_eq!(exit_message(0, "x", None), "stage[0] `x` exited with code signal");
    assert_eq!(exit_message(1, "y.py", Some(-9)), "stage[1] `y.py` exited with code -9");
    assert_eq!(exit_message(1, "y.py", Some(i32::MIN)), "stage[1] `y.py` exited with code -2147483648");
}
