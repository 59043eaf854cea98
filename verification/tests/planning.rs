use fake::driver::{Plan, PlanFault, Request};
use fake::path::FilePath;
use fake::{Driver, DriverBuilder, OpRef, StateRef};

/// Four states in a row, a shortcut from the first to the third, and a way back.
fn driver() -> Driver {
    let mut b = DriverBuilder::default();
    let a = b.state("alpha", &["a", "aa"]);
    let m = b.state("beta", &["b"]);
    let c = b.state("gamma", &["c"]);
    let d = b.state("delta", &["d", "b"]);
    b.state("island", &[]);
    b.rule(None, a, m, "a-to-b");
    b.rule(None, m, c, "b-to-c");
    b.rule(None, c, d, "c-to-d");
    b.rule(None, a, c, "a-to-c");
    b.rule(None, a, c, "a-to-c-again");
    b.rule(None, d, a, "d-to-a");
    b.build()
}

fn request(start: u32, file: &str, end: u32, end_file: Option<&str>) -> Request {
    Request {
        start_state: StateRef(start),
        start_file: FilePath::from_str(file),
        end_state: StateRef(end),
        end_file: end_file.map(FilePath::from_str),
    }
}

fn files(plan: &Plan) -> Vec<(u32, String)> {
    plan.steps
        .iter()
        .map(|(op, file)| (op.0, String::from_utf8(file.bytes.clone()).unwrap()))
        .collect()
}

#[test]
fn fewest_operations_win() {
    let path = driver().find_path(StateRef(0), StateRef(3)).unwrap();
    assert_eq!(path, vec![OpRef(3), OpRef(2)]);
}

#[test]
fn earlier_operations_win() {
    let path = driver().find_path(StateRef(0), StateRef(2)).unwrap();
    assert_eq!(path, vec![OpRef(3)]);
    let mut b = DriverBuilder::default();
    let s = b.state("s", &[]);
    let x = b.state("x", &[]);
    let y = b.state("y", &[]);
    let t = b.state("t", &[]);
    b.rule(None, x, t, "x-to-t");
    b.rule(None, y, t, "y-to-t");
    b.rule(None, s, y, "s-to-y");
    b.rule(None, s, x, "s-to-x");
    let path = b.build().find_path(s, t).unwrap();
    assert_eq!(path, vec![OpRef(2), OpRef(1)]);
}

#[test]
fn no_operation_leads_to_itself() {
    assert_eq!(driver().find_path(StateRef(1), StateRef(1)), Some(vec![]));
    assert_eq!(driver().find_path(StateRef(4), StateRef(4)), Some(vec![]));
}

#[test]
fn paths_around_a_cycle_repeat_nothing() {
    let driver = driver();
    let path = driver.find_path(StateRef(1), StateRef(0)).unwrap();
    assert_eq!(path, vec![OpRef(1), OpRef(2), OpRef(5)]);
}

#[test]
fn no_path_is_found_where_there_is_none() {
    assert_eq!(driver().find_path(StateRef(0), StateRef(4)), None);
    assert_eq!(driver().find_path(StateRef(4), StateRef(0)), None);
    assert_eq!(driver().find_path(StateRef(0), StateRef(77)), None);
}

#[test]
fn operations_of_a_path_fit_together() {
    let ends = [(0, 1), (1, 2), (2, 3), (0, 2), (0, 2), (3, 0)];
    let driver = driver();
    for from in 0..4 {
        for to in 0..4 {
            let mut at = from;
            for op in driver.find_path(StateRef(from), StateRef(to)).unwrap() {
                assert_eq!(ends[op.0 as usize].0, at);
                at = ends[op.0 as usize].1;
            }
            assert_eq!(at, to);
        }
    }
}

#[test]
fn earlier_references_are_kept() {
    let mut b = DriverBuilder::default();
    let first = b.state("first", &["1"]);
    let second = b.state("second", &["2"]);
    let op = b.rule(None, first, second, "go");
    b.state("third", &["1"]);
    b.rule(None, first, second, "go again");
    let driver = b.build();
    assert_eq!(driver.get_state("first"), Some(first));
    assert_eq!(driver.guess_state(&FilePath::from_str("x.1")), Some(first));
    assert_eq!(driver.find_path(first, second), Some(vec![op]));
}

#[test]
fn states_are_found_by_name() {
    let driver = driver();
    assert_eq!(driver.get_state("alpha"), Some(StateRef(0)));
    assert_eq!(driver.get_state("delta"), Some(StateRef(3)));
    assert_eq!(driver.get_state("Delta"), None);
}

#[test]
fn states_are_guessed_by_extension() {
    let driver = driver();
    assert_eq!(driver.guess_state(&FilePath::from_str("x/y.aa")), Some(StateRef(0)));
    assert_eq!(driver.guess_state(&FilePath::from_str("y.b")), Some(StateRef(1)));
    assert_eq!(driver.guess_state(&FilePath::from_str("y.d")), Some(StateRef(3)));
    assert_eq!(driver.guess_state(&FilePath::from_str("y.z")), None);
    assert_eq!(driver.guess_state(&FilePath::from_str("y")), None);
    assert_eq!(driver.guess_state(&FilePath { bytes: vec![b'y', b'.', 0xff] }), None);
}

#[test]
fn plans_name_their_files() {
    let driver = driver();
    let plan = driver.plan(request(0, "in/main.a", 3, None)).unwrap();
    assert_eq!(plan.start.bytes, b"in/main.a".to_vec());
    assert_eq!(files(&plan), vec![(3, "main.c".to_string()), (2, "main.d".to_string())]);
}

#[test]
fn a_given_name_replaces_the_last_one() {
    let plan = driver().plan(request(0, "main.a", 3, Some("out/result"))).unwrap();
    assert_eq!(files(&plan), vec![(3, "main.c".to_string()), (2, "out/result".to_string())]);
}

#[test]
fn inner_dots_of_the_stem_are_dropped() {
    let plan = driver().plan(request(0, "main.old.a", 2, None)).unwrap();
    assert_eq!(files(&plan), vec![(3, "main.c".to_string())]);
    let plan = driver().plan(request(0, "..a", 2, None)).unwrap();
    assert_eq!(files(&plan), vec![(3, ".".to_string())]);
    let plan = driver().plan(request(0, "..x.a", 2, None)).unwrap();
    assert_eq!(files(&plan), vec![(3, "..".to_string())]);
}

#[test]
fn planned_files_tell_their_states() {
    let driver = driver();
    let plan = driver.plan(request(0, "main.a", 3, None)).unwrap();
    assert_eq!(driver.guess_state(&plan.steps[0].1), Some(StateRef(2)));
    assert_eq!(driver.guess_state(&plan.steps[1].1), Some(StateRef(3)));
}

#[test]
fn unreachable_states_have_no_plan() {
    assert!(driver().plan(request(0, "..", 4, None)).is_none());
    assert_eq!(driver().check_plan(&request(0, "..", 4, None)), None);
}

#[test]
fn faults_of_requests() {
    let driver = driver();
    assert_eq!(driver.check_plan(&request(0, "main.a", 3, Some("x"))), None);
    assert_eq!(driver.check_plan(&request(0, "..", 3, None)), Some(PlanFault::NoFileName));
    assert_eq!(driver.check_plan(&request(0, "main.a", 0, None)), None);
    assert_eq!(driver.check_plan(&request(0, "main.a", 0, Some("x"))), Some(PlanFault::NoSteps));
    let mut b = DriverBuilder::default();
    let s = b.state("s", &["s"]);
    let t = b.state("t", &[]);
    let u = b.state("u", &["u/v"]);
    let to_t = b.rule(None, s, t, "s-to-t");
    let to_u = b.rule(None, s, u, "s-to-u");
    let lost = b.rule(None, s, StateRef(9), "s-to-nowhere");
    let driver = b.build();
    assert_eq!(driver.check_plan(&request(0, "x", 1, None)), Some(PlanFault::NoExtension(to_t)));
    assert_eq!(driver.check_plan(&request(0, "x", 2, None)), Some(PlanFault::NoExtension(to_u)));
    assert_eq!(driver.check_plan(&request(0, "x", 9, None)), Some(PlanFault::NoExtension(lost)));
}

#[test]
fn extensions_of_a_state() {
    let state = fake::State {
        name: "s".to_string(),
        extensions: vec!["a".to_string(), "bc".to_string()],
    };
    assert!(state.ext_matches("a"));
    assert!(state.ext_matches("bc"));
    assert!(!state.ext_matches("b"));
    assert!(!state.ext_matches(""));
}

#[test]
fn references_are_counted_up() {
    let mut b = DriverBuilder::default();
    assert_eq!(b.state("x", &[]), StateRef(0));
    assert_eq!(b.state("y", &[]), StateRef(1));
    assert_eq!(b.rule(None, StateRef(0), StateRef(1), "r"), OpRef(0));
    assert_eq!(StateRef(0).to_string(), "state0");
    assert_eq!(OpRef(1234567890).to_string(), "operation1234567890");
    assert_eq!(fake::SetupRef(4294967295).to_string(), "setup4294967295");
}

#[test]
fn references_print_alike_everywhere() {
    assert_eq!(format!("{} {:?}", StateRef(3), StateRef(3)), "state3 state3");
    assert_eq!(format!("{} {:?}", OpRef(10), OpRef(10)), "operation10 operation10");
    assert_eq!(format!("{} {:?}", fake::SetupRef(0), fake::SetupRef(0)), "setup0 setup0");
    assert_eq!(StateRef(3).text(), "state3");
}

#[test]
fn requests_and_plans_are_printed_for_debugging() {
    let req = request(0, "main.a", 3, Some("out"));
    assert_eq!(
        format!("{:?}", req),
        "Request { start_state: state0, start_file: \"main.a\", end_state: state3, \
         end_file: Some(\"out\") }"
    );
    let plan = driver().plan(req).unwrap();
    assert_eq!(
        format!("{:?}", plan),
        "Plan { start: \"main.a\", steps: [(operation3, \"main.c\"), (operation2, \"out\")] }"
    );
}

#[test]
fn contents_of_a_driver() {
    let driver = driver();
    assert_eq!(driver.state_at(StateRef(3)).unwrap().name, "delta");
    assert_eq!(driver.state_at(StateRef(3)).unwrap().extensions, vec!["d", "b"]);
    assert!(driver.state_at(StateRef(5)).is_none());
    let op = driver.op_at(OpRef(3)).unwrap();
    assert_eq!(op.meta.name, "a-to-c");
    assert_eq!((op.meta.input, op.meta.output), (StateRef(0), StateRef(2)));
    assert!(op.meta.setup.is_none());
    assert!(driver.op_at(OpRef(6)).is_none());
    assert!(driver.setup_at(fake::SetupRef(0)).is_none());
}

#[test]
fn beginnings_of_best_paths_are_best() {
    let ends = [(0, 1), (1, 2), (2, 3), (0, 2), (0, 2), (3, 0)];
    let driver = driver();
    let path = driver.find_path(StateRef(1), StateRef(0)).unwrap();
    for i in 1..path.len() {
        let mid = ends[path[i - 1].0 as usize].1;
        let first = driver.find_path(StateRef(1), StateRef(mid)).unwrap();
        assert_eq!(first, path[..i].to_vec());
    }
}

#[test]
fn added_operations_make_no_path_longer() {
    let mut lengths = Vec::new();
    for extra in 0..3 {
        let mut b = DriverBuilder::default();
        let s: Vec<StateRef> = (0..4).map(|_| b.state("s", &[])).collect();
        b.rule(None, s[0], s[1], "r");
        b.rule(None, s[1], s[2], "r");
        b.rule(None, s[2], s[3], "r");
        if extra > 0 {
            b.rule(None, s[0], s[2], "r");
        }
        if extra > 1 {
            b.rule(None, s[3], s[0], "r");
        }
        lengths.push(b.build().find_path(s[0], s[3]).unwrap().len());
    }
    assert_eq!(lengths, vec![3, 2, 2]);
}
