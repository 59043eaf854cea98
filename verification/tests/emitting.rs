use fake::config::{find_config_file, Config, GlobalConfig};
use fake::driver::{Plan, Request};
use fake::path::FilePath;
use fake::session::{ninja_file, Action, Session};
use fake::{Driver, DriverBuilder, Emitter, OpImpl, OpRef, Run, Setup, SetupRef};
use figment::Figment;

struct Flags;

impl Setup for Flags {
    fn setup(&self, emitter: &mut Emitter) -> std::io::Result<()> {
        emitter.config_var("flags", "compiler.flags")?;
        emitter.config_var_or("exe", "compiler.exe", "cc")?;
        emitter.rule("compile", "$exe $flags $in -o $out")
    }
}

struct Broken;

impl Setup for Broken {
    fn setup(&self, emitter: &mut Emitter) -> std::io::Result<()> {
        emitter.write_str("half");
        Err(std::io::Error::new(std::io::ErrorKind::Other, "broken setup"))
    }
}

struct Copy;

impl OpImpl for Copy {
    fn build(
        &self,
        emitter: &mut Emitter,
        input: &FilePath,
        output: &FilePath,
    ) -> std::io::Result<()> {
        emitter.build("copy", input, output)
    }
}

struct Refuse;

impl OpImpl for Refuse {
    fn build(&self, _: &mut Emitter, _: &FilePath, _: &FilePath) -> std::io::Result<()> {
        Err(std::io::Error::new(std::io::ErrorKind::Other, "refused"))
    }
}

fn data() -> Figment {
    Figment::from(("compiler.flags", "-O2")).merge(("jobs", 4))
}

fn config() -> Config {
    Config { data: data(), global: GlobalConfig::default() }
}

fn driver() -> Driver {
    let mut b = DriverBuilder::default();
    let c = b.state("c", &["c"]);
    let o = b.state("o", &["o"]);
    let x = b.state("x", &["x"]);
    let flags = b.add_setup(Box::new(Flags));
    let broken = b.setup(Box::new(Broken));
    b.rule(Some(flags), c, o, "compile");
    b.op("copy file", Some(flags), o, x, Box::new(Copy));
    b.rule(Some(broken), o, c, "decompile");
    b.op("refuse", None, x, c, Box::new(Refuse));
    b.rule(None, c, x, "skip");
    b.build()
}

fn plan(steps: &[(u32, &str)]) -> Plan {
    Plan {
        start: FilePath::from_str("main.c"),
        steps: steps.iter().map(|(op, f)| (OpRef(*op), FilePath::from_str(f))).collect(),
    }
}

fn emitted(steps: &[(u32, &str)]) -> (String, Result<(), String>) {
    let driver = driver();
    let run = Run::new(&driver, plan(steps), config());
    assert!(run.knows_steps());
    assert!(run.knows_setups());
    let (emitter, result) = run.emit();
    (String::from_utf8(emitter.out).unwrap(), result.map_err(|e| e.to_string()))
}

#[test]
fn setups_are_emitted_once_before_the_builds() {
    let (text, result) = emitted(&[(0, "main.o"), (1, "main.x")]);
    assert_eq!(result, Ok(()));
    assert_eq!(
        text,
        "# setup0\nflags = -O2\nexe = cc\nrule compile\n  command = $exe $flags $in -o $out\n\n\
         # build targets\nbuild main.o: compile main.c\nbuild main.x: copy main.o\n\n\
         default main.x\n"
    );
}

#[test]
fn rules_without_setups_are_emitted_alone() {
    let (text, result) = emitted(&[(4, "a"), (4, "b")]);
    assert_eq!(result, Ok(()));
    assert_eq!(
        text,
        "# build targets\nbuild a: skip main.c\nbuild b: skip a\n\ndefault b\n"
    );
}

#[test]
fn an_empty_plan_has_its_input_as_target() {
    let (text, result) = emitted(&[]);
    assert_eq!(result, Ok(()));
    assert_eq!(text, "# build targets\n\ndefault main.c\n");
}

#[test]
fn a_failing_setup_ends_emission() {
    let (text, result) = emitted(&[(2, "main.c"), (0, "main.o")]);
    assert_eq!(result, Err("broken setup".to_string()));
    assert_eq!(text, "# setup1\nhalf");
}

#[test]
fn a_failing_build_ends_emission() {
    let (text, result) = emitted(&[(4, "a"), (3, "b"), (4, "c")]);
    assert_eq!(result, Err("refused".to_string()));
    assert_eq!(text, "# build targets\nbuild a: skip main.c\n");
}

#[test]
fn setups_of_a_driver() {
    let driver = driver();
    let mut emitter = Emitter::new(data());
    driver.setup_at(SetupRef(0)).unwrap().inner.setup(&mut emitter).unwrap();
    assert!(emitter.out.starts_with(b"flags = -O2\n"));
    assert!(driver.setup_at(SetupRef(1)).unwrap().inner.setup(&mut emitter).is_err());
    assert!(driver.setup_at(SetupRef(2)).is_none());
}

#[test]
fn unknown_steps_and_setups_are_noticed() {
    let driver = driver();
    assert!(!Run::new(&driver, plan(&[(5, "a")]), config()).knows_steps());
    let mut b = DriverBuilder::default();
    let s = b.state("s", &[]);
    b.rule(Some(SetupRef(0)), s, s, "loop");
    let driver = b.build();
    let run = Run::new(&driver, plan(&[(0, "a")]), config());
    assert!(run.knows_steps());
    assert!(!run.knows_setups());
}

#[test]
fn a_plan_for_a_request_can_be_emitted() {
    let driver = driver();
    let plan = driver
        .plan(Request {
            start_state: driver.get_state("c").unwrap(),
            start_file: FilePath::from_str("src/main.c"),
            end_state: driver.get_state("o").unwrap(),
            end_file: None,
        })
        .unwrap();
    let run = Run::new(&driver, plan, config());
    assert!(run.knows_steps());
    assert!(run.knows_setups());
    let (emitter, result) = run.emit();
    assert!(result.is_ok());
    assert!(String::from_utf8(emitter.out)
        .unwrap()
        .ends_with("\nbuild main.o: compile src/main.c\n\ndefault main.o\n"));
}

#[test]
fn listing_of_a_plan() {
    let driver = driver();
    let text = Run::new(&driver, plan(&[(0, "main.o"), (1, "out")]), config()).show();
    assert_eq!(
        text,
        "start: main.c\noperation0: compile -> main.o\noperation1: copy file -> out\n"
    );
}

#[test]
fn picture_of_a_plan() {
    let driver = driver();
    let text = Run::new(&driver, plan(&[(0, "main.o")]), config()).show_dot();
    assert_eq!(
        text,
        "digraph plan {\n  node[shape=box];\n\
        \x20 state0 [label=\"c\nmain.c\" penwidth=3 fillcolor=gray style=filled];\n\
        \x20 state1 [label=\"o\nmain.o\" penwidth=3 fillcolor=gray style=filled];\n\
        \x20 state2 [label=\"x\"];\n\
        \x20 state0 -> state1 [label=\"compile\" penwidth=3];\n\
        \x20 state1 -> state2 [label=\"copy file\"];\n\
        \x20 state1 -> state0 [label=\"decompile\"];\n\
        \x20 state2 -> state0 [label=\"refuse\"];\n\
        \x20 state0 -> state2 [label=\"skip\"];\n}\n"
    );
}

#[test]
fn the_picture_shows_the_last_file_of_a_state() {
    let driver = driver();
    let text = Run::new(&driver, plan(&[(0, "main.o"), (2, "again.c")]), config()).show_dot();
    assert!(text.contains("state0 [label=\"c\nagain.c\" penwidth=3"));
    assert!(!text.contains("main.c"));
}

#[test]
fn configured_values() {
    let mut emitter = Emitter::new(data());
    assert_eq!(emitter.config_get("compiler.flags"), Some("-O2".to_string()));
    assert_eq!(emitter.config_get("compiler"), None);
    assert_eq!(emitter.config_get("jobs"), None);
    assert_eq!(emitter.config_get("missing"), None);
    assert_eq!(emitter.config_val("compiler.flags"), "-O2");
    assert_eq!(emitter.config_or("compiler.flags", "x"), "-O2");
    assert_eq!(emitter.config_or("missing", "x"), "x");
    emitter.config_var("a", "compiler.flags").unwrap();
    emitter.config_var_or("b", "missing", "x").unwrap();
    emitter.var("c", "d").unwrap();
    assert_eq!(emitter.out, b"a = -O2\nb = x\nc = d\n".to_vec());
}

#[test]
fn ninja_statements() {
    let mut emitter = Emitter::new(Figment::new());
    emitter.rule("cp", "cp $in $out").unwrap();
    emitter
        .build("cp", &FilePath { bytes: vec![b'i', 0xff] }, &FilePath::from_str("o"))
        .unwrap();
    assert_eq!(
        emitter.out,
        b"rule cp\n  command = cp $in $out\nbuild o: cp i\xff\n".to_vec()
    );
}

#[test]
fn default_options() {
    let options = GlobalConfig::default();
    assert_eq!(options.ninja, "ninja");
    assert!(!options.keep_build_dir);
}

#[test]
fn place_of_the_configuration_file() {
    let place = |config_home: Option<&str>, home: Option<&str>| {
        find_config_file(config_home.map(|s| s.to_string()), home.map(|s| s.to_string()))
            .map(|p| String::from_utf8(p.bytes).unwrap())
    };
    assert_eq!(place(Some("/etc/x"), Some("/home/me")), Some("/etc/x/fake.toml".to_string()));
    assert_eq!(place(None, Some("/home/me")), Some("/home/me/.config/fake.toml".to_string()));
    assert_eq!(place(Some(""), None), Some("fake.toml".to_string()));
    assert_eq!(place(None, None), None);
}

fn actions(keep: bool, stale: bool, outcomes: &[bool]) -> Vec<Action> {
    let options = GlobalConfig { ninja: "ninja".to_string(), keep_build_dir: keep };
    let mut session = Session::new(&options, stale);
    let mut list = vec![session.action];
    for ok in outcomes {
        session.advance(*ok);
        list.push(session.action);
    }
    list
}

#[test]
fn a_fresh_directory_is_removed_after_the_run() {
    assert_eq!(
        actions(false, false, &[true, true, true]),
        vec![Action::WriteBuildFile, Action::RunNinja, Action::RemoveDir, Action::Finish(true)]
    );
    assert_eq!(actions(false, false, &[true, true, false])[3], Action::Finish(false));
}

#[test]
fn a_kept_or_older_directory_stays() {
    for (keep, stale) in [(true, false), (false, true), (true, true)] {
        assert_eq!(
            actions(keep, stale, &[true, true]),
            vec![Action::WriteBuildFile, Action::RunNinja, Action::Finish(true)]
        );
    }
}

#[test]
fn failures_end_the_session() {
    assert_eq!(actions(false, false, &[false, true])[1], Action::Finish(false));
    assert_eq!(actions(false, false, &[false, true])[2], Action::Finish(false));
    assert_eq!(actions(false, false, &[true, false])[2], Action::Finish(false));
}

#[test]
fn place_of_the_ninja_file() {
    assert_eq!(ninja_file(&FilePath::from_str("out")).bytes, b"out/build.ninja".to_vec());
    assert_eq!(ninja_file(&FilePath::from_str("out/")).bytes, b"out/build.ninja".to_vec());
}
