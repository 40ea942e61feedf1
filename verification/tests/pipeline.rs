use amitex_gui::double::Double;
use amitex_gui::gui::fields::{
    field_change, file_to_load, non_empty_path, run_name, run_name_on, start_directory,
    window_title, FieldChange,
};
use amitex_gui::gui::results::{case_text, failure_text, moduli_lines, render_matrix, save_text};
use amitex_gui::gui::run_state::{set_case_status, CaseStatus, RunState};
use amitex_gui::gui::start::{check_fields, start_run, RunFields, Start};
use amitex_gui::pipeline::cases::{
    case_dir, case_run, command_log_path, log_line, prepare_case, std_path, stress_path,
    von_mises_path,
};
use amitex_gui::pipeline::environment::{
    amitex_candidates, find_mpirun, get_variable, mpirun_candidates, parse_environment,
    resolve_amitex_binary, shell_failure, source_env_script, Platform,
};
use amitex_gui::pipeline::paths::join_path;
use amitex_gui::pipeline::permissions::{
    check_binary_exists, check_executable, check_permissions, check_readable, native_library,
    OptionalProbe, Probe, ProgramProbe,
};
use amitex_gui::pipeline::runner::{
    amitex_arguments, Action, Outcome, PipelineConfig, Run, RunEvent,
};
use amitex_gui::pipeline::stress::{
    postprocess_case, postprocess_line, report_of, FieldFile, StressReport,
};
use amitex_gui::pipeline::SimulationModes;
use amitex_gui::postproc::moduli::ElasticModuli;
use amitex_gui::postproc::vtkio::{read_vtk_cell_scalars, write_vtk_cell_scalars, VtkGrid};

fn d(x: f64) -> Double {
    Double { bits: x.to_bits() }
}

fn parse(s: &str) -> Result<Double, String> {
    s.parse::<f64>().map(|x| Double { bits: x.to_bits() }).map_err(|e| e.to_string())
}

fn exponential(v: Double) -> String {
    format!("{:.6e}", f64::from_bits(v.bits))
}

fn four(v: Double) -> String {
    format!("{:.4}", f64::from_bits(v.bits))
}

fn strings(list: &[&str]) -> Vec<String> {
    list.iter().map(|s| s.to_string()).collect()
}

fn env(list: &[(&str, &str)]) -> Vec<(String, String)> {
    list.iter().map(|(k, v)| (k.to_string(), v.to_string())).collect()
}

fn config() -> PipelineConfig {
    PipelineConfig {
        run_dir: "/data/run".to_string(),
        material_id_vtk: "/m.vtk".to_string(),
        zone_id_vtk: None,
        mat_xml: "/mat.xml".to_string(),
        algo_xml: "/algo.xml".to_string(),
        amitex_path: "/bin/amitex_fftp".to_string(),
        mpirun_path: "/bin/mpirun".to_string(),
        env_vars: Vec::new(),
        extra_args: strings(&["-sm", "-sz"]),
    }
}

#[test]
fn paths_are_joined() {
    assert_eq!(join_path("a", "b"), "a/b");
    assert_eq!(join_path("a/", "b/c"), "a/b/c");
    assert_eq!(join_path("", "b"), "b");
    assert_eq!(join_path("a", "/b"), "/b");
    for (a, b) in [("/x/y", "z"), ("/", "z"), ("x", ""), ("x/", "/z")] {
        assert_eq!(join_path(a, b), std::path::Path::new(a).join(b).display().to_string());
    }
}

#[test]
fn environments_are_read() {
    assert_eq!(
        parse_environment("A=1\nnothing\nB=x=y\r\n=z\n"),
        env(&[("A", "1"), ("B", "x=y"), ("", "z")])
    );
    assert_eq!(
        source_env_script("e.sh", true, &b"PATH=/a:/b\n".to_vec(), &Vec::new()),
        Ok(env(&[("PATH", "/a:/b")]))
    );
    // What is not UTF-8 is replaced.
    assert_eq!(
        source_env_script("e.sh", true, &b"A=\xff\n".to_vec(), &Vec::new()),
        Ok(env(&[("A", "\u{fffd}")]))
    );
    assert_eq!(
        source_env_script("e.sh", false, &Vec::new(), &b"  no such file \n".to_vec()),
        Err("sourcing e.sh failed: no such file".to_string())
    );
    assert_eq!(shell_failure("e.sh"), "running a shell to source e.sh");
    let e = env(&[("A", "1"), ("A", "2")]);
    assert_eq!(get_variable(&e, "A"), Some("1".to_string()));
    assert_eq!(get_variable(&e, "B"), None);
}

#[test]
fn the_solver_is_found_in_its_own_place_first() {
    let e = env(&[("AMITEX_PATH", "/opt/amitex"), ("PATH", "/a:/b")]);
    let dirs = strings(&["/a", "/b"]);
    assert_eq!(
        amitex_candidates(&e, &dirs),
        strings(&["/opt/amitex/libAmitex/bin/amitex_fftp", "/a/amitex_fftp", "/b/amitex_fftp"])
    );
    assert_eq!(
        resolve_amitex_binary(&e, &dirs, &vec![true, true, true]),
        Some("/opt/amitex/libAmitex/bin/amitex_fftp".to_string())
    );
    assert_eq!(
        resolve_amitex_binary(&e, &dirs, &vec![false, false, true]),
        Some("/b/amitex_fftp".to_string())
    );
    assert_eq!(resolve_amitex_binary(&e, &dirs, &vec![false, false, false]), None);
    let e = env(&[("PATH", "/a")]);
    assert_eq!(amitex_candidates(&e, &strings(&["/a"])), strings(&["/a/amitex_fftp"]));
    let e = env(&[("AMITEX_PATH", "/opt")]);
    assert_eq!(amitex_candidates(&e, &Vec::new()), strings(&["/opt/libAmitex/bin/amitex_fftp"]));
}

#[test]
fn launchers_are_looked_for() {
    let places = mpirun_candidates(Platform::Linux, &Some(strings(&["/x"])));
    assert_eq!(places.len(), 8);
    assert_eq!(places[0], ("/usr/bin".to_string(), "mpirun".to_string()));
    assert_eq!(places[1], ("/usr/bin".to_string(), "mpiexec".to_string()));
    assert_eq!(places[5], ("/opt/openmpi/bin".to_string(), "mpiexec".to_string()));
    assert_eq!(places[7], ("/x".to_string(), "mpiexec".to_string()));
    let places = mpirun_candidates(Platform::MacOs, &None);
    assert_eq!(places[0].0, "/opt/homebrew/bin");
    let places = mpirun_candidates(Platform::Windows, &None);
    assert_eq!(
        places[0],
        ("C:\\Program Files\\Microsoft MPI\\Bin".to_string(), "mpiexec.exe".to_string())
    );
    assert!(mpirun_candidates(Platform::Other, &None).is_empty());
    assert_eq!(
        find_mpirun(Platform::Other, &Some(strings(&["/x", "/y"])), &vec![false, false, true, true]),
        Some(("/y".to_string(), "mpirun".to_string()))
    );
    assert_eq!(find_mpirun(Platform::Other, &Some(strings(&["/x"])), &vec![false, false]), None);
}

#[test]
fn cases_have_their_files() {
    let case = case_run("/data/run", 3);
    assert_eq!(case.label, "load_xy");
    assert_eq!(case.dir, "/data/run/load_xy");
    assert_eq!(case_dir("/data/run", 3), "/data/run/load_xy");
    assert_eq!(std_path(&case), "/data/run/load_xy/_load_xy.std");
    assert_eq!(command_log_path(&case), "/data/run/load_xy/_load_xy_command.log");
    assert_eq!(stress_path(&case, 2), "/data/run/load_xy/_load_xy_sig2_1.vtk");
    assert_eq!(von_mises_path(&case), "/data/run/load_xy/_load_xy_sigVM_1.vtk");
    let plan = prepare_case("/data/run", 0);
    assert_eq!(plan.char_path, "/data/run/load_xx/char.xml");
    assert!(plan.char_xml.contains("<xx Driving=\"Strain\" Evolution=\"Linear\" Value=\"1.\"/>"));
    assert_eq!(log_line("stderr", "boom"), "[stderr] boom");
}

#[test]
fn solver_arguments_come_in_order() {
    let mut c = config();
    assert_eq!(
        amitex_arguments(&c, "load_xx"),
        strings(&[
            "/bin/amitex_fftp", "-nm", "/m.vtk", "-m", "/mat.xml", "-c", "char.xml", "-a",
            "/algo.xml", "-s", "_load_xx", "-sm", "-sz"
        ])
    );
    c.zone_id_vtk = Some("/z.vtk".to_string());
    c.extra_args = Vec::new();
    assert_eq!(
        amitex_arguments(&c, "load_xx"),
        strings(&[
            "/bin/amitex_fftp", "-nm", "/m.vtk", "-nz", "/z.vtk", "-m", "/mat.xml", "-c",
            "char.xml", "-a", "/algo.xml", "-s", "_load_xx"
        ])
    );
}

fn told(e: &RunEvent) -> String {
    match e {
        RunEvent::CaseStarted { case } => format!("start {case}"),
        RunEvent::CaseOutput { case, line } => format!("{case}: {line}"),
        RunEvent::CaseFinished { case, success } => format!("end {case} {success}"),
        RunEvent::AllFinished { std_paths } => format!("all {}", std_paths.join(" ")),
        RunEvent::Fatal { message } => format!("fatal {message}"),
    }
}

fn prepared() -> Run {
    let mut run = Run::new(config());
    assert!(matches!(run.action(), Action::CheckFile { path } if path == "/bin/mpirun"));
    assert!(run.record(Outcome::Checked { is_file: true }).is_empty());
    assert!(matches!(run.action(), Action::CheckFile { path } if path == "/bin/amitex_fftp"));
    assert!(run.record(Outcome::Checked { is_file: true }).is_empty());
    for i in 0..6 {
        assert!(matches!(run.action(), Action::MakeDir { path } if path == case_dir("/data/run", i)));
        assert!(run.record(Outcome::Done { success: true }).is_empty());
        assert!(matches!(run.action(), Action::WriteFile { path, .. } if path.ends_with("/char.xml")));
        let events = run.record(Outcome::Done { success: true });
        assert_eq!(events.len(), if i == 5 { 1 } else { 0 });
    }
    run
}

#[test]
fn a_run_of_six_successes() {
    let mut run = prepared();
    let mut all = Vec::new();
    for i in 0..6 {
        match run.action() {
            Action::Run { program, arguments, dir, log_path, label } => {
                assert_eq!(program, "/bin/mpirun");
                assert_eq!(arguments, amitex_arguments(&config(), &label));
                assert_eq!(dir, case_dir("/data/run", i));
                assert_eq!(log_path, command_log_path(&case_run("/data/run", i)));
            }
            _ => panic!("no case is run"),
        }
        assert!(run.record(Outcome::Exited { success: true }).is_empty());
        assert!(matches!(run.action(), Action::PostProcess { .. }));
        let report = if i == 0 {
            StressReport::Computed
        } else {
            StressReport::Missing { component: i }
        };
        all.extend(run.record(Outcome::PostProcessed { report }).iter().map(told));
    }
    assert!(matches!(run.action(), Action::Stop));
    assert_eq!(all[0], "load_xx: von Mises stress computed (_sigVM_1.vtk)");
    assert_eq!(all[1], "end load_xx true");
    assert_eq!(all[2], "start load_yy");
    assert_eq!(all[3], "load_yy: von Mises post-processing skipped: _load_yy_sig1_1.vtk not found");
    assert_eq!(all[4], "end load_yy true");
    assert_eq!(all[15], "load_yz: von Mises post-processing skipped: _load_yz_sig5_1.vtk not found");
    assert_eq!(all[16], "end load_yz true");
    let paths: Vec<String> = (0..6).map(|i| std_path(&case_run("/data/run", i))).collect();
    assert_eq!(all[17], format!("all {}", paths.join(" ")));
    assert_eq!(all.len(), 18);
}

#[test]
fn a_run_with_failures() {
    let mut run = prepared();
    let events = run.record(Outcome::NotStarted { reason: "denied".to_string() });
    let events: Vec<String> = events.iter().map(told).collect();
    assert_eq!(
        events,
        ["fatal load_xx: failed to spawn /bin/mpirun: denied", "end load_xx false", "start load_yy"]
    );
    for _ in 0..4 {
        run.record(Outcome::Exited { success: false });
    }
    run.record(Outcome::Exited { success: true });
    let events = run.record(Outcome::PostProcessed {
        report: StressReport::Failed { error: "x".to_string() },
    });
    let events: Vec<String> = events.iter().map(told).collect();
    // The results are not announced.
    assert_eq!(events, ["load_yz: von Mises post-processing skipped: x", "end load_yz true"]);
    assert!(matches!(run.action(), Action::Stop));
    // An ended run stays silent.
    assert!(run.record(Outcome::Exited { success: true }).is_empty());
}

#[test]
fn a_run_that_cannot_begin() {
    let mut run = Run::new(config());
    let events: Vec<String> =
        run.record(Outcome::Checked { is_file: false }).iter().map(told).collect();
    assert_eq!(events, ["fatal mpirun binary not found: /bin/mpirun"]);
    assert!(matches!(run.action(), Action::Stop));

    let mut run = Run::new(config());
    run.record(Outcome::Checked { is_file: true });
    // An outcome of something else changes nothing.
    assert!(run.record(Outcome::Exited { success: true }).is_empty());
    let events: Vec<String> =
        run.record(Outcome::Checked { is_file: false }).iter().map(told).collect();
    assert_eq!(events, ["fatal amitex_fftp binary not found: /bin/amitex_fftp"]);

    let mut run = Run::new(config());
    run.record(Outcome::Checked { is_file: true });
    run.record(Outcome::Checked { is_file: true });
    let events: Vec<String> =
        run.record(Outcome::Done { success: false }).iter().map(told).collect();
    assert_eq!(events, ["fatal creating /data/run/load_xx"]);

    let mut run = Run::new(config());
    run.record(Outcome::Checked { is_file: true });
    run.record(Outcome::Checked { is_file: true });
    run.record(Outcome::Done { success: true });
    let events: Vec<String> =
        run.record(Outcome::Done { success: false }).iter().map(told).collect();
    assert_eq!(events, ["fatal writing char.xml into /data/run/load_xx"]);
}

#[test]
fn the_window_follows_a_run() {
    let mut run = prepared();
    let mut state = RunState::new();
    assert!(state.cases.iter().all(|c| c.1 == CaseStatus::Pending));
    let started = vec![RunEvent::CaseStarted { case: "load_xx".to_string() }];
    assert_eq!(state.poll_run(&started, false), None);
    assert_eq!(state.cases[0].1, CaseStatus::Running);
    let events = run.record(Outcome::Exited { success: false });
    assert_eq!(state.poll_run(&events, false), None);
    assert_eq!(state.cases[0].1, CaseStatus::Failed);
    assert_eq!(state.cases[1], ("load_yy".to_string(), CaseStatus::Running));
    run.record(Outcome::Exited { success: true });
    let events = run.record(Outcome::PostProcessed { report: StressReport::Computed });
    state.poll_run(&events, false);
    assert_eq!(state.cases[1].1, CaseStatus::Succeeded);
    assert_eq!(state.log, ["[load_yy] von Mises stress computed (_sigVM_1.vtk)"]);
    assert!(!state.done);

    let more = vec![
        RunEvent::CaseOutput { case: "load_zz".to_string(), line: "hello".to_string() },
        RunEvent::Fatal { message: "first".to_string() },
        RunEvent::Fatal { message: "last".to_string() },
        RunEvent::AllFinished { std_paths: strings(&["a", "b"]) },
    ];
    assert_eq!(state.poll_run(&more, true), Some(strings(&["a", "b"])));
    assert_eq!(state.fatal.as_deref(), Some("last"));
    assert_eq!(state.log_text(), "[load_yy] von Mises stress computed (_sigVM_1.vtk)\n[load_zz] hello");
    assert!(state.done);

    let mut other = RunState::new();
    other.finish(Err("bad".to_string()));
    assert!(other.done);
    assert!(matches!(other.moduli, Some(Err(ref e)) if e == "bad"));
}

#[test]
fn one_case_changes_its_status() {
    let mut cases = vec![
        ("a".to_string(), CaseStatus::Pending),
        ("b".to_string(), CaseStatus::Pending),
        ("b".to_string(), CaseStatus::Pending),
    ];
    set_case_status(&mut cases, "b", CaseStatus::Failed);
    set_case_status(&mut cases, "c", CaseStatus::Succeeded);
    let status: Vec<CaseStatus> = cases.iter().map(|c| c.1).collect();
    assert_eq!(status, [CaseStatus::Pending, CaseStatus::Failed, CaseStatus::Pending]);
    let labels: Vec<&str> =
        [CaseStatus::Pending, CaseStatus::Running, CaseStatus::Succeeded, CaseStatus::Failed]
            .iter()
            .map(|s| s.label())
            .collect();
    assert_eq!(labels, ["pending", "running", "done", "failed"]);
}

fn field(data: &[f64]) -> VtkGrid {
    VtkGrid {
        nx: data.len(),
        ny: 1,
        nz: 1,
        dx: d(1.0),
        dy: d(1.0),
        dz: d(1.0),
        varname: "s".to_string(),
        datatype: "double".to_string(),
        data: data.iter().map(|&x| d(x)).collect(),
    }
}

fn stress_files() -> Vec<FieldFile> {
    (0..6)
        .map(|i| {
            let data = if i == 0 { [100.0, 3.0] } else { [0.0, 3.0] };
            let bytes = write_vtk_cell_scalars(&field(&data), &exponential);
            let bytes = bytes.map_err(|e| e.message(""));
            FieldFile { path: format!("sig{}", i + 1), exists: true, bytes }
        })
        .collect()
}

#[test]
fn von_mises_fields_are_computed() {
    let bytes = match postprocess_case(&stress_files(), &parse, &exponential) {
        Ok(bytes) => bytes,
        Err(e) => panic!("{}", e.message()),
    };
    let grid = match read_vtk_cell_scalars(&bytes, &parse) {
        Ok(grid) => grid,
        Err(e) => panic!("{}", e.message("out")),
    };
    assert_eq!(grid.varname, "sig_VM");
    assert_eq!(grid.datatype, "double");
    assert_eq!(grid.data[0], d(100.0));
    assert_eq!(grid.data[1], d(f64::sqrt(3.0 * 6.0 * 9.0 / 2.0)));
}

#[test]
fn faulty_stress_files_are_reported() {
    let report = |change: fn(&mut Vec<FieldFile>)| {
        let mut files = stress_files();
        change(&mut files);
        match postprocess_case(&files, &parse, &exponential) {
            Ok(_) => panic!("no error"),
            Err(e) => e.message(),
        }
    };
    assert_eq!(report(|f| f[3].bytes = Err("gone".to_string())), "reading sig4");
    assert_eq!(report(|f| f[1].bytes = Ok(b"short".to_vec())), "sig2: truncated header");
    assert_eq!(
        report(|f| {
            f[5].bytes = write_vtk_cell_scalars(&field(&[1.0]), &exponential).map_err(|e| e.message(""))
        }),
        "stress components have different sizes"
    );
    let none = "\n\nASCII\n\nDIMENSIONS 0 1 1\n\nSPACING 1 1 1\nCELL_DATA 0\nSCALARS s double\n\n";
    let mut files = stress_files();
    for f in &mut files {
        f.bytes = Ok(none.as_bytes().to_vec());
    }
    match postprocess_case(&files, &parse, &exponential) {
        Err(e) => assert_eq!(e.message(), "grid too large"),
        Ok(_) => panic!("no error"),
    }
    assert_eq!(
        postprocess_line(&StressReport::Computed, "load_xx"),
        "von Mises stress computed (_sigVM_1.vtk)"
    );
    assert_eq!(
        postprocess_line(&StressReport::Failed { error: "x".to_string() }, "load_xx"),
        "von Mises post-processing skipped: x"
    );
}

#[test]
fn missing_stress_files_are_told() {
    let mut files = stress_files();
    // What is missing counts before what cannot be read.
    files[0].bytes = Err("gone".to_string());
    files[2].exists = false;
    files[4].exists = false;
    let error = postprocess_case(&files, &parse, &exponential).err().unwrap();
    assert_eq!(error.message(), "stress component 3 not found");
    let report = report_of(error);
    assert!(matches!(report, StressReport::Missing { component: 3 }));
    assert_eq!(
        postprocess_line(&report, "load_xz"),
        "von Mises post-processing skipped: _load_xz_sig3_1.vtk not found"
    );
    files[2].exists = true;
    files[4].exists = true;
    let report = report_of(postprocess_case(&files, &parse, &exponential).err().unwrap());
    assert!(matches!(report, StressReport::Failed { error } if error == "reading sig1"));
}

#[test]
fn programs_must_be_there() {
    assert_eq!(check_binary_exists("/m", "mpirun binary", true), Ok(()));
    assert_eq!(
        check_binary_exists("/m", "mpirun binary", false),
        Err("mpirun binary not found: /m".to_string())
    );
    assert_eq!(check_readable(&Err("no".to_string())), Err("not readable (no)".to_string()));
    let program = |opened: Result<(), String>, mode: Option<Result<u32, String>>| ProgramProbe {
        path: "/p".to_string(),
        opened,
        mode,
    };
    assert_eq!(check_executable(&program(Ok(()), None)), Ok(()));
    assert_eq!(check_executable(&program(Ok(()), Some(Ok(0o100755)))), Ok(()));
    assert_eq!(check_executable(&program(Ok(()), Some(Ok(0o100010)))), Ok(()));
    assert_eq!(
        check_executable(&program(Ok(()), Some(Ok(0o100644)))),
        Err("not executable (missing +x permission)".to_string())
    );
    assert_eq!(
        check_executable(&program(Ok(()), Some(Err("e".to_string())))),
        Err("could not stat (e)".to_string())
    );
    assert_eq!(
        check_executable(&program(Err("e".to_string()), Some(Ok(0)))),
        Err("not readable (e)".to_string())
    );
}

#[test]
fn every_problem_is_listed() {
    let probe = |path: &str, error: Option<&str>| Probe {
        path: path.to_string(),
        opened: match error {
            Some(e) => Err(e.to_string()),
            None => Ok(()),
        },
    };
    let program = |path: &str, mode: u32| ProgramProbe {
        path: path.to_string(),
        opened: Ok(()),
        mode: Some(Ok(mode)),
    };
    let e = env(&[("AMITEX_PATH", "/opt/a")]);
    let library = |error: Option<&str>, is_file: bool| OptionalProbe {
        is_file,
        opened: match error {
            Some(e) => Err(e.to_string()),
            None => Ok(()),
        },
    };
    assert!(check_permissions(
        &probe("/m", None),
        &None,
        &probe("/e", None),
        &program("/a", 0o755),
        &program("/r", 0o755),
        &e,
        &library(Some("missing"), false)
    )
    .is_empty());
    assert_eq!(
        check_permissions(
            &probe("/m", Some("x")),
            &Some(probe("/z", Some("y"))),
            &probe("/e", Some("w")),
            &program("/a", 0o644),
            &program("/r", 0o644),
            &e,
            &library(Some("v"), true)
        ),
        [
            "Material ID VTK (-nm): /m — not readable (x)",
            "env_amitex.sh (or equivalent): /e — not readable (w)",
            "Zone ID VTK (-nz): /z — not readable (y)",
            "amitex_fftp binary: /a — not executable (missing +x permission)",
            "mpirun binary: /r — not executable (missing +x permission)",
            "Native material behavior library: /opt/a/libAmitex/src/materiaux/libUmatAmitex.so — not readable (v)",
        ]
    );
    assert_eq!(native_library(&Vec::new()), None);
}

fn fields() -> RunFields {
    RunFields {
        name: "run".to_string(),
        zone_id_vtk: " ".to_string(),
        material_id_vtk: "/m.vtk".to_string(),
        algorithm: "/algo.xml".to_string(),
        materials_xml: "/mat.xml".to_string(),
        env_script: "/e.sh".to_string(),
        mpirun_path: "/mpirun".to_string(),
        extra_args: "  -sm   -sz ".to_string(),
    }
}

#[test]
fn fields_must_be_filled() {
    let report = |change: fn(&mut RunFields)| {
        let mut f = fields();
        change(&mut f);
        check_fields(&f).err()
    };
    assert_eq!(
        report(|f| f.material_id_vtk = "  ".to_string()).as_deref(),
        Some("Select a Material ID VTK file first")
    );
    assert_eq!(
        report(|f| f.materials_xml.clear()).as_deref(),
        Some("Select a Material XML file first")
    );
    assert_eq!(report(|f| f.algorithm.clear()).as_deref(), Some("Select an Algorithm XML file first"));
    assert_eq!(
        report(|f| f.env_script.clear()).as_deref(),
        Some("Select an env_amitex.sh (or equivalent) script first")
    );
    assert_eq!(report(|f| f.mpirun_path.clear()).as_deref(), Some("Select the mpirun binary first"));
    let inputs = check_fields(&fields()).ok().unwrap();
    assert_eq!(inputs.zone_id_vtk, None);
    assert_eq!(inputs.extra_args, ["-sm", "-sz"]);
}

#[test]
fn runs_start_where_nothing_is_in_the_way() {
    let start = |amitex: Option<&str>, problems: &[&str], data_dir: Option<&str>| {
        start_run(
            check_fields(&fields()).ok().unwrap(),
            "run",
            env(&[("A", "b")]),
            amitex.map(str::to_string),
            strings(problems),
            data_dir.map(str::to_string),
        )
    };
    assert!(matches!(
        start(None, &["x"], None),
        Start::Refused { message } if message == "Could not find amitex_fftp via the sourced script (checked AMITEX_PATH and PATH) — check it sets one of these correctly"
    ));
    assert!(matches!(start(Some("/a"), &["x"], None), Start::Blocked { problems } if problems == ["x"]));
    assert!(matches!(
        start(Some("/a"), &[], None),
        Start::Refused { message } if message == "Could not determine a data directory for run output"
    ));
    match start(Some("/a"), &[], Some("/home/u/.local")) {
        Start::Launch { config } => {
            assert_eq!(config.run_dir, "/home/u/.local/runs/run");
            assert_eq!(config.amitex_path, "/a");
            assert_eq!(config.mpirun_path, "/mpirun");
            assert_eq!(config.mat_xml, "/mat.xml");
            assert_eq!(config.algo_xml, "/algo.xml");
            assert_eq!(config.env_vars, env(&[("A", "b")]));
            assert_eq!(config.extra_args, ["-sm", "-sz"]);
        }
        _ => panic!("no run"),
    }
}

#[test]
fn window_texts() {
    assert_eq!(non_empty_path(" \t"), None);
    assert_eq!(non_empty_path(" a"), Some(" a".to_string()));
    let s = |t: &str| Some(t.to_string());
    assert_eq!(start_directory(s("a"), s("b"), s("c")), s("a"));
    assert_eq!(start_directory(None, s("b"), s("c")), s("b"));
    assert_eq!(start_directory(None, None, s("c")), s("c"));
    assert_eq!(start_directory(None, None, None), None);
    assert_eq!(run_name_on(false, "mine", "20260716"), "20260716");
    assert_eq!(run_name_on(true, "mine", "20260716"), "mine");
    assert_eq!(run_name(true, "mine"), "mine");
    assert_eq!(run_name(false, "mine"), chrono::Local::now().format("%Y%m%d").to_string());
    assert_eq!(
        window_title(SimulationModes::ElasticHomogenization, "x"),
        "AMITEX-GUI - Elastic homogenization - x"
    );
    assert_eq!(field_change("a", "a"), FieldChange::Same);
    assert_eq!(field_change(" ", "a"), FieldChange::Cleared);
    assert_eq!(field_change("b", "a"), FieldChange::Load);
    assert_eq!(file_to_load(false, "a"), Err("No OpenGL context available".to_string()));
    assert_eq!(file_to_load(true, ""), Err("Select a Material ID VTK file first".to_string()));
    assert_eq!(file_to_load(true, "a"), Ok("a".to_string()));
}

#[test]
fn result_texts() {
    assert_eq!(case_text("load_xx", CaseStatus::Succeeded), "load_xx: done");
    assert_eq!(failure_text("x"), "Homogenization failed: x");
    assert_eq!(save_text(&Ok("/d".to_string())), "Saved to /d");
    assert_eq!(save_text(&Err("x".to_string())), "Save failed: x");
    let m = [[d(-1.5); 6]; 6];
    let moduli = ElasticModuli { c: m, s: m, e: d(1.0), nu: d(0.25), g: d(2.0), zener: d(3.00004) };
    assert_eq!(
        moduli_lines(&moduli, &four),
        ["E = 1.0000", "nu = 0.2500", "G = 2.0000", "Zener A = 3.0000"]
    );
    assert_eq!(render_matrix(&m, 2, 3, &four), format!("{:>9.4}", -1.5));
}
