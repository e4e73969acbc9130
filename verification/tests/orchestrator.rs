use omnix_ci::cli::{RunCommand, Transport};
use omnix_ci::config::{Entry, OmConfig, Step, Subflake, SubflakesConfig};
use omnix_ci::engine::{Action, Engine, RunResult, SkipReason, StepOutcome};
use omnix_ci::error::CiError;
use omnix_ci::report::render_report;
use omnix_ci::show::{FlakeSchema, Row, ShowConfig};
use omnix_ci::template::{FlakeTemplate, TemplateConfig, TemplateParam};

fn b(s: &str) -> Vec<u8> {
    s.as_bytes().to_vec()
}

fn bl(ss: &[&str]) -> Vec<Vec<u8>> {
    ss.iter().map(|s| b(s)).collect()
}

fn subflake(systems: Option<&[&str]>, steps: &[&str]) -> Subflake {
    Subflake {
        dir: b("./."),
        systems: systems.map(bl),
        steps: steps.iter().map(|s| Step { name: b(s) }).collect(),
    }
}

fn entry(name: &str, s: Subflake) -> Entry {
    Entry { name: b(name), subflake: s }
}

fn config(attrs: &[&str], entries: Vec<Entry>) -> OmConfig {
    OmConfig {
        flake_url: b("."),
        attrs: bl(attrs),
        subflakes: SubflakesConfig { entries },
    }
}

/// Drives the engine to completion, recording each scheduled triple as
/// "subflake/step/system"; the triple equal to `fail_on`, if any, is
/// reported as failed.
fn drive(engine: &mut Engine, fail_on: Option<&str>) -> Vec<String> {
    let mut ran = Vec::new();
    loop {
        match engine.next_action() {
            Action::Run { subflake, step, system, .. } => {
                let label = format!(
                    "{}/{}/{}",
                    String::from_utf8(subflake).unwrap(),
                    String::from_utf8(step).unwrap(),
                    String::from_utf8(system).unwrap()
                );
                let failed = fail_on == Some(label.as_str());
                ran.push(label);
                if failed {
                    engine.apply(StepOutcome::Failed { diagnostic: b("boom") });
                } else {
                    engine.apply(StepOutcome::Passed);
                }
            }
            Action::Done | Action::Aborted => return ran,
        }
    }
}

fn result_names(r: &RunResult) -> Vec<String> {
    r.result
        .iter()
        .map(|s| String::from_utf8(s.name.clone()).unwrap())
        .collect()
}

#[test]
fn empty_plan_succeeds_with_empty_result() {
    let cfg = config(&[], vec![]);
    let mut engine = Engine::new(cfg, bl(&["linux-a"]));
    let ran = drive(&mut engine, None);
    assert!(ran.is_empty());
    let result = engine.finish().expect("empty plan must succeed");
    assert!(result.result.is_empty());
    assert_eq!(result.systems, bl(&["linux-a"]));
    assert_eq!(result.flake, b("."));
}

#[test]
fn subflakes_run_in_sorted_name_order() {
    let cfg = config(
        &[],
        vec![
            entry("b", subflake(None, &["build"])),
            entry("a", subflake(None, &["build"])),
            entry("c", subflake(None, &["build"])),
        ],
    );
    let mut engine = Engine::new(cfg, bl(&["linux-a"]));
    let ran = drive(&mut engine, None);
    assert_eq!(
        ran,
        vec!["a/build/linux-a", "b/build/linux-a", "c/build/linux-a"]
    );
    let result = engine.finish().unwrap();
    assert_eq!(result_names(&result), vec!["a", "b", "c"]);
}

#[test]
fn steps_run_in_declared_order_per_system() {
    let cfg = config(&[], vec![entry("s", subflake(None, &["lockfile", "build"]))]);
    let mut engine = Engine::new(cfg, bl(&["x", "y"]));
    let ran = drive(&mut engine, None);
    assert_eq!(
        ran,
        vec!["s/lockfile/x", "s/lockfile/y", "s/build/x", "s/build/y"]
    );
}

#[test]
fn selector_admits_only_the_named_subflake() {
    let cfg = config(
        &["x"],
        vec![
            entry("w", subflake(None, &["build"])),
            entry("x", subflake(None, &["build"])),
            entry("y", subflake(None, &["build"])),
        ],
    );
    let mut engine = Engine::new(cfg, bl(&["linux-a"]));
    let ran = drive(&mut engine, None);
    assert_eq!(ran, vec!["x/build/linux-a"]);
    let skipped: Vec<(Vec<u8>, SkipReason)> = engine
        .skips()
        .iter()
        .map(|s| (s.name.clone(), s.reason))
        .collect();
    assert_eq!(
        skipped,
        vec![(b("w"), SkipReason::Deselected), (b("y"), SkipReason::Deselected)]
    );
    let result = engine.finish().unwrap();
    assert_eq!(result_names(&result), vec!["x"]);
}

#[test]
fn incompatible_platform_is_skipped_and_absent() {
    let cfg = config(&[], vec![entry("n", subflake(Some(&["linux-a"]), &["build"]))]);
    let mut engine = Engine::new(cfg, bl(&["mac-b"]));
    let ran = drive(&mut engine, None);
    assert!(ran.is_empty());
    assert_eq!(engine.skips().len(), 1);
    assert_eq!(engine.skips()[0].name, b("n"));
    assert_eq!(engine.skips()[0].reason, SkipReason::IncompatibleSystem);
    let result = engine.finish().unwrap();
    assert!(result.result.is_empty());
}

#[test]
fn overlapping_platform_is_attempted() {
    let cfg = config(&[], vec![entry("n", subflake(Some(&["linux-a"]), &["build"]))]);
    let mut engine = Engine::new(cfg, bl(&["linux-a", "mac-b"]));
    let ran = drive(&mut engine, None);
    assert_eq!(ran, vec!["n/build/linux-a", "n/build/mac-b"]);
    let result = engine.finish().unwrap();
    assert_eq!(result_names(&result), vec!["n"]);
}

#[test]
fn failure_aborts_the_whole_run() {
    let cfg = config(
        &[],
        vec![
            entry("a", subflake(None, &["build"])),
            entry("b", subflake(None, &["build"])),
            entry("c", subflake(None, &["build"])),
        ],
    );
    let mut engine = Engine::new(cfg, bl(&["linux-a"]));
    let ran = drive(&mut engine, Some("b/build/linux-a"));
    assert_eq!(ran, vec!["a/build/linux-a", "b/build/linux-a"]);
    match engine.finish() {
        Err(CiError::StepExecutionError { subflake, step, system, diagnostic }) => {
            assert_eq!(subflake, b("b"));
            assert_eq!(step, b("build"));
            assert_eq!(system, b("linux-a"));
            assert_eq!(diagnostic, b("boom"));
        }
        other => panic!("expected a step failure, got {:?}", other.is_ok()),
    }
}

#[test]
fn subflake_without_steps_still_enters_the_result() {
    let cfg = config(&[], vec![entry("quiet", subflake(None, &[]))]);
    let mut engine = Engine::new(cfg, bl(&["linux-a"]));
    let ran = drive(&mut engine, None);
    assert!(ran.is_empty());
    let result = engine.finish().unwrap();
    assert_eq!(result_names(&result), vec!["quiet"]);
    assert!(result.result[0].outcome.runs.is_empty());
}

#[test]
fn duplicate_subflake_names_are_a_config_error() {
    let entries = vec![
        entry("same", subflake(None, &["build"])),
        entry("same", subflake(None, &["check"])),
    ];
    match SubflakesConfig::from_entries(entries) {
        Err(CiError::ConfigError { name }) => assert_eq!(name, b("same")),
        _ => panic!("duplicate keys must be rejected"),
    }
    let entries = vec![
        entry("one", subflake(None, &["build"])),
        entry("two", subflake(None, &["check"])),
    ];
    assert!(SubflakesConfig::from_entries(entries).is_ok());
}

#[test]
fn default_platform_set_is_the_current_system() {
    let cmd = RunCommand::default();
    let systems = cmd.get_systems(&b("riscv-lemurs"), None).unwrap();
    assert_eq!(systems, bl(&["riscv-lemurs"]));
    let systems = cmd
        .get_systems(&b("riscv-lemurs"), Some(bl(&["a", "b"])))
        .unwrap();
    assert_eq!(systems, bl(&["riscv-lemurs"]));
}

#[test]
fn systems_override_is_taken_verbatim() {
    let mut cmd = RunCommand::default();
    cmd.systems = Some(b("github-systems"));
    let systems = cmd
        .get_systems(&b("local"), Some(bl(&["mac-b", "linux-a"])))
        .unwrap();
    assert_eq!(systems, bl(&["mac-b", "linux-a"]));
    match cmd.get_systems(&b("local"), None) {
        Err(CiError::SystemResolutionError { reference }) => {
            assert_eq!(reference, b("github-systems"))
        }
        _ => panic!("a failed evaluation must abort resolution"),
    }
}

#[test]
fn cli_args_serialize_in_fixed_order() {
    let cmd = RunCommand {
        on: Some(b("ssh://builder")),
        systems: Some(b("systems-list")),
        results: Some(b("out.json")),
        flake_ref: b(".#default"),
        steps_args: bl(&["--override-input", "x"]),
    };
    assert_eq!(
        cmd.to_cli_args(),
        bl(&[
            "--on",
            "ssh://builder",
            "--systems",
            "systems-list",
            ".#default",
            "--override-input",
            "x"
        ])
    );
}

#[test]
fn dispatched_args_round_trip_without_the_remote_target() {
    let cmd = RunCommand {
        on: Some(b("ssh://builder")),
        systems: Some(b("systems-list")),
        results: Some(b("out.json")),
        flake_ref: b(".#default"),
        steps_args: bl(&["--verbose"]),
    };
    let args = cmd.remote_args();
    assert_eq!(
        args,
        bl(&["--systems", "systems-list", ".#default", "--verbose"])
    );
    let parsed = RunCommand::from_cli_args(&args).expect("dispatched args must parse");
    assert_eq!(parsed.on, None);
    assert_eq!(parsed.results, None);
    assert_eq!(parsed.systems, Some(b("systems-list")));
    assert_eq!(parsed.flake_ref, b(".#default"));
    assert_eq!(parsed.steps_args, bl(&["--verbose"]));
}

#[test]
fn unknown_flag_is_rejected() {
    assert!(RunCommand::from_cli_args(&bl(&["--frobnicate", "x"])).is_none());
    assert!(RunCommand::from_cli_args(&bl(&["--on"])).is_none());
}

#[test]
fn empty_args_parse_to_the_default_command() {
    let parsed = RunCommand::from_cli_args(&bl(&[])).unwrap();
    assert_eq!(parsed.on, None);
    assert_eq!(parsed.systems, None);
    assert_eq!(parsed.results, None);
    assert_eq!(parsed.flake_ref, b("."));
    assert!(parsed.steps_args.is_empty());
}

#[test]
fn transport_follows_the_remote_target() {
    let mut cmd = RunCommand::default();
    assert!(matches!(cmd.transport(), Transport::Local));
    cmd.on = Some(b("ssh://builder"));
    match cmd.transport() {
        Transport::Remote { store_uri } => assert_eq!(store_uri, b("ssh://builder")),
        Transport::Local => panic!("a remote target must dispatch remotely"),
    }
}

#[test]
fn remote_run_of_a_skipping_plan_matches_the_local_outcome() {
    let plan = || {
        config(
            &[],
            vec![entry("n", subflake(Some(&["linux-a"]), &["build"]))],
        )
    };
    // locally, without a remote target
    let mut local = Engine::new(plan(), bl(&["mac-b"]));
    assert!(matches!(local.next_action(), Action::Done));
    let local_result = local.finish().unwrap();
    // the dispatched invocation: serialize, decode on the remote side, run
    let cmd = RunCommand {
        on: Some(b("ssh://builder")),
        systems: None,
        results: None,
        flake_ref: b("."),
        steps_args: vec![],
    };
    let remote_cmd = RunCommand::from_cli_args(&cmd.remote_args()).unwrap();
    assert_eq!(remote_cmd.on, None);
    let mut remote = Engine::new(plan(), bl(&["mac-b"]));
    assert!(matches!(remote.next_action(), Action::Done));
    let remote_result = remote.finish().unwrap();
    assert_eq!(
        render_report(&local_result),
        render_report(&remote_result)
    );
}

#[test]
fn health_gate_and_remote_exit_relay_exit_codes() {
    assert!(omnix_ci::error::health_gate(0).is_ok());
    match omnix_ci::error::health_gate(104) {
        Err(CiError::HealthGateFailure { exit_code }) => assert_eq!(exit_code, 104),
        _ => panic!("a failed health check must abort the run"),
    }
    assert!(omnix_ci::error::remote_exit(0).is_ok());
    match omnix_ci::error::remote_exit(1) {
        Err(CiError::RemoteDispatchError { exit_code }) => assert_eq!(exit_code, 1),
        _ => panic!("a non-zero remote exit must become a dispatch error"),
    }
}

#[test]
fn report_renders_the_documented_schema() {
    let cfg = config(&[], vec![entry("nix", subflake(None, &["build"]))]);
    let mut engine = Engine::new(cfg, bl(&["linux-a"]));
    drive(&mut engine, None);
    let result = engine.finish().unwrap();
    let bytes = render_report(&result);
    assert_eq!(
        String::from_utf8(bytes).unwrap(),
        r#"{"systems":["linux-a"],"flake":".","result":{"nix":[["build","linux-a"]]}}"#
    );
}

#[test]
fn report_escapes_quotes_backslashes_and_control_bytes() {
    let cfg = config(&[], vec![entry("a\"b\\c\nd", subflake(None, &[]))]);
    let mut engine = Engine::new(cfg, bl(&["linux-a"]));
    drive(&mut engine, None);
    let result = engine.finish().unwrap();
    let bytes = render_report(&result);
    assert_eq!(
        String::from_utf8(bytes).unwrap(),
        "{\"systems\":[\"linux-a\"],\"flake\":\".\",\"result\":{\"a\\\"b\\\\c\\u000ad\":[]}}"
    );
}

#[test]
fn report_reads_back_with_the_same_keys() {
    let cfg = config(
        &[],
        vec![
            entry("one", subflake(None, &["build"])),
            entry("two", subflake(None, &["build", "check"])),
        ],
    );
    let mut engine = Engine::new(cfg, bl(&["linux-a"]));
    drive(&mut engine, None);
    let result = engine.finish().unwrap();
    let bytes = render_report(&result);
    let doc: serde_json::Value = serde_json::from_slice(&bytes).expect("the report is JSON");
    assert_eq!(doc["flake"], serde_json::Value::String(".".to_string()));
    assert_eq!(doc["systems"][0], "linux-a");
    let map = doc["result"].as_object().unwrap();
    assert_eq!(map.len(), 2);
    assert!(map.contains_key("one"));
    assert!(map.contains_key("two"));
    assert_eq!(map["two"][1][0], "check");
    assert_eq!(map["two"][1][1], "linux-a");
}

#[test]
fn prompt_replacements_expand_each_parameter() {
    let template = FlakeTemplate {
        name: b("rust"),
        description: b("a rust project"),
        path: b("./rust"),
        welcome_text: None,
        params: vec![
            TemplateParam {
                name: b("package-name"),
                placeholder: b("my-package"),
                files: bl(&["Cargo.toml", "flake.nix"]),
            },
            TemplateParam {
                name: b("author"),
                placeholder: b("john"),
                files: bl(&["LICENSE"]),
            },
        ],
        tags: vec![],
    };
    let ops = template
        .prompt_replacements(&bl(&["lemur-tools", "ada"]))
        .expect("one value per parameter");
    assert_eq!(ops.len(), 2);
    assert_eq!(ops[0].len(), 2);
    assert_eq!(ops[0][1].path, b("flake.nix"));
    assert_eq!(ops[0][1].from, b("my-package"));
    assert_eq!(ops[0][1].to, b("lemur-tools"));
    assert_eq!(ops[1][0].path, b("LICENSE"));
    assert_eq!(ops[1][0].to, b("ada"));
    assert!(template.prompt_replacements(&bl(&["only-one"])).is_none());
}

#[test]
fn display_line_pads_the_name_before_tags() {
    let mut template = FlakeTemplate {
        name: b("rust"),
        description: b(""),
        path: b("./rust"),
        welcome_text: None,
        params: vec![],
        tags: vec![],
    };
    assert_eq!(template.display_line(), b("rust"));
    template.tags = bl(&["lang", "beginner"]);
    assert_eq!(
        String::from_utf8(template.display_line()).unwrap(),
        "rust                 lang, beginner"
    );
}

#[test]
fn merge_adopts_the_configuration_under_the_same_key() {
    let templates = vec![
        (
            b("haskell"),
            FlakeTemplate {
                name: b(""),
                description: b("h"),
                path: b("./h"),
                welcome_text: None,
                params: vec![],
                tags: vec![],
            },
        ),
        (
            b("rust"),
            FlakeTemplate {
                name: b(""),
                description: b("r"),
                path: b("./r"),
                welcome_text: None,
                params: vec![],
                tags: vec![],
            },
        ),
    ];
    let configs = vec![(
        b("rust"),
        TemplateConfig {
            params: vec![],
            tags: bl(&["lang"]),
        },
    )];
    let merged = omnix_ci::template::merge_template_configs(templates, configs);
    assert_eq!(merged.len(), 2);
    assert_eq!(merged[0].name, b("haskell"));
    assert_eq!(merged[0].description, b("h"));
    assert_eq!(merged[0].path, b("./h"));
    assert!(merged[0].tags.is_empty());
    assert!(merged[0].params.is_empty());
    assert_eq!(merged[1].name, b("rust"));
    assert_eq!(merged[1].description, b("r"));
    assert_eq!(merged[1].path, b("./r"));
    assert_eq!(merged[1].tags, bl(&["lang"]));
}

#[test]
fn rows_come_from_the_mapping_with_a_placeholder_description() {
    let rows = Row::vec_from_btreemap(vec![
        (b("default"), Some(b("the package"))),
        (b("docs"), None),
    ]);
    assert_eq!(rows.len(), 2);
    assert_eq!(rows[0].name, b("default"));
    assert_eq!(rows[0].description, b("the package"));
    assert_eq!(rows[1].name, b("docs"));
    assert_eq!(rows[1].description, b("N/A"));
}

#[test]
fn output_tables_advertise_the_right_commands() {
    let show = ShowConfig { flake_url: b("github:lemur/repo") };
    let schema = FlakeSchema {
        packages: vec![(b("default"), None)],
        devshells: vec![],
        apps: vec![],
        checks: vec![],
        nixos_configurations: vec![],
    };
    let tables = show.output_tables(schema);
    assert_eq!(tables.len(), 5);
    assert_eq!(tables[0].title, b("Packages"));
    assert_eq!(
        tables[0].command,
        b("nix build github:lemur/repo#<name>")
    );
    assert_eq!(tables[0].rows.len(), 1);
    assert_eq!(tables[0].rows[0].name, b("default"));
    assert_eq!(tables[0].rows[0].description, b("N/A"));
    assert_eq!(tables[3].command, b("nix flake check"));
    assert_eq!(
        tables[4].command,
        b("nixos-rebuild switch --flake .#<name>")
    );
}
