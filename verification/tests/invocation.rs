use dockerrun::BuildError;
use dockerrun::DockerRun;
use dockerrun::InterpError;
use dockerrun::MapResolver;
use dockerrun::RecordingLauncher;

fn bare(image: &str) -> DockerRun {
    DockerRun {
        image: image.to_string(),
        help: None,
        interactive: None,
        tty: None,
        command: None,
        entrypoint: None,
        envs: None,
        env_file: None,
        network: None,
        ports: None,
        volumes: None,
        user: None,
        extra_flags: None,
    }
}

fn resolver(vars: &[(&str, &str)]) -> MapResolver {
    MapResolver {
        vars: vars.iter().map(|(k, v)| (k.to_string(), v.to_string())).collect(),
        cmds: Vec::new(),
    }
}

fn recorder() -> RecordingLauncher {
    RecordingLauncher { calls: Vec::new(), results: Vec::new(), fail: false }
}

#[test]
fn image_only_renders_exactly_run_rm_image() {
    let dr = bare("alpine");
    let args = dr.render_args(&resolver(&[])).unwrap();
    assert_eq!(args, vec!["run".to_string(), "--rm".to_string(), "alpine".to_string()]);
}

#[test]
fn env_entry_is_one_joined_token() {
    let mut dr = bare("alpine");
    dr.envs = Some(vec![("K".to_string(), "$HOME".to_string())]);
    let args = dr.render_args(&resolver(&[("HOME", "/home/me")])).unwrap();
    assert_eq!(
        args,
        vec![
            "run".to_string(),
            "--rm".to_string(),
            "-e".to_string(),
            "K=/home/me".to_string(),
            "alpine".to_string(),
        ]
    );
}

#[test]
fn marker_inside_env_key_is_expanded_too() {
    let mut dr = bare("alpine");
    dr.envs = Some(vec![("$A".to_string(), "b".to_string())]);
    let args = dr.render_args(&resolver(&[("A", "x")])).unwrap();
    assert_eq!(args[2], "-e");
    assert_eq!(args[3], "x=b");
}

#[test]
fn ports_keep_their_order() {
    let mut dr = bare("alpine");
    dr.ports = Some(vec!["8080:80".to_string(), "9090:90".to_string()]);
    let args = dr.render_args(&resolver(&[])).unwrap();
    assert_eq!(
        args,
        vec![
            "run".to_string(),
            "--rm".to_string(),
            "-p".to_string(),
            "8080:80".to_string(),
            "-p".to_string(),
            "9090:90".to_string(),
            "alpine".to_string(),
        ]
    );
}

#[test]
fn full_flag_order_is_fixed() {
    let mut dr = bare("$IMG");
    dr.entrypoint = Some("/bin/sh".to_string());
    dr.envs = Some(vec![("K".to_string(), "v".to_string())]);
    dr.env_file = Some(".env".to_string());
    dr.network = Some("host".to_string());
    dr.ports = Some(vec!["80:80".to_string()]);
    dr.volumes = Some(vec!["/a:/b".to_string()]);
    dr.user = Some("root".to_string());
    dr.extra_flags = Some(vec!["--privileged".to_string()]);
    dr.command = Some(vec!["ls".to_string(), "-l".to_string()]);
    let args = dr.render_args(&resolver(&[("IMG", "alpine")])).unwrap();
    assert_eq!(
        args,
        vec![
            "run".to_string(),
            "--rm".to_string(),
            "--entrypoint".to_string(),
            "/bin/sh".to_string(),
            "-e".to_string(),
            "K=v".to_string(),
            "--env-file".to_string(),
            ".env".to_string(),
            "--network=host".to_string(),
            "-p".to_string(),
            "80:80".to_string(),
            "-v".to_string(),
            "/a:/b".to_string(),
            "-u".to_string(),
            "root".to_string(),
            "--privileged".to_string(),
            "alpine".to_string(),
            "ls".to_string(),
            "-l".to_string(),
        ]
    );
}

#[test]
fn interactive_and_tty_are_not_rendered() {
    let mut dr = bare("alpine");
    dr.interactive = Some(true);
    dr.tty = Some(true);
    dr.help = Some("documentation only".to_string());
    let args = dr.render_args(&resolver(&[])).unwrap();
    assert_eq!(args, vec!["run".to_string(), "--rm".to_string(), "alpine".to_string()]);
}

#[test]
fn interpolation_failure_names_the_field_and_skips_launch() {
    let mut dr = bare("${IMG");
    dr.command = Some(vec!["ls".to_string()]);
    let mut launcher = recorder();
    let err = dr.run(&resolver(&[]), &mut launcher).unwrap_err();
    match err {
        BuildError::Interpolation(field, cause) => {
            assert_eq!(field, "image");
            assert!(matches!(cause, InterpError::UnterminatedSubstitution));
        },
        BuildError::Launch(_) => panic!("a failed interpolation must not reach the launcher"),
    }
    assert_eq!(launcher.calls.len(), 0);
}

#[test]
fn failing_port_aborts_the_whole_build() {
    let mut dr = bare("alpine");
    dr.ports = Some(vec!["80:80".to_string(), "`oops".to_string()]);
    let mut launcher = recorder();
    let err = dr.run(&resolver(&[]), &mut launcher).unwrap_err();
    assert!(matches!(err, BuildError::Interpolation(_, _)));
    assert_eq!(launcher.calls.len(), 0);
}

#[test]
fn spawn_failure_surfaces_as_launch_error() {
    let dr = bare("alpine");
    let mut launcher = RecordingLauncher { calls: Vec::new(), results: Vec::new(), fail: true };
    let err = dr.run(&resolver(&[]), &mut launcher).unwrap_err();
    assert!(matches!(err, BuildError::Launch(_)));
    assert_eq!(launcher.calls.len(), 1);
    assert_eq!(launcher.results, vec![false]);
}

#[test]
fn test_run() {
    let mut dr = bare("clux/muslrust:stable");
    dr.command = Some(vec!["cargo".to_string(), "--version".to_string()]);
    let mut launcher = recorder();
    dr.run(&resolver(&[]), &mut launcher).unwrap();
    assert_eq!(launcher.results, vec![true]);
    assert_eq!(
        launcher.calls,
        vec![vec![
            "run".to_string(),
            "--rm".to_string(),
            "clux/muslrust:stable".to_string(),
            "cargo".to_string(),
            "--version".to_string(),
        ]]
    );
}

#[test]
fn env_entries_keep_their_order() {
    let mut dr = bare("alpine");
    dr.envs = Some(vec![
        ("A".to_string(), "1".to_string()),
        ("B".to_string(), "2".to_string()),
    ]);
    let args = dr.render_args(&resolver(&[])).unwrap();
    assert_eq!(args[2..6], ["-e", "A=1", "-e", "B=2"].map(String::from));
}

#[test]
fn extra_flags_pass_through_without_prefix() {
    let mut dr = bare("alpine");
    dr.extra_flags = Some(vec!["--privileged".to_string(), "--pull=$MODE".to_string()]);
    let args = dr.render_args(&resolver(&[("MODE", "always")])).unwrap();
    assert_eq!(
        args,
        vec![
            "run".to_string(),
            "--rm".to_string(),
            "--privileged".to_string(),
            "--pull=always".to_string(),
            "alpine".to_string(),
        ]
    );
}
