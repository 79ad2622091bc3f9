use kollaps::elements::{LinkProps, Service};
use kollaps::files::{CreationNext, File, Files, FilesBuilder, FsStep, StepOutcome};
use kollaps::graph::Graph;
use kollaps::orchestrator::{command_string, escape_quotes, SignalCode};
use kollaps::schedule::EventKind;
use kollaps::topology::{
    link_plan, meta_bridge_names, meta_bridges_needed, process_active_paths, LinkSpec, ReplicaAction, ReplicaTable,
};

fn s(x: &str) -> String {
    x.to_string()
}

#[test]
fn file_creation_steps() {
    let files = FilesBuilder::new()
        .add_dir(s("/tmp/kollaps"), Some(0o775))
        .add_temp_dir(s("/tmp/kollaps/pipes"), None)
        .add_temp_file(s("/tmp/kollaps/topoinfo"), s("ids"))
        .add_protected_file(s("/etc/hosts"), s("new"))
        .try_build();
    let plan = files.creation_plan();
    assert_eq!(plan.len(), 4);
    assert_eq!(
        plan[0],
        vec![
            (FsStep::CreateDir(s("/tmp/kollaps")), false),
            (FsStep::SetPermissions(s("/tmp/kollaps"), 0o775), true),
        ]
    );
    assert_eq!(plan[1], vec![(FsStep::CreateDir(s("/tmp/kollaps/pipes")), false)]);
    assert_eq!(plan[2], vec![(FsStep::Write(s("/tmp/kollaps/topoinfo"), s("ids")), true)]);
    assert_eq!(
        plan[3],
        vec![
            (FsStep::ReadToString(s("/etc/hosts")), true),
            (FsStep::Write(s("/etc/hosts"), s("new")), true),
        ]
    );
}

#[test]
fn file_cleanup_in_reverse_order() {
    let mut files = FilesBuilder::new()
        .add_dir(s("/tmp/kollaps"), Some(0o775))
        .add_temp_dir(s("/tmp/kollaps/pipes"), Some(0o777))
        .add_temp_file(s("/tmp/kollaps/remote_ips.txt"), String::new())
        .add_protected_file(s("/etc/hosts"), s("new"))
        .try_build();
    files.keep_previous(3, s("old hosts"));
    files.keep_previous(2, s("ignored"));
    assert_eq!(files.files[3], File::ProtectedRegular(s("/etc/hosts"), s("new"), s("old hosts")));
    assert_eq!(files.files[2], File::TempRegular(s("/tmp/kollaps/remote_ips.txt"), String::new()));
    let plan = files.cleanup_plan();
    assert_eq!(
        plan,
        vec![
            vec![FsStep::Write(s("/etc/hosts"), s("old hosts"))],
            vec![FsStep::RemoveFile(s("/tmp/kollaps/remote_ips.txt"))],
            vec![
                FsStep::RemoveEntries(s("/tmp/kollaps/pipes")),
                FsStep::RemoveDir(s("/tmp/kollaps/pipes")),
            ],
            vec![],
        ]
    );
}

#[test]
fn temp_dirs_outside_the_temp_root_stay() {
    let files = FilesBuilder::new()
        .add_temp_dir(s("/tmp/kollapsx/pipes"), None)
        .add_temp_dir(s("/home/user/pipes"), None)
        .add_temp_dir(s("/tmp/kollaps"), None)
        .try_build();
    let plan = files.cleanup_plan();
    assert_eq!(
        plan,
        vec![
            vec![FsStep::RemoveEntries(s("/tmp/kollaps")), FsStep::RemoveDir(s("/tmp/kollaps"))],
            vec![],
            vec![],
        ]
    );
}

#[test]
fn empty_builder() {
    let files = FilesBuilder::new().try_build();
    assert!(files.files.is_empty());
    assert!(files.creation_plan().is_empty());
    assert!(files.cleanup_plan().is_empty());
}

#[test]
fn signal_commands() {
    assert_eq!(SignalCode::SigInt.flag(), "-2");
    assert_eq!(SignalCode::SigKill.flag(), "-9");
    assert_eq!(SignalCode::SigInt.kill_command(), "kill -2 -1");
    assert_eq!(SignalCode::SigKill.kill_command(), "kill -9 -1");
}

#[test]
fn container_start_command() {
    let entry = Some(vec![s("/bin/sh"), s("-c")]);
    let cmd = Some(vec![s("iperf3"), s("-s")]);
    let image = Some(vec![s("sleep")]);
    assert_eq!(command_string(&entry, &cmd, &image), Some(s(" /bin/sh -c iperf3 -s")));
    assert_eq!(command_string(&entry, &Some(vec![]), &image), Some(s(" /bin/sh -c sleep")));
    assert_eq!(command_string(&entry, &None, &image), Some(s(" /bin/sh -c sleep")));
    assert_eq!(command_string(&entry, &None, &None), Some(s(" /bin/sh -c")));
    assert_eq!(command_string(&None, &cmd, &image), None);
}

#[test]
fn quotes_are_escaped() {
    assert_eq!(escape_quotes(&s("echo 'hi'")), "echo \\'hi\\'");
    assert_eq!(escape_quotes(&s("plain")), "plain");
    assert_eq!(escape_quotes(&String::new()), "");
}

#[test]
fn active_path_lists() {
    assert_eq!(process_active_paths("['a','b']"), vec![s("a"), s("b")]);
    assert_eq!(process_active_paths("[server]"), vec![s("server")]);
    assert_eq!(process_active_paths(""), vec![String::new()]);
    assert_eq!(process_active_paths("a,,b"), vec![s("a"), String::new(), s("b")]);
}

fn props(latency: u32, bandwidth: u32) -> LinkProps {
    LinkProps { latency, jitter: 1, drop: 2, bandwidth }
}

fn triple(l: &LinkSpec) -> (LinkProps, String, String) {
    (l.props, l.source.clone(), l.destination.clone())
}

#[test]
fn link_plans() {
    assert_eq!(meta_bridges_needed(false, false), 0);
    assert_eq!(meta_bridges_needed(true, false), 1);
    assert_eq!(meta_bridges_needed(true, true), 2);
    let plain = link_plan(&s("a"), &s("b"), false, false, 5, 1, 2, 100, None, &vec![]);
    assert_eq!(plain.iter().map(triple).collect::<Vec<_>>(), vec![(props(5, 100), s("a"), s("b"))]);
    let both = link_plan(&s("a"), &s("b"), false, false, 5, 1, 2, 100, Some(50), &vec![]);
    assert_eq!(
        both.iter().map(triple).collect::<Vec<_>>(),
        vec![(props(5, 100), s("a"), s("b")), (props(5, 50), s("b"), s("a"))]
    );
    let attach = |bw| LinkProps { latency: 0, jitter: 0, drop: 0, bandwidth: bw };
    let shared = link_plan(&s("a"), &s("b"), true, false, 5, 1, 2, 100, None, &vec![s("m")]);
    assert_eq!(
        shared.iter().map(triple).collect::<Vec<_>>(),
        vec![(props(5, 100), s("m"), s("b")), (attach(100), s("a"), s("m"))]
    );
    let dst = link_plan(&s("a"), &s("b"), false, true, 5, 1, 2, 100, None, &vec![s("m")]);
    assert_eq!(
        dst.iter().map(triple).collect::<Vec<_>>(),
        vec![(props(5, 100), s("a"), s("m")), (attach(100), s("m"), s("b"))]
    );
    let two = link_plan(&s("a"), &s("b"), true, true, 5, 1, 2, 100, Some(7), &vec![s("m1"), s("m2")]);
    assert_eq!(
        two.iter().map(triple).collect::<Vec<_>>(),
        vec![
            (props(5, 100), s("m1"), s("m2")),
            (props(5, 7), s("m2"), s("m1")),
            (attach(100), s("a"), s("m1")),
            (attach(7), s("m1"), s("a")),
            (attach(100), s("m2"), s("b")),
            (attach(7), s("b"), s("m2")),
        ]
    );
}

#[test]
fn replicas_are_added_and_linked() {
    let mut g = Graph::new();
    let mut nodes: Vec<Service> = Vec::new();
    g.add_replicas(&mut nodes, &s("web"), false, true, 3, None, &vec![s("db")], None, Some(s("img")), None, None);
    g.add_replicas(&mut nodes, &s("dash"), false, true, 1, None, &vec![], None, Some(s("img")), None, Some(8088));
    assert_eq!(nodes.len(), 4);
    assert_eq!(g.get_service_nodes(&s("web")), Some(vec![0, 1, 2]));
    assert!(nodes[..3].iter().all(|n| n.hostname == "web" && n.replicas == 3 && n.activepaths == vec![s("db")]));
    assert!(nodes[3].supervisor);
    assert_eq!(nodes[3].supervisor_port, 8088);
    g.insert_bridge(&mut nodes, s("m"), 0);
    let plan = link_plan(&s("web"), &s("dash"), false, true, 3, 0, 0, 10, None, &vec![s("m")]);
    g.insert_links(&mut nodes, &plan);
    assert_eq!(g.link_counter, 4);
    assert_eq!(nodes[0].links, vec![0]);
    assert_eq!(nodes[4].links, vec![3]);
}

#[test]
fn replica_table_tracks_each_replica() {
    let mut t = ReplicaTable::new(2);
    assert!(t.can_take(ReplicaAction::Join, 0, false));
    assert!(!t.can_take(ReplicaAction::Leave, 0, false));
    let e = t.take(ReplicaAction::Join, 0, false, 0, 42);
    assert_eq!(e.map(|e| (e.kind, e.time)), Some((EventKind::Join, 42)));
    assert!(t.can_take(ReplicaAction::Disconnect, 0, false));
    assert_eq!(t.take(ReplicaAction::Disconnect, 0, false, 1, 43), None);
    assert!(!t.can_take(ReplicaAction::Disconnect, 0, false));
    assert!(t.can_take(ReplicaAction::Reconnect, 0, false));
    t.take(ReplicaAction::Reconnect, 0, false, 1, 44);
    t.take(ReplicaAction::Leave, 0, false, 1, 45);
    assert!(!t.can_take(ReplicaAction::Join, 0, false));
    assert!(t.can_take(ReplicaAction::Join, 0, true));
    assert!(t.can_take(ReplicaAction::Join, 1, false));
}

#[test]
fn file_creation_runs_in_order_and_stops_on_fatal_failures() {
    let mut files = FilesBuilder::new()
        .add_dir(s("/tmp/kollaps"), Some(0o775))
        .add_protected_file(s("/etc/hosts"), s("new"))
        .add_temp_file(s("/tmp/kollaps/topoinfo"), s("ids"))
        .try_build();
    let plan = files.creation_plan();
    let first = Files::first_creation_step(&plan);
    assert_eq!(first, CreationNext::Run(0, 0));
    // an existing directory is no error
    let next = files.creation_step(&plan, 0, 0, StepOutcome::Failed);
    assert_eq!(next, CreationNext::Run(0, 1));
    let next = files.creation_step(&plan, 0, 1, StepOutcome::Done);
    assert_eq!(next, CreationNext::Run(1, 0));
    let next = files.creation_step(&plan, 1, 0, StepOutcome::Read(s("old")));
    assert_eq!(next, CreationNext::Run(1, 1));
    let cleanup = files.cleanup_plan();
    assert_eq!(cleanup[1], vec![FsStep::Write(s("/etc/hosts"), s("old"))]);
    let next = files.creation_step(&plan, 1, 1, StepOutcome::Done);
    assert_eq!(next, CreationNext::Run(2, 0));
    // a failed write stops the creation there
    let stopped = files.creation_step(&plan, 2, 0, StepOutcome::Failed);
    assert_eq!(stopped, CreationNext::Stopped(2, 0));
    let finished = files.creation_step(&plan, 2, 0, StepOutcome::Done);
    assert_eq!(finished, CreationNext::Finished);
}

#[test]
fn meta_bridge_names_are_five_letters_or_digits() {
    let names = meta_bridge_names(2);
    assert_eq!(names.len(), 2);
    for n in &names {
        assert_eq!(n.chars().count(), 5);
        assert!(n.chars().all(|c| c.is_ascii_alphanumeric()));
    }
    assert!(meta_bridge_names(0).is_empty());
}

#[test]
fn bridge_addresses_are_free_ones() {
    let mut g = Graph::new();
    let mut nodes: Vec<Service> = Vec::new();
    assert_eq!(g.bridge_ip_step(0), Ok(0));
    g.insert_bridge(&mut nodes, s("s1"), 0);
    match g.bridge_ip_step(0) {
        Err(_) => {}
        Ok(_) => panic!("address 0 is taken"),
    }
}
