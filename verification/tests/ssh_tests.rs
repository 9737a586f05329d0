use hop_ssh::cli::{Cli, Commands, GroupCommands, Request};
use hop_ssh::error::HopError;
use hop_ssh::host::Host;
use hop_ssh::ssh::{connect_args, exit_outcome, ping_args, run_command_args, sync_args, tunnel_args, tunnel_banner};

fn host() -> Host {
    Host::new("prod", "192.168.1.1", "root", 2222)
}

fn with_identity() -> Host {
    let mut h = host();
    h.identity = Some("~/.ssh/id".to_string());
    h
}

#[test]
fn connect_arguments() {
    assert_eq!(connect_args(&host()), vec!["-p", "2222", "root@192.168.1.1"]);
    assert_eq!(connect_args(&with_identity()), vec!["-p", "2222", "-i", "~/.ssh/id", "root@192.168.1.1"]);
}

#[test]
fn ping_arguments() {
    assert_eq!(
        ping_args(&with_identity()),
        vec!["-p", "2222", "-o", "ConnectTimeout=5", "-o", "BatchMode=yes", "root@192.168.1.1", "echo ok"]
    );
}

#[test]
fn run_arguments() {
    assert_eq!(run_command_args(&host(), "uptime"), vec!["-p", "2222", "root@192.168.1.1", "uptime"]);
    assert_eq!(
        run_command_args(&with_identity(), "ls -la"),
        vec!["-p", "2222", "-i", "~/.ssh/id", "root@192.168.1.1", "ls -la"]
    );
}

#[test]
fn tunnel_arguments() {
    assert_eq!(
        tunnel_args(&host(), 8080, 3000),
        vec!["-p", "2222", "-L", "8080:localhost:3000", "-N", "root@192.168.1.1"]
    );
    assert_eq!(
        tunnel_args(&with_identity(), 1, 2),
        vec!["-p", "2222", "-L", "1:localhost:2", "-N", "-i", "~/.ssh/id", "root@192.168.1.1"]
    );
    assert_eq!(tunnel_banner(&host(), 8080, 3000), "Tunnel open: localhost:8080 -> 192.168.1.1:3000");
}

#[test]
fn sync_arguments() {
    assert_eq!(sync_args(&host(), "notes.txt"), vec!["-P", "2222", "notes.txt", "root@192.168.1.1:~/"]);
}

#[test]
fn exit_codes() {
    assert!(exit_outcome(true).is_ok());
    assert!(matches!(exit_outcome(false), Err(HopError::SshFailed)));
}

#[test]
fn quick_connect_request() {
    let r = Cli { quick_connect: Some("prod".to_string()), command: None }.request();
    assert!(matches!(r, Request::QuickConnect(ref n) if n == "prod"));
}

#[test]
fn command_wins_over_quick_connect() {
    let r = Cli {
        quick_connect: Some("prod".to_string()),
        command: Some(Commands::Group { cmd: GroupCommands::List }),
    }
    .request();
    assert!(matches!(r, Request::Run(Commands::Group { cmd: GroupCommands::List })));
}

#[test]
fn nothing_lists_all() {
    let r = Cli { quick_connect: None, command: None }.request();
    assert!(matches!(r, Request::ListAll));
    let r = Cli { quick_connect: None, command: Some(Commands::Ping { name: "x".to_string() }) }.request();
    assert!(matches!(r, Request::Run(Commands::Ping { ref name }) if name == "x"));
}
