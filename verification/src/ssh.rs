use vstd::prelude::*;
use crate::error::HopError;
use crate::host::{Host, HostView, texts};
use crate::text::{decimal, u16_to_decimal};

verus! {

/// `-i <identity>` where the host names an identity file; nothing otherwise.
pub open spec fn identity_part(h: HostView) -> Seq<Seq<char>> {
    match h.identity {
        Some(id) => seq!["-i"@, id],
        None => Seq::empty(),
    }
}

/// The arguments of `ssh` for an interactive session.
pub open spec fn connect_command(h: HostView) -> Seq<Seq<char>> {
    seq!["-p"@, decimal(h.port as nat)] + identity_part(h) + seq![h.connection()]
}

/// The arguments of `ssh` for a reachability probe.
pub open spec fn ping_command(h: HostView) -> Seq<Seq<char>> {
    seq![
        "-p"@,
        decimal(h.port as nat),
        "-o"@,
        "ConnectTimeout=5"@,
        "-o"@,
        "BatchMode=yes"@,
        h.connection(),
        "echo ok"@,
    ]
}

/// The arguments of `ssh` that run `cmd` on the host.
pub open spec fn run_command_command(h: HostView, cmd: Seq<char>) -> Seq<Seq<char>> {
    connect_command(h).push(cmd)
}

/// The forwarding rule `local:localhost:remote`.
pub open spec fn forward_rule(local: u16, remote: u16) -> Seq<char> {
    decimal(local as nat) + ":localhost:"@ + decimal(remote as nat)
}

/// The arguments of `ssh` that forward local port `local` to port `remote` on the host.
pub open spec fn tunnel_command(h: HostView, local: u16, remote: u16) -> Seq<Seq<char>> {
    seq!["-p"@, decimal(h.port as nat), "-L"@, forward_rule(local, remote), "-N"@] + identity_part(h)
        + seq![h.connection()]
}

/// The line shown when a tunnel opens.
pub open spec fn tunnel_notice(h: HostView, local: u16, remote: u16) -> Seq<char> {
    "Tunnel open: localhost:"@ + decimal(local as nat) + " -> "@ + h.hostname + ":"@ + decimal(
        remote as nat,
    )
}

/// The arguments of `scp` that copy `file` to the home directory on the host.
pub open spec fn sync_command(h: HostView, file: Seq<char>) -> Seq<Seq<char>> {
    seq!["-P"@, decimal(h.port as nat), file, h.connection() + ":~/"@]
}

fn push_str(v: &mut Vec<String>, s: &str)
    ensures
        texts(final(v)@) == texts(old(v)@).push(s@),
{
    let ghost before = v@;
    v.push(String::from_str(s));
    proof {
        assert(texts(v@) =~= texts(before).push(s@));
    }
}

fn push_string(v: &mut Vec<String>, s: String)
    ensures
        texts(final(v)@) == texts(old(v)@).push(s@),
{
    let ghost before = v@;
    let ghost t = s@;
    v.push(s);
    proof {
        assert(texts(v@) =~= texts(before).push(t));
    }
}

fn push_identity(v: &mut Vec<String>, host: &Host)
    ensures
        texts(final(v)@) == texts(old(v)@) + identity_part(host@),
{
    match &host.identity {
        Some(id) => {
            push_str(v, "-i");
            push_string(v, id.clone());
            proof {
                assert(texts(v@) =~= texts(old(v)@) + identity_part(host@));
            }
        },
        None => {
            proof {
                assert(texts(v@) =~= texts(old(v)@) + identity_part(host@));
            }
        },
    }
}

/// The arguments of `ssh` for an interactive session on `host`.
pub fn connect_args(host: &Host) -> (v: Vec<String>)
    ensures
        texts(v@) == connect_command(host@),
{
    let mut v: Vec<String> = Vec::new();
    push_str(&mut v, "-p");
    push_string(&mut v, u16_to_decimal(host.port));
    push_identity(&mut v, host);
    push_string(&mut v, host.connection_string());
    proof {
        assert(texts(v@) =~= connect_command(host@));
    }
    v
}

/// The arguments of `ssh` for a reachability probe of `host`.
pub fn ping_args(host: &Host) -> (v: Vec<String>)
    ensures
        texts(v@) == ping_command(host@),
{
    let mut v: Vec<String> = Vec::new();
    push_str(&mut v, "-p");
    push_string(&mut v, u16_to_decimal(host.port));
    push_str(&mut v, "-o");
    push_str(&mut v, "ConnectTimeout=5");
    push_str(&mut v, "-o");
    push_str(&mut v, "BatchMode=yes");
    push_string(&mut v, host.connection_string());
    push_str(&mut v, "echo ok");
    proof {
        assert(texts(v@) =~= ping_command(host@));
    }
    v
}

/// The arguments of `ssh` that run `cmd` on `host`.
pub fn run_command_args(host: &Host, cmd: &str) -> (v: Vec<String>)
    ensures
        texts(v@) == run_command_command(host@, cmd@),
{
    let mut v = connect_args(host);
    push_str(&mut v, cmd);
    v
}

/// The arguments of `ssh` that forward local port `local` to port `remote` on `host`.
pub fn tunnel_args(host: &Host, local: u16, remote: u16) -> (v: Vec<String>)
    ensures
        texts(v@) == tunnel_command(host@, local, remote),
{
    let mut forward = u16_to_decimal(local);
    forward.append(":localhost:");
    forward.append(u16_to_decimal(remote).as_str());
    let mut v: Vec<String> = Vec::new();
    push_str(&mut v, "-p");
    push_string(&mut v, u16_to_decimal(host.port));
    push_str(&mut v, "-L");
    push_string(&mut v, forward);
    push_str(&mut v, "-N");
    push_identity(&mut v, host);
    push_string(&mut v, host.connection_string());
    proof {
        assert(texts(v@) =~= tunnel_command(host@, local, remote));
    }
    v
}

/// The line shown when a tunnel from `local` to `remote` on `host` opens.
pub fn tunnel_banner(host: &Host, local: u16, remote: u16) -> (s: String)
    ensures
        s@ == tunnel_notice(host@, local, remote),
{
    let mut s = String::from_str("Tunnel open: localhost:");
    s.append(u16_to_decimal(local).as_str());
    s.append(" -> ");
    s.append(host.hostname.as_str());
    s.append(":");
    s.append(u16_to_decimal(remote).as_str());
    s
}

/// The arguments of `scp` that copy `file` to the home directory on `host`.
pub fn sync_args(host: &Host, file: &str) -> (v: Vec<String>)
    ensures
        texts(v@) == sync_command(host@, file@),
{
    let mut dest = host.connection_string();
    dest.append(":~/");
    let mut v: Vec<String> = Vec::new();
    push_str(&mut v, "-P");
    push_string(&mut v, u16_to_decimal(host.port));
    push_str(&mut v, file);
    push_string(&mut v, dest);
    proof {
        assert(texts(v@) =~= sync_command(host@, file@));
    }
    v
}

/// What a finished `ssh` or `scp` run means: success, or the failure of the command.
pub fn exit_outcome(success: bool) -> (r: Result<(), HopError>)
    ensures
        success ==> r is Ok,
        !success ==> r matches Err(HopError::SshFailed),
{
    if success {
        Ok(())
    } else {
        Err(HopError::SshFailed)
    }
}

} // verus!
