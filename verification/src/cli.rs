use vstd::prelude::*;

verus! {

/// The command line: a host to connect to at once, or a command.
#[derive(Debug)]
pub struct Cli {
    pub quick_connect: Option<String>,
    pub command: Option<Commands>,
}

/// The commands.
#[derive(Debug)]
#[allow(inconsistent_fields)]
pub enum Commands {
    /// Add a new host.
    Add {
        name: String,
        host: String,
        user: String,
        port: u16,
        identity: Option<String>,
        group: Option<String>,
    },
    /// List all hosts, or those of one group.
    List { group: Option<String> },
    /// Connect to a host.
    Connect { name: String },
    /// Remove a host.
    Remove { name: String },
    /// Edit a host.
    Edit {
        name: String,
        host: Option<String>,
        user: Option<String>,
        port: Option<u16>,
        identity: Option<String>,
    },
    /// Rename a host.
    Rename { old_name: String, new_name: String },
    /// Copy a host.
    Copy { source: String, dest: String },
    /// Test the connection to a host.
    Ping { name: String },
    /// Show a host in full.
    Info { name: String },
    /// Tag a host.
    Tag { name: String, tag: String },
    /// Search the hosts.
    Search { query: String },
    /// Group management.
    Group { cmd: GroupCommands },
    /// Export the configuration.
    Export { output: Option<String> },
    /// Import a configuration.
    Import { file: String },
    /// Forward a local port to a port on a host (`local:remote`).
    Tunnel { name: String, ports: String },
    /// Run a command on a host.
    Run { name: String, command: String },
    /// Copy a file to a host.
    Sync { name: String, file: String },
}

/// The group commands.
#[derive(Debug)]
pub enum GroupCommands {
    /// Place a host in a group.
    Add { group: String, host: String },
    /// List the groups.
    List,
}

/// What the command line asks for.
#[derive(Debug)]
pub enum Request {
    /// Connect to the named host.
    QuickConnect(String),
    /// List all hosts.
    ListAll,
    /// Carry out a command.
    Run(Commands),
}

impl Cli {
    /// What the command line asks for: a named host alone means connecting to it;
    /// a command is carried out (a host name beside it is ignored); nothing at all
    /// means listing every host.
    pub fn request(self) -> (r: Request)
        ensures
            match (self.quick_connect, self.command) {
                (Some(name), None) => r == Request::QuickConnect(name),
                (_, Some(c)) => r == Request::Run(c),
                (None, None) => r == Request::ListAll,
            },
    {
        match self.command {
            Some(c) => Request::Run(c),
            None => match self.quick_connect {
                Some(name) => Request::QuickConnect(name),
                None => Request::ListAll,
            },
        }
    }
}

} // verus!
