use vstd::prelude::*;

verus! {

/// Where and how queues are persisted.
pub enum Persistence {
    /// One append-only event log per queue, under the directory.
    Log(String),
    /// One snapshot file per queue, under the directory.
    Snapshot(String),
}

/// This node's part in replication.
pub enum Replication {
    /// Ship events to the replicas at these `host:port` addresses.
    Primary(Vec<String>),
    /// Accept a primary on this `host:port` address.
    Replica(String),
}

/// An access key and the queues it opens.
pub struct AccessKey {
    pub key: String,
    pub queues: Vec<String>,
}

/// Server configuration.
pub struct Config {
    pub queues: Vec<String>,
    /// Seconds between garbage collections.
    pub gc_timer: u64,
    /// Seconds between snapshots.
    pub persistence_timer: u64,
    pub persistence: Option<Persistence>,
    pub replication: Option<Replication>,
    pub access_keys: Option<Vec<AccessKey>>,
}

impl Config {
    /// No queues, collection every 5 minutes, snapshots every 15, no
    /// persistence, replication or access keys.
    pub fn new() -> (r: Config)
        ensures
            r.queues@.len() == 0,
            r.gc_timer == 300,
            r.persistence_timer == 900,
            r.persistence is None,
            r.replication is None,
            r.access_keys is None,
    {
        Config {
            queues: Vec::new(),
            gc_timer: 300,
            persistence_timer: 900,
            persistence: None,
            replication: None,
            access_keys: None,
        }
    }
}

/// The command the server was started with.
#[derive(Clone, Copy, Debug, PartialEq, Eq, Structural)]
pub enum Command {
    /// Serve queues.
    Start,
    /// Write a configuration file.
    Init,
    /// Serve as a replica.
    Replica,
}

/// The server: where its configuration lives, the configuration once
/// loaded, and the command it runs.
pub struct Server {
    config: String,
    loaded_config: Option<Config>,
    command: Command,
}

impl Server {
    pub fn new(config_path: String, command: Command) -> (r: Server)
        ensures
            r.path_spec() == config_path@,
            !r.has_config(),
            r.command_spec() == command,
    {
        Server { config: config_path, loaded_config: None, command }
    }

    pub closed spec fn command_spec(&self) -> Command {
        self.command
    }

    /// The server with `config` as its loaded configuration.
    pub fn with_config(self, config: Config) -> (r: Server)
        ensures
            r.path_spec() == self.path_spec(),
            r.command_spec() == self.command_spec(),
            r.has_config(),
            r.stored_config() == Some(config),
    {
        Server { loaded_config: Some(config), ..self }
    }

    pub fn config(&self) -> (r: Option<&Config>)
        ensures
            r is Some <==> self.has_config(),
            r is Some ==> self.stored_config() == Some(*r->0),
    {
        self.loaded_config.as_ref()
    }

    /// The loaded configuration, taken out of the server.
    pub fn into_config(self) -> (r: Option<Config>)
        ensures
            r is Some <==> self.has_config(),
            r == self.stored_config(),
    {
        self.loaded_config
    }

    pub closed spec fn stored_config(&self) -> Option<Config> {
        self.loaded_config
    }

    pub closed spec fn has_config(&self) -> bool {
        self.loaded_config is Some
    }

    /// Path of the configuration file.
    pub fn config_path(&self) -> (r: &String)
        ensures
            r@ == self.path_spec(),
    {
        &self.config
    }

    pub closed spec fn path_spec(&self) -> Seq<char> {
        self.config@
    }

    /// The command that started the server.
    pub fn command(&self) -> (r: &Command)
        ensures
            *r == self.command_spec(),
    {
        &self.command
    }
}

/// Errors of the node manager.
#[derive(Clone, Copy, Debug, PartialEq, Eq, Structural)]
pub enum ManagerError {
    QueueNotFound,
}

impl ManagerError {
    /// The HTTP status this error answers with.
    pub fn status_code(&self) -> (r: u16)
        ensures
            r == 404,
    {
        404
    }

    pub fn message(&self) -> (r: &'static str) {
        "Queue not found"
    }
}

} // verus!
