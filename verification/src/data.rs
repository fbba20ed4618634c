use vstd::prelude::*;
use crate::commands::SetArgs;
use crate::table::Table;

verus! {

/// The kind of value stored under a key.
#[derive(Debug, Clone, Copy, PartialEq, Eq, Structural)]
pub enum ValType {
    STRING,
    STREAM,
}

/// A stored value: its text, when it was written (milliseconds since the
/// epoch), its time to live in milliseconds, and its kind.
#[derive(Debug)]
pub struct Val {
    pub val: String,
    pub created_at: u128,
    pub expiry: Option<u128>,
    pub value_type: ValType,
}

impl Val {
    /// A string value for a `SET` request received at time `now`.
    pub fn from(value: SetArgs, now: u128) -> (r: Val)
        ensures
            r.val@ == value.val@,
            r.created_at == now,
            r.expiry == value.expiry,
            r.value_type == ValType::STRING,
    {
        Val { val: value.val, created_at: now, expiry: value.expiry, value_type: ValType::STRING }
    }

    /// Whether the value has outlived its time to live at time `now`.
    pub open spec fn expired_at(&self, now: u128) -> bool {
        match self.expiry {
            Some(e) => now - self.created_at >= e,
            None => false,
        }
    }

    /// Whether the value has outlived its time to live at time `now`
    /// (for a value with a time to live, `now` is not before it was written).
    pub fn is_expired(&self, now: u128) -> (r: bool)
        requires
            self.expiry is Some ==> self.created_at <= now,
        ensures
            r == self.expired_at(now),
    {
        match self.expiry {
            Some(e) => now - self.created_at >= e,
            None => false,
        }
    }
}

/// A replica that receives the write commands of this server.
#[derive(Debug)]
pub struct Replica {
    pub port: i32,
    pub host: String,
}

/// The replication settings of this server.
pub struct ReplicationData {
    pub master: bool,
    pub replication_id: String,
    pub offset: i32,
    pub master_host: String,
    pub master_port: i32,
}

/// The server's configuration.
pub struct Config {
    pub port: i32,
    pub replication: ReplicationData,
    pub replicas: Vec<Replica>,
}

/// The replication id a master starts with.
pub open spec fn default_replication_id() -> Seq<char> {
    "8371b4fb1155b71f4a04d3e1bc3e18c4a990aeeb"@
}

/// The default host of the master.
pub open spec fn default_master_host() -> Seq<char> {
    "127.0.0.1"@
}

impl Default for Config {
    /// A master on port 6379 with no replicas.
    fn default() -> (r: Config)
        ensures
            r.port == 6379,
            r.replication.master,
            r.replication.replication_id@ == default_replication_id(),
            r.replication.offset == 0,
            r.replication.master_host@ == default_master_host(),
            r.replication.master_port == 6379,
            r.replicas@.len() == 0,
    {
        Config {
            port: 6379,
            replication: ReplicationData {
                master: true,
                replication_id: "8371b4fb1155b71f4a04d3e1bc3e18c4a990aeeb".to_owned(),
                offset: 0,
                master_host: "127.0.0.1".to_owned(),
                master_port: 6379,
            },
            replicas: Vec::new(),
        }
    }
}

} // verus!

verus! {

/// An append-only log of entries, each an id with its field/value pairs.
/// `top` holds the numbers of the newest entry id.
pub struct Stream {
    pub map: Table<Table<Val>>,
    pub created_at: u128,
    pub top: Vec<u128>,
}

} // verus!
