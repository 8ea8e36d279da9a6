//! The server's fixed state: its replication role and the identity it reports.
use vstd::prelude::*;

verus! {

/// The replication role of the process.
#[derive(Debug)]
pub enum ReplicationMode {
    Master,
    Slave { host: String, port: u16 },
}

/// What every connection reads of the server and never changes: the role, the
/// run-id reported to replicas, and the replication offset.
pub struct ServerInfo {
    pub replication: ReplicationMode,
    pub master_replid: String,
    pub master_repl_offset: u64,
}

/// The run-id this process reports as a primary.
pub open spec fn run_id() -> Seq<char> {
    "8371b4fb1155b71f4a04d3e1bc3e18c4a990"@
}

impl ServerInfo {
    /// The state of a freshly started server in the given role, at offset zero.
    pub fn new(replication: ReplicationMode) -> (r: ServerInfo)
        ensures
            r.replication == replication,
            r.master_replid@ == run_id(),
            r.master_repl_offset == 0,
    {
        ServerInfo {
            replication,
            master_replid: "8371b4fb1155b71f4a04d3e1bc3e18c4a990".to_string(),
            master_repl_offset: 0,
        }
    }
}

/// The snapshot image of an empty store, sent verbatim after a full resync.
pub open spec fn empty_snapshot() -> Seq<u8> {
    seq![
        0x52u8, 0x45, 0x44, 0x49, 0x53, 0x30, 0x30, 0x31, 0x31, 0xfa, 0x09, 0x72, 0x65, 0x64, 0x69,
        0x73, 0x2d, 0x76, 0x65, 0x72, 0x05, 0x37, 0x2e, 0x32, 0x2e, 0x30, 0xfa, 0x0a, 0x72, 0x65,
        0x64, 0x69, 0x73, 0x2d, 0x62, 0x69, 0x74, 0x73, 0xc0, 0x40, 0xfa, 0x05, 0x63, 0x74, 0x69,
        0x6d, 0x65, 0xc2, 0x6d, 0x08, 0xbc, 0x65, 0xfa, 0x08, 0x75, 0x73, 0x65, 0x64, 0x2d, 0x6d,
        0x65, 0x6d, 0xc2, 0xb0, 0xc4, 0x10, 0x00, 0xfa, 0x08, 0x61, 0x6f, 0x66, 0x2d, 0x62, 0x61,
        0x73, 0x65, 0xc0, 0x00, 0xff, 0xf0, 0x6e, 0x3b, 0xfe, 0xc0, 0xff, 0x5a, 0xa2,
    ]
}

pub fn empty_snapshot_bytes() -> (r: Vec<u8>)
    ensures
        r@ == empty_snapshot(),
{
    let r: Vec<u8> = vec![
        0x52u8, 0x45, 0x44, 0x49, 0x53, 0x30, 0x30, 0x31, 0x31, 0xfa, 0x09, 0x72, 0x65, 0x64, 0x69,
        0x73, 0x2d, 0x76, 0x65, 0x72, 0x05, 0x37, 0x2e, 0x32, 0x2e, 0x30, 0xfa, 0x0a, 0x72, 0x65,
        0x64, 0x69, 0x73, 0x2d, 0x62, 0x69, 0x74, 0x73, 0xc0, 0x40, 0xfa, 0x05, 0x63, 0x74, 0x69,
        0x6d, 0x65, 0xc2, 0x6d, 0x08, 0xbc, 0x65, 0xfa, 0x08, 0x75, 0x73, 0x65, 0x64, 0x2d, 0x6d,
        0x65, 0x6d, 0xc2, 0xb0, 0xc4, 0x10, 0x00, 0xfa, 0x08, 0x61, 0x6f, 0x66, 0x2d, 0x62, 0x61,
        0x73, 0x65, 0xc0, 0x00, 0xff, 0xf0, 0x6e, 0x3b, 0xfe, 0xc0, 0xff, 0x5a, 0xa2,
    ];
    r
}

} // verus!
