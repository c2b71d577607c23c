//! A directory tree of the host, as plain values, and the order in which
//! its entries go into a table.

use vstd::prelude::*;
use vstd::utf8::encode_utf8;

verus! {

/// The name of the directory that holds the system files of an image.
pub const SYSTEM_DATA: &'static str = "&&systemdata";

/// An entry of a host directory: a file with its length, or a directory
/// with what lies in it, in the order in which the host gave it.
pub enum HostEntry {
    File { name: String, size: usize },
    Directory { name: String, children: Vec<HostEntry> },
}

/// What a table holds of one host entry: the name, the kind, the length of
/// a file, and how many entries the host entry makes, itself and all below it.
pub struct HostItem {
    pub name: Seq<u8>,
    pub is_directory: bool,
    pub size: nat,
    pub span: int,
}

/// Names that are left out of a table: those that begin with a dot, and the
/// directory of the system files.
pub open spec fn is_ignored_name(name: Seq<u8>) -> bool {
    (name.len() > 0 && name[0] == 0x2e) || name == encode_utf8(SYSTEM_DATA@)
}

impl HostEntry {
    /// The name as UTF-8.
    pub open spec fn name_bytes(&self) -> Seq<u8> {
        match self {
            HostEntry::File { name, .. } => encode_utf8(name@),
            HostEntry::Directory { name, .. } => encode_utf8(name@),
        }
    }

    /// The name.
    pub fn name(&self) -> (r: &str)
        ensures
            encode_utf8(r@) == self.name_bytes(),
    {
        match self {
            HostEntry::File { name, .. } => name.as_str(),
            HostEntry::Directory { name, .. } => name.as_str(),
        }
    }
}

/// The entries that a host entry makes: itself, then, for a directory,
/// those of what lies in it.
pub open spec fn flat_node(host: HostEntry) -> Seq<HostItem>
    decreases host,
{
    match host {
        HostEntry::File { name, size } => seq![
            HostItem { name: encode_utf8(name@), is_directory: false, size: size as nat, span: 1 },
        ],
        HostEntry::Directory { name, children } => seq![
            HostItem {
                name: encode_utf8(name@),
                is_directory: true,
                size: 0,
                span: 1 + flat_list(children@, children@.len()).len() as int,
            },
        ] + flat_list(children@, children@.len()),
    }
}

/// The entries that the first `upto` of the host entries make, the ignored
/// ones left out.
pub open spec fn flat_list(hosts: Seq<HostEntry>, upto: nat) -> Seq<HostItem>
    decreases hosts, upto,
{
    if upto == 0 || upto > hosts.len() {
        Seq::empty()
    } else if is_ignored_name(hosts[upto - 1].name_bytes()) {
        flat_list(hosts, (upto - 1) as nat)
    } else {
        flat_list(hosts, (upto - 1) as nat) + flat_node(hosts[upto - 1])
    }
}

} // verus!
