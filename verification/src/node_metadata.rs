use crate::network::text_view;
use crate::sha::SHA;
use crate::text::{alphanumeric, is_alphanumeric, push_char};
use vstd::prelude::*;
use vstd::string::{StrSliceExecFns, StringExecFns};

verus! {

/// What a node keeps on disk between runs.
#[derive(Clone, Debug)]
pub struct MetaData {
    pub name: String,
    pub node_id: SHA,
    pub port: u16,
    pub bootstrap_ip: Option<String>,
    pub bootstrap_port: Option<u16>,
}

/// Why a node's metadata could not be settled.
#[derive(Copy, Clone, Debug, PartialEq, Eq, Structural)]
pub enum MetaDataError {
    /// The node starts for the first time and no port was given.
    PortMissing,
}

/// A name with every character that is no ASCII letter or digit replaced
/// by an underscore.
pub open spec fn sanitized(name: Seq<char>) -> Seq<char> {
    Seq::new(
        name.len(),
        |i: int|
            if is_alphanumeric(name[i]) {
                name[i]
            } else {
                '_'
            },
    )
}

/// The name of the file that holds the metadata of the node called
/// `name`.
pub open spec fn file_name_of(name: Seq<char>) -> Seq<char> {
    sanitized(name) + "_metadata"@
}

/// The name of the file that holds the metadata of the node called
/// `name`: the name with everything but ASCII letters and digits replaced
/// by underscores, and `_metadata` behind it.
pub fn metadata_file_name(name: &str) -> (file_name: String)
    ensures
        file_name@ == file_name_of(name@),
{
    let n = name.unicode_len();
    let mut out = String::new();
    let mut i: usize = 0;
    while i < n
        invariant
            i <= n,
            n == name@.len(),
            out@ == sanitized(name@).take(i as int),
        decreases n - i,
    {
        let c = name.get_char(i);
        if alphanumeric(c) {
            push_char(&mut out, c);
        } else {
            push_char(&mut out, '_');
        }
        assert(out@ =~= sanitized(name@).take(i as int + 1));
        i += 1;
    }
    assert(sanitized(name@).take(n as int) =~= sanitized(name@));
    out.append("_metadata");
    out
}

impl MetaData {
    /// The peer through which the node is to join the overlay: the host
    /// and the port, where the metadata names both.
    pub fn bootstrap_peer(&self) -> (peer: Option<(String, u16)>)
        ensures
            match (self.bootstrap_ip, self.bootstrap_port) {
                (Some(ip), Some(port)) => peer matches Some((host, p)) && host@ == ip@ && p
                    == port,
                _ => peer is None,
            },
    {
        match (&self.bootstrap_ip, self.bootstrap_port) {
            (Some(ip), Some(port)) => Some((ip.clone(), port)),
            _ => None,
        }
    }

    /// Settles the metadata of a node from what the operator gave and what
    /// was found on disk, and says whether it has to be written.
    ///
    /// With a file and a port, the node keeps the name and identifier of
    /// the file and takes port and bootstrap peer from the operator. With a
    /// file and no port, the file stands as it is. Without a file, the node
    /// starts for the first time: it needs a port, gets `fresh_id` as its
    /// identifier, and its metadata is written, this once.
    pub fn resolve(
        name: &String,
        port: Option<u16>,
        bootstrap_ip: &Option<String>,
        bootstrap_port: Option<u16>,
        loaded: Option<MetaData>,
        fresh_id: SHA,
    ) -> (r: Result<(MetaData, bool), MetaDataError>)
        ensures
            loaded is None && port is None <==> r is Err,
            r matches Err(e) ==> e == MetaDataError::PortMissing,
            r matches Ok((metadata, write)) ==> {
                &&& write == (loaded is None)
                &&& match (loaded, port) {
                    (Some(found), Some(given)) => {
                        &&& metadata.name == found.name
                        &&& metadata.node_id == found.node_id
                        &&& metadata.port == given
                        &&& text_view(metadata.bootstrap_ip) == text_view(*bootstrap_ip)
                        &&& metadata.bootstrap_port == bootstrap_port
                    },
                    (Some(found), None) => metadata == found,
                    (None, Some(given)) => {
                        &&& metadata.name@ == name@
                        &&& metadata.node_id == fresh_id
                        &&& metadata.port == given
                        &&& text_view(metadata.bootstrap_ip) == text_view(*bootstrap_ip)
                        &&& metadata.bootstrap_port == bootstrap_port
                    },
                    (None, None) => false,
                }
            },
    {
        let ip = match bootstrap_ip {
            Some(text) => Some(text.clone()),
            None => None,
        };
        match loaded {
            Some(found) => match port {
                Some(given) => Ok(
                    (
                        MetaData {
                            name: found.name,
                            node_id: found.node_id,
                            port: given,
                            bootstrap_ip: ip,
                            bootstrap_port,
                        },
                        false,
                    ),
                ),
                None => Ok((found, false)),
            },
            None => match port {
                Some(given) => Ok(
                    (
                        MetaData {
                            name: name.clone(),
                            node_id: fresh_id,
                            port: given,
                            bootstrap_ip: ip,
                            bootstrap_port,
                        },
                        true,
                    ),
                ),
                None => Err(MetaDataError::PortMissing),
            },
        }
    }

    /// Settles the metadata of a node as `resolve` does, with a random
    /// identifier for a node that starts for the first time. `loaded` is
    /// what the metadata file holds, if there is one.
    pub fn load_or_create(
        name: &String,
        port: Option<u16>,
        bootstrap_ip: &Option<String>,
        bootstrap_port: Option<u16>,
        loaded: Option<MetaData>,
    ) -> (r: Result<(MetaData, bool), MetaDataError>)
        ensures
            loaded is None && port is None <==> r is Err,
            r matches Err(e) ==> e == MetaDataError::PortMissing,
            r matches Ok((metadata, write)) ==> {
                &&& write == (loaded is None)
                &&& port matches Some(given) ==> metadata.port == given && text_view(
                    metadata.bootstrap_ip,
                ) == text_view(*bootstrap_ip) && metadata.bootstrap_port == bootstrap_port
                &&& loaded matches Some(found) ==> metadata.name == found.name && metadata.node_id
                    == found.node_id
                &&& loaded is Some && port is None ==> metadata == loaded.unwrap()
                &&& loaded is None ==> metadata.name@ == name@
            },
    {
        let fresh_id = match &loaded {
            Some(found) => found.node_id,
            None => SHA::generate(),
        };
        MetaData::resolve(name, port, bootstrap_ip, bootstrap_port, loaded, fresh_id)
    }
}

} // verus!
