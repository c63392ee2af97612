//! Cluster transport: which certificates a process presents, how a peer is addressed, and what a
//! failed raft call means.

use vstd::prelude::*;

use crate::text::owned;

verus! {

/// Whether cluster TLS is on: it is where a certificate directory is named.
pub fn tls_enabled(dir: Option<&str>) -> (enabled: bool)
    ensures
        enabled == (dir is Some),
{
    dir.is_some()
}

/// The files of a certificate directory that a process needs.
#[derive(Debug, PartialEq)]
pub struct TlsFiles {
    pub ca: String,
    pub cert: String,
    pub key: String,
}

/// The files that a process with a role needs; an operator's where no role is named.
pub fn tls_files(role: Option<&str>) -> (files: TlsFiles)
    ensures
        files.ca@ == "ca.crt"@,
        ({
            let role_text = match role {
                Some(text) => text@,
                None => "operator"@,
            };
            files.cert@ == role_text + ".crt"@ && files.key@ == role_text + ".key"@
        }),
{
    let role = match role {
        Some(text) => text,
        None => "operator",
    };
    let mut cert = owned(role);
    cert.append(".crt");
    let mut key = owned(role);
    key.append(".key");
    TlsFiles { ca: owned("ca.crt"), cert, key }
}

/// The address of a peer as a URL.
pub fn endpoint(addr: &str, tls: bool) -> (url: String)
    ensures
        url@ == if tls {
            "https://"@ + addr@
        } else {
            "http://"@ + addr@
        },
{
    let mut url = owned(
        if tls {
            "https://"
        } else {
            "http://"
        },
    );
    url.append(addr);
    url
}

/// The credential that a client sends with a token.
pub fn bearer(token: &str) -> (header: String)
    ensures
        header@ == "Bearer "@ + token@,
{
    let mut header = owned("Bearer ");
    header.append(token);
    header
}

/// How far a raft call came.
#[derive(Debug, PartialEq)]
pub enum RaftReply<R, E> {
    /// No connection.
    NotConnected(String),
    /// The request could not be written, the call failed, or the reply could not be read.
    Broken(String),
    /// The peer's own result.
    Answered(Result<R, E>),
}

/// Why a raft call failed, in the terms that replication goes by.
#[derive(Debug, PartialEq)]
pub enum RpcFailure<E> {
    /// The peer cannot be reached: back off.
    Unreachable(String),
    /// The transport failed: retry.
    Network(String),
    /// The peer's raft refused.
    Remote { target: u64, error: E },
}

/// Makes a client for each peer of a raft group.
#[derive(Clone, Copy, Debug, Default)]
pub struct GrpcRaftNetworkFactory;

/// A client for one peer: its id and its address.
#[derive(Debug, PartialEq)]
pub struct GrpcRaftClient {
    pub target: u64,
    pub addr: String,
}

impl GrpcRaftNetworkFactory {
    /// The client for a peer; the address is the one in the group's membership.
    pub fn new_client(&self, target: u64, addr: &str) -> (client: GrpcRaftClient)
        ensures
            client.target == target,
            client.addr@ == addr@,
    {
        GrpcRaftClient { target, addr: owned(addr) }
    }
}

impl GrpcRaftClient {
    /// Where the peer is called. Raft calls carry no certificates.
    pub fn url(&self) -> (url: String)
        ensures
            url@ == "http://"@ + self.addr@,
    {
        endpoint(self.addr.as_str(), false)
    }

    /// What a round trip means: the peer's result, or a failure that names its cause. An error of
    /// the peer's raft is told apart from a transport failure.
    pub fn round_trip<R, E>(&self, reply: RaftReply<R, E>) -> (result: Result<R, RpcFailure<E>>)
        ensures
            match (reply, result) {
                (RaftReply::NotConnected(text), Err(RpcFailure::Unreachable(told))) => told == text,
                (RaftReply::Broken(text), Err(RpcFailure::Network(told))) => told == text,
                (RaftReply::Answered(Ok(answer)), Ok(given)) => given == answer,
                (RaftReply::Answered(Err(error)), Err(RpcFailure::Remote { target, error: told })) =>
                target == self.target && told == error,
                _ => false,
            },
    {
        match reply {
            RaftReply::NotConnected(text) => Err(RpcFailure::Unreachable(text)),
            RaftReply::Broken(text) => Err(RpcFailure::Network(text)),
            RaftReply::Answered(Ok(answer)) => Ok(answer),
            RaftReply::Answered(Err(error)) => Err(
                RpcFailure::Remote { target: self.target, error },
            ),
        }
    }
}

} // verus!
