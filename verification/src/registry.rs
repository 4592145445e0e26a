//! The operation registry: the catalog of operation names, scoped per
//! capability, that every other component relies on, together with the
//! reserved key names under which actor identity claims are delivered in a
//! binding configuration. Names are case-sensitive and stable across
//! versions, so each is produced by exactly one place in this module.

use vstd::prelude::*;

verus! {

/// One named operation of the communication contract.
#[derive(Clone, Copy, Debug, PartialEq, Eq, Structural)]
pub enum Operation {
    /// Ask a provider for its serialized capability descriptor. Every
    /// provider handles this operation; it takes no payload.
    GetCapabilityDescriptor,
    /// Create a container in a blob store; idempotent.
    CreateContainer,
    /// Remove a container from a blob store; idempotent.
    RemoveContainer,
    /// Remove a single blob from a container.
    RemoveObject,
    /// List the blobs of a container.
    ListObjects,
    /// Deliver one sequenced chunk of an upload to the provider.
    UploadChunk,
    /// Ask the provider to begin streaming a blob back to the actor.
    StartDownload,
    /// Announce an upload with a metadata-only chunk.
    StartUpload,
    /// Deliver one sequenced chunk of a download to the actor.
    ReceiveChunk,
    /// Ask for the full metadata of a single blob.
    GetObjectInfo,
    /// Publish a message on a broker subject.
    Publish,
    /// Deliver a broker message to an actor.
    DeliverMessage,
    /// Perform a request-and-reply publication on a broker.
    Request,
    /// Write one log entry on behalf of an actor.
    WriteLog,
    /// Deliver an event from a stream to an actor.
    DeliverEvent,
    /// Append an event to a stream.
    WriteEvent,
    /// Run a query against an event stream.
    QueryStream,
    /// Ask for a freshly generated GUID.
    RequestGuid,
    /// Ask for the next sequence number.
    RequestSequence,
    /// Ask for a random number.
    RequestRandom,
    /// Replace a running actor module with new bytes.
    PerformLiveUpdate,
    /// Ask a capability to identify itself.
    IdentifyCapability,
    /// Ask an actor to confirm that it is healthy.
    HealthRequest,
    /// Initialize a freshly loaded module.
    Initialize,
    /// Bind an actor to a provider, delivering its configuration.
    BindActor,
    /// Remove an actor's binding from a provider.
    RemoveActor,
    /// Perform an outbound HTTP request.
    PerformHttpRequest,
    /// Handle an inbound HTTP request.
    HandleHttpRequest,
}

impl Operation {
    /// The wire name of this operation.
    pub open spec fn name_spec(self) -> Seq<char> {
        match self {
            Operation::GetCapabilityDescriptor => "GetCapabilityDescriptor"@,
            Operation::CreateContainer => "CreateContainer"@,
            Operation::RemoveContainer => "RemoveContainer"@,
            Operation::RemoveObject => "RemoveObject"@,
            Operation::ListObjects => "ListObjects"@,
            Operation::UploadChunk => "UploadChunk"@,
            Operation::StartDownload => "StartDownload"@,
            Operation::StartUpload => "StartUpload"@,
            Operation::ReceiveChunk => "ReceiveChunk"@,
            Operation::GetObjectInfo => "GetObjectInfo"@,
            Operation::Publish => "Publish"@,
            Operation::DeliverMessage => "DeliverMessage"@,
            Operation::Request => "Request"@,
            Operation::WriteLog => "WriteLog"@,
            Operation::DeliverEvent => "DeliverEvent"@,
            Operation::WriteEvent => "WriteEvent"@,
            Operation::QueryStream => "QueryStream"@,
            Operation::RequestGuid => "RequestGuid"@,
            Operation::RequestSequence => "RequestSequence"@,
            Operation::RequestRandom => "RequestRandom"@,
            Operation::PerformLiveUpdate => "PerformLiveUpdate"@,
            Operation::IdentifyCapability => "IdentifyCapability"@,
            Operation::HealthRequest => "HealthRequest"@,
            Operation::Initialize => "Initialize"@,
            Operation::BindActor => "BindActor"@,
            Operation::RemoveActor => "RemoveActor"@,
            Operation::PerformHttpRequest => "PerformRequest"@,
            Operation::HandleHttpRequest => "HandleRequest"@,
        }
    }

    /// The wire name of this operation, as a string slice.
    pub fn name(&self) -> (s: &'static str)
        ensures
            s@ == self.name_spec(),
    {
        match self {
            Operation::GetCapabilityDescriptor => "GetCapabilityDescriptor",
            Operation::CreateContainer => "CreateContainer",
            Operation::RemoveContainer => "RemoveContainer",
            Operation::RemoveObject => "RemoveObject",
            Operation::ListObjects => "ListObjects",
            Operation::UploadChunk => "UploadChunk",
            Operation::StartDownload => "StartDownload",
            Operation::StartUpload => "StartUpload",
            Operation::ReceiveChunk => "ReceiveChunk",
            Operation::GetObjectInfo => "GetObjectInfo",
            Operation::Publish => "Publish",
            Operation::DeliverMessage => "DeliverMessage",
            Operation::Request => "Request",
            Operation::WriteLog => "WriteLog",
            Operation::DeliverEvent => "DeliverEvent",
            Operation::WriteEvent => "WriteEvent",
            Operation::QueryStream => "QueryStream",
            Operation::RequestGuid => "RequestGuid",
            Operation::RequestSequence => "RequestSequence",
            Operation::RequestRandom => "RequestRandom",
            Operation::PerformLiveUpdate => "PerformLiveUpdate",
            Operation::IdentifyCapability => "IdentifyCapability",
            Operation::HealthRequest => "HealthRequest",
            Operation::Initialize => "Initialize",
            Operation::BindActor => "BindActor",
            Operation::RemoveActor => "RemoveActor",
            Operation::PerformHttpRequest => "PerformRequest",
            Operation::HandleHttpRequest => "HandleRequest",
        }
    }
}

/// One reserved key of a binding configuration, under which the host delivers
/// an actor identity claim to a provider.
#[derive(Clone, Copy, Debug, PartialEq, Eq, Structural)]
pub enum ClaimsKey {
    /// The issuer of the actor's identity claims.
    Issuer,
    /// The capabilities the actor declares.
    Capabilities,
    /// The actor's display name.
    Name,
    /// When the actor's claims expire.
    Expires,
    /// Free-form tags attached to the actor.
    Tags,
}

impl ClaimsKey {
    /// The reserved map key under which this claim travels.
    pub open spec fn key_spec(self) -> Seq<char> {
        match self {
            ClaimsKey::Issuer => "__wascc_issuer"@,
            ClaimsKey::Capabilities => "__wascc_capabilities"@,
            ClaimsKey::Name => "__wascc_name"@,
            ClaimsKey::Expires => "__wascc_expires"@,
            ClaimsKey::Tags => "__wascc_tags"@,
        }
    }

    /// The reserved map key under which this claim travels.
    pub fn key(&self) -> (s: &'static str)
        ensures
            s@ == self.key_spec(),
    {
        match self {
            ClaimsKey::Issuer => "__wascc_issuer",
            ClaimsKey::Capabilities => "__wascc_capabilities",
            ClaimsKey::Name => "__wascc_name",
            ClaimsKey::Expires => "__wascc_expires",
            ClaimsKey::Tags => "__wascc_tags",
        }
    }
}

} // verus!
