use std::collections::HashMap;

use wascc_codec::blobstore::{ContainerList, FileChunk};
use wascc_codec::capabilities::{Dispatcher, NullDispatcher};
use wascc_codec::common::{BindingRegistry, CapabilityConfiguration};
use wascc_codec::error::CodecError;
use wascc_codec::eventstreams::StreamQuery;
use wascc_codec::extras::GeneratorResult;
use wascc_codec::http::{Request, Response};
use wascc_codec::logging::{actor_log_flag, WriteLogRequest};
use wascc_codec::messaging::RequestMessage;
use wascc_codec::registry::{ClaimsKey, Operation};
use wascc_codec::{system_actor, Sample};

#[test]
fn null_dispatcher_always_fails() {
    let d = NullDispatcher::new();
    let r = d.dispatch("actor", "Publish", b"payload");
    assert_eq!(r, Err(CodecError::BadDispatch));
    let r2 = NullDispatcher::default().dispatch("", "", &[]);
    assert_eq!(r2, Err(CodecError::BadDispatch));
}

#[test]
fn operation_names_are_stable() {
    assert_eq!(Operation::GetCapabilityDescriptor.name(), "GetCapabilityDescriptor");
    assert_eq!(Operation::CreateContainer.name(), "CreateContainer");
    assert_eq!(Operation::RemoveContainer.name(), "RemoveContainer");
    assert_eq!(Operation::RemoveObject.name(), "RemoveObject");
    assert_eq!(Operation::ListObjects.name(), "ListObjects");
    assert_eq!(Operation::UploadChunk.name(), "UploadChunk");
    assert_eq!(Operation::StartDownload.name(), "StartDownload");
    assert_eq!(Operation::StartUpload.name(), "StartUpload");
    assert_eq!(Operation::ReceiveChunk.name(), "ReceiveChunk");
    assert_eq!(Operation::GetObjectInfo.name(), "GetObjectInfo");
    assert_eq!(Operation::Publish.name(), "Publish");
    assert_eq!(Operation::DeliverMessage.name(), "DeliverMessage");
    assert_eq!(Operation::Request.name(), "Request");
    assert_eq!(Operation::WriteLog.name(), "WriteLog");
    assert_eq!(Operation::DeliverEvent.name(), "DeliverEvent");
    assert_eq!(Operation::WriteEvent.name(), "WriteEvent");
    assert_eq!(Operation::QueryStream.name(), "QueryStream");
    assert_eq!(Operation::RequestGuid.name(), "RequestGuid");
    assert_eq!(Operation::RequestSequence.name(), "RequestSequence");
    assert_eq!(Operation::RequestRandom.name(), "RequestRandom");
    assert_eq!(Operation::PerformLiveUpdate.name(), "PerformLiveUpdate");
    assert_eq!(Operation::IdentifyCapability.name(), "IdentifyCapability");
    assert_eq!(Operation::HealthRequest.name(), "HealthRequest");
    assert_eq!(Operation::Initialize.name(), "Initialize");
    assert_eq!(Operation::BindActor.name(), "BindActor");
    assert_eq!(Operation::RemoveActor.name(), "RemoveActor");
    assert_eq!(Operation::PerformHttpRequest.name(), "PerformRequest");
    assert_eq!(Operation::HandleHttpRequest.name(), "HandleRequest");
}

#[test]
fn claims_keys_are_stable() {
    assert_eq!(ClaimsKey::Issuer.key(), "__wascc_issuer");
    assert_eq!(ClaimsKey::Capabilities.key(), "__wascc_capabilities");
    assert_eq!(ClaimsKey::Name.key(), "__wascc_name");
    assert_eq!(ClaimsKey::Expires.key(), "__wascc_expires");
    assert_eq!(ClaimsKey::Tags.key(), "__wascc_tags");
    assert_eq!(system_actor(), "system");
    assert_eq!(actor_log_flag(), "[ActorLog]");
}

#[test]
fn error_kinds_describe_themselves() {
    assert_eq!(CodecError::MalformedPayload.describe(), "malformed payload");
    assert_eq!(CodecError::UnknownOperation.describe(), "unknown operation");
    assert_eq!(CodecError::OutOfSequence.describe(), "chunk out of sequence");
    assert_eq!(CodecError::SizeMismatch.describe(), "transfer size mismatch");
    assert_eq!(CodecError::BadDispatch.describe(), "dispatch before configuration");
    assert_eq!(CodecError::OperationRejected.describe(), "operation rejected");
    assert_eq!(CodecError::Timeout.describe(), "request timed out");
    assert_eq!(CodecError::DownstreamFailure.describe(), "downstream failure");
}

fn config(module: &str, key: &str, value: &str) -> CapabilityConfiguration {
    let mut values = HashMap::new();
    values.insert(key.to_string(), value.to_string());
    CapabilityConfiguration { module: module.to_string(), values }
}

#[test]
fn binding_registry_replaces_on_rebind() {
    let mut reg = BindingRegistry::new();
    reg.bind(config("MA", "url", "one"));
    reg.bind(config("MB", "url", "two"));
    // Re-binding the same module replaces the configuration outright.
    reg.bind(config("MA", "url", "three"));
    let a = reg.configuration_for("MA").expect("MA is bound");
    assert_eq!(a.values.get("url").map(String::as_str), Some("three"));
    let b = reg.configuration_for("MB").expect("MB is bound");
    assert_eq!(b.values.get("url").map(String::as_str), Some("two"));
    reg.remove("MA");
    assert!(reg.configuration_for("MA").is_none());
    assert!(reg.configuration_for("MB").is_some());
    // Removing an unbound module is not an error.
    reg.remove("MA");
}

#[test]
fn sample_values_are_representative() {
    let fc = FileChunk::sample();
    assert_eq!(fc.sequence_no, 5);
    assert_eq!(fc.container, "container");
    assert_eq!(fc.id, "blob");
    assert_eq!(fc.total_bytes, 53400);
    assert_eq!(fc.chunk_size, 1024);
    assert_eq!(fc.chunk_bytes, vec![1, 2, 3, 4, 5]);

    let cl = ContainerList::sample();
    assert_eq!(cl.containers.len(), 1);
    assert_eq!(cl.containers[0].id, "container");

    let sq = StreamQuery::sample();
    assert_eq!(sq.stream_id, "stream1");
    assert_eq!(sq.count, 42);
    let range = sq.range.expect("sample has a range");
    assert_eq!(range.min_time, 0);
    assert_eq!(range.max_time, 1000);

    let gr = GeneratorResult::sample();
    assert_eq!(gr.guid.as_deref(), Some("insert_generated_guid_here"));
    assert_eq!(gr.sequence_number, 0);
    assert_eq!(gr.random_number, 0);

    let rq = Request::sample();
    assert_eq!(rq.method, "GET");
    assert_eq!(rq.path, "/foo");
    assert_eq!(rq.query_string, "a=1&b=2");
    assert_eq!(rq.header.get("accept").map(String::as_str), Some("application/json"));
    assert_eq!(rq.body, b"This is the body of a request".to_vec());

    let rs = Response::sample();
    assert_eq!(rs.status_code, 200);
    assert_eq!(rs.status, "OK");
    assert_eq!(rs.body, b"This is the body of a response".to_vec());

    let wl = WriteLogRequest::sample();
    assert_eq!(wl.level, 4);
    assert_eq!(wl.body, "This is a debug message");
    assert_eq!(wl.line, 30);
    assert_eq!(wl.file, "lib.rs");
    assert_eq!(wl.target, "wascc_codec");

    let rm = RequestMessage::sample();
    assert_eq!(rm.subject, "user.profile.175");
    assert_eq!(rm.body, b"raw query bytes".to_vec());
    assert_eq!(rm.timeout_ms, 100);
}

#[test]
fn response_shortcuts_set_status() {
    let ok = Response::ok();
    assert_eq!(ok.status_code, 200);
    assert_eq!(ok.status, "OK");
    assert!(ok.body.is_empty());

    let nf = Response::not_found();
    assert_eq!(nf.status_code, 404);
    assert_eq!(nf.status, "Not Found");

    let br = Response::bad_request();
    assert_eq!(br.status_code, 400);
    assert_eq!(br.status, "Bad Request");

    let ise = Response::internal_server_error("boom");
    assert_eq!(ise.status_code, 500);
    assert_eq!(ise.status, "Internal Server Error");
    assert_eq!(ise.body, b"boom".to_vec());

    let d = Response::default();
    assert_eq!(d.status_code, 0);
    assert_eq!(d.status, "");
    assert!(d.body.is_empty());
}
