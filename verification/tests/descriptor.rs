use wascc_codec::capabilities::{
    CapabilityDescriptor, OperationDescriptor, OperationDirection,
};
use wascc_codec::descriptor_text::{decode_descriptor, descriptor_text_round_trip, encode_descriptor};

#[test]
fn descriptor_certify_desired_json_format() {
    let d = CapabilityDescriptor {
        name: "test".to_string(),
        id: "wascc:testing".to_string(),
        version: "0.0.1".to_string(),
        revision: 1,
        long_description: "this is a test".to_string(),
        supported_operations: vec![OperationDescriptor {
            direction: OperationDirection::ToActor,
            doctext: "this is a test".to_string(),
            name: "OperationDumboDrop".to_string(),
        }],
    };
    let s = encode_descriptor(&d);
    assert_eq!(s, "{\"id\":\"wascc:testing\",\"name\":\"test\",\"version\":\"0.0.1\",\"revision\":1,\"long_description\":\"this is a test\",\"supported_operations\":[{\"name\":\"OperationDumboDrop\",\"direction\":\"to_actor\",\"doctext\":\"this is a test\"}]}".to_string());
}

#[test]
fn descriptor_text_round_trip_plain() {
    let d = CapabilityDescriptor {
        id: "wascc:blobstore".to_string(),
        name: "Blob store".to_string(),
        version: "1.2.3".to_string(),
        revision: 7,
        long_description: "stores blobs".to_string(),
        supported_operations: vec![
            OperationDescriptor {
                name: "CreateContainer".to_string(),
                direction: OperationDirection::ToProvider,
                doctext: "creates a container".to_string(),
            },
            OperationDescriptor {
                name: "ReceiveChunk".to_string(),
                direction: OperationDirection::ToActor,
                doctext: "delivers a chunk".to_string(),
            },
            OperationDescriptor {
                name: "UploadChunk".to_string(),
                direction: OperationDirection::Both,
                doctext: String::new(),
            },
        ],
    };
    let encoded = encode_descriptor(&d);
    let decoded = decode_descriptor(encoded.as_str()).expect("an encoding must decode");
    assert_eq!(decoded, d);
    assert_eq!(descriptor_text_round_trip(&d), d);
}

#[test]
fn descriptor_text_round_trip_with_escapes() {
    let d = CapabilityDescriptor {
        id: "a\"b\\c".to_string(),
        name: "quote \" and backslash \\".to_string(),
        version: String::new(),
        revision: 4294967295,
        long_description: "[]{},:\"\\".to_string(),
        supported_operations: vec![OperationDescriptor {
            name: "Odd\"Name".to_string(),
            direction: OperationDirection::Both,
            doctext: "back\\slash".to_string(),
        }],
    };
    let encoded = encode_descriptor(&d);
    let decoded = decode_descriptor(encoded.as_str()).expect("an encoding must decode");
    assert_eq!(decoded, d);
}

#[test]
fn descriptor_text_round_trip_empty() {
    let d = CapabilityDescriptor::default();
    let encoded = encode_descriptor(&d);
    assert_eq!(
        encoded,
        "{\"id\":\"\",\"name\":\"\",\"version\":\"\",\"revision\":0,\"long_description\":\"\",\"supported_operations\":[]}"
    );
    let decoded = decode_descriptor(encoded.as_str()).expect("an encoding must decode");
    assert_eq!(decoded, d);
}

#[test]
fn decoder_rejects_trailing_garbage() {
    let d = CapabilityDescriptor::default();
    let mut encoded = encode_descriptor(&d);
    encoded.push(' ');
    assert!(decode_descriptor(encoded.as_str()).is_none());
    assert!(decode_descriptor("").is_none());
    assert!(decode_descriptor("{\"id\":\"x\"").is_none());
}

#[test]
fn builder_accumulates_fields() {
    let d = CapabilityDescriptor::builder()
        .id("wascc:messaging")
        .name("Messaging")
        .version("0.9.0")
        .revision(3)
        .long_description("a message broker")
        .with_operation("Publish", OperationDirection::ToProvider, "publishes")
        .with_operation("DeliverMessage", OperationDirection::ToActor, "delivers")
        .build();
    assert_eq!(d.id, "wascc:messaging");
    assert_eq!(d.name, "Messaging");
    assert_eq!(d.version, "0.9.0");
    assert_eq!(d.revision, 3);
    assert_eq!(d.long_description, "a message broker");
    assert_eq!(d.supported_operations.len(), 2);
    assert_eq!(d.supported_operations[0].name, "Publish");
    assert_eq!(d.supported_operations[1].name, "DeliverMessage");
}

#[test]
fn builder_overwrites_duplicate_operation_names() {
    let d = CapabilityDescriptor::builder()
        .id("wascc:testing")
        .with_operation("Op", OperationDirection::ToActor, "first")
        .with_operation("Other", OperationDirection::Both, "kept")
        .with_operation("Op", OperationDirection::ToProvider, "second")
        .build();
    assert_eq!(d.supported_operations.len(), 2);
    assert_eq!(d.supported_operations[0].name, "Op");
    assert_eq!(d.supported_operations[0].direction, OperationDirection::ToProvider);
    assert_eq!(d.supported_operations[0].doctext, "second");
    assert_eq!(d.supported_operations[1].name, "Other");
}

#[test]
fn supports_checks_operation_names() {
    let d = CapabilityDescriptor::builder()
        .id("wascc:blobstore")
        .with_operation("UploadChunk", OperationDirection::ToProvider, "uploads")
        .with_operation("ReceiveChunk", OperationDirection::ToActor, "delivers")
        .build();
    assert!(d.supports("UploadChunk"));
    assert!(d.supports("ReceiveChunk"));
    assert!(!d.supports("Publish"));
    assert!(!d.supports("uploadchunk"));
}

#[test]
fn operation_descriptor_new_copies_fields() {
    let o = OperationDescriptor::new("QueryStream", OperationDirection::ToProvider, "queries");
    assert_eq!(o.name, "QueryStream");
    assert_eq!(o.direction, OperationDirection::ToProvider);
    assert_eq!(o.doctext, "queries");
}
