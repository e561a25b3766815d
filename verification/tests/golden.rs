use logwise_runtime::model::{
    Class, ContextToken, Detail, EventRef, FieldMetadata, FieldRef, Kind, Location, Metadata,
    Privacy, Severity, ValueRef,
};
use logwise_runtime::wire::{
    encode_envelope, EncodeError, Envelope, HostStatus, Identity, Transport, ABI_VERSION,
};

const GOLDEN_HEX: &str = "4c57310001000100c80000002a000000000000000300000000000000090000000000000007000000000000000b000000000000000c000000000000000100150000000000000016000000000000000302000c00676f6c64656e2e6576656e74070066697874757265050067756573740600676f6c64656e0001040063617365010900676f6c64656e2e727311000000040000000300000003000600616374697665000001010500636f756e74010103630000000000000005006c6162656c000005040068c3a96c00";

fn golden_fields() -> [FieldMetadata<'static>; 4] {
    [
        FieldMetadata { name: "active", privacy: Privacy::SupportSafe, detail: Detail::Core },
        FieldMetadata { name: "count", privacy: Privacy::LocalOnly, detail: Detail::Detail },
        FieldMetadata { name: "label", privacy: Privacy::SupportSafe, detail: Detail::Core },
        FieldMetadata { name: "secret", privacy: Privacy::Secret, detail: Detail::Core },
    ]
}

fn golden_metadata<'a>(fields: &'a [FieldMetadata<'a>]) -> Metadata<'a> {
    Metadata {
        event_name: "golden.event",
        package: "fixture",
        target: "guest",
        module: "golden",
        domain: None,
        severity: Severity::Warn,
        class: Class::Forensic,
        kind: Kind::Event,
        location: Some(Location { file: "golden.rs", line: 17, column: 4 }),
        fields,
    }
}

#[test]
fn golden_vector_matches_minimal_embedder() {
    let schema = golden_fields();
    let metadata = golden_metadata(&schema);
    let fields = [
        Some(FieldRef { metadata: schema[0], value: ValueRef::Bool(true) }),
        Some(FieldRef { metadata: schema[1], value: ValueRef::U64(99) }),
        Some(FieldRef { metadata: schema[2], value: ValueRef::Str("héllo") }),
        Some(FieldRef { metadata: schema[3], value: ValueRef::Str("never encode") }),
    ];
    let event = EventRef {
        metadata: &metadata,
        context: ContextToken::from_parts(11, 12),
        fields: &fields,
        message: None,
    };
    let links = [ContextToken::from_parts(21, 22)];
    let envelope = Envelope {
        event,
        sequence: 42,
        dropped_before: 3,
        truncated_before: 9,
        omitted_fields: 2,
        links: &links,
        identity: Identity { worker: 7, test: Some("case") },
    };
    let mut output = [0_u8; 512];
    let mut scratch = [0_u8; 32];
    let encoded = encode_envelope(envelope, 4, &mut output, &mut scratch).unwrap();
    assert_eq!(encoded.truncated_values, 1);

    let hex = encoded.bytes.iter().map(|byte| format!("{byte:02x}")).collect::<String>();
    assert_eq!(hex, GOLDEN_HEX);

    let mut host = MinimalHost::new(encoded.bytes);
    assert_eq!(host.take(4), b"LW1\0");
    assert_eq!(host.u16(), ABI_VERSION);
    assert_eq!(host.u16(), 1, "truncation flag");
    assert_eq!(host.u32() as usize, encoded.bytes.len());
    assert_eq!(host.u64(), 42);
    assert_eq!(host.u64(), 3);
    assert_eq!(host.u64(), 9);
    assert_eq!(host.u64(), 7);
    assert_eq!(host.u64(), 11);
    assert_eq!(host.u64(), 12);
    assert_eq!(host.u16(), 1);
    assert_eq!(host.u64(), 21);
    assert_eq!(host.u64(), 22);
    assert_eq!(host.u8(), Severity::Warn.code());
    assert_eq!(host.u8(), Class::Forensic.code());
    assert_eq!(host.u8(), Kind::Event.code());
    assert_eq!(host.text(), "golden.event");
    assert_eq!(host.text(), "fixture");
    assert_eq!(host.text(), "guest");
    assert_eq!(host.text(), "golden");
    assert_eq!(host.u8(), 0, "no domain");
    assert_eq!(host.u8(), 1, "test identity present");
    assert_eq!(host.text(), "case");
    assert_eq!(host.u8(), 1, "location present");
    assert_eq!(host.text(), "golden.rs");
    assert_eq!(host.u32(), 17);
    assert_eq!(host.u32(), 4);
    assert_eq!(host.u32(), 3, "two declared plus one secret omission");
    assert_eq!(host.u16(), 3);

    assert_eq!(host.text(), "active");
    assert_eq!(host.u8(), Privacy::SupportSafe.code());
    assert_eq!(host.u8(), Detail::Core.code());
    assert_eq!(host.u8(), 1, "bool tag");
    assert_eq!(host.u8(), 1);

    assert_eq!(host.text(), "count");
    assert_eq!(host.u8(), Privacy::LocalOnly.code());
    assert_eq!(host.u8(), Detail::Detail.code());
    assert_eq!(host.u8(), 3, "u64 tag");
    assert_eq!(host.u64(), 99);

    assert_eq!(host.text(), "label");
    assert_eq!(host.u8(), Privacy::SupportSafe.code());
    assert_eq!(host.u8(), Detail::Core.code());
    assert_eq!(host.u8(), 5, "string tag");
    assert_eq!(host.text(), "hél");
    assert_eq!(host.u8(), 0, "no message");
    assert!(host.remaining().is_empty());
}

struct MinimalHost<'a> {
    bytes: &'a [u8],
    position: usize,
}

impl<'a> MinimalHost<'a> {
    fn new(bytes: &'a [u8]) -> Self {
        Self { bytes, position: 0 }
    }

    fn take(&mut self, count: usize) -> &'a [u8] {
        let start = self.position;
        self.position += count;
        &self.bytes[start..self.position]
    }

    fn u8(&mut self) -> u8 {
        self.take(1)[0]
    }

    fn u16(&mut self) -> u16 {
        u16::from_le_bytes(self.take(2).try_into().unwrap())
    }

    fn u32(&mut self) -> u32 {
        u32::from_le_bytes(self.take(4).try_into().unwrap())
    }

    fn u64(&mut self) -> u64 {
        u64::from_le_bytes(self.take(8).try_into().unwrap())
    }

    fn text(&mut self) -> &'a str {
        let length = self.u16() as usize;
        std::str::from_utf8(self.take(length)).unwrap()
    }

    fn remaining(&self) -> &'a [u8] {
        &self.bytes[self.position..]
    }
}

fn plain_metadata<'a>(name: &'a str, fields: &'a [FieldMetadata<'a>]) -> Metadata<'a> {
    Metadata {
        event_name: name,
        package: "p",
        target: "t",
        module: "m",
        domain: None,
        severity: Severity::Info,
        class: Class::Operational,
        kind: Kind::Event,
        location: None,
        fields,
    }
}

fn envelope<'a>(event: EventRef<'a>, links: &'a [ContextToken]) -> Envelope<'a> {
    Envelope {
        event,
        sequence: 1,
        dropped_before: 0,
        truncated_before: 0,
        omitted_fields: 0,
        links,
        identity: Identity::anonymous(),
    }
}

#[test]
fn every_encode_error_has_its_input() {
    let schema: [FieldMetadata; 0] = [];
    let metadata = plain_metadata("e", &schema);
    let event = EventRef { metadata: &metadata, context: ContextToken::none(), fields: &[], message: None };
    let mut scratch = [0_u8; 8];

    let mut tiny = [0_u8; 16];
    assert!(matches!(
        encode_envelope(envelope(event, &[]), 8, &mut tiny, &mut scratch),
        Err(EncodeError::BufferTooSmall)
    ));

    let long_name = "n".repeat(70_000);
    let long = plain_metadata(&long_name, &schema);
    let long_event = EventRef { metadata: &long, context: ContextToken::none(), fields: &[], message: None };
    let mut output = vec![0_u8; 4096];
    assert!(matches!(
        encode_envelope(envelope(long_event, &[]), 8, &mut output, &mut scratch),
        Err(EncodeError::SchemaStringTooLong)
    ));

    let links = vec![ContextToken::from_parts(1, 0); 70_000];
    assert!(matches!(
        encode_envelope(envelope(event, &links), 8, &mut output, &mut scratch),
        Err(EncodeError::TooManyLinks)
    ));

    let one = [FieldMetadata { name: "x", privacy: Privacy::SupportSafe, detail: Detail::Core }];
    let many_meta = plain_metadata("e", &one);
    let many = vec![Some(FieldRef { metadata: one[0], value: ValueRef::Bool(true) }); 70_000];
    let many_event = EventRef { metadata: &many_meta, context: ContextToken::none(), fields: &many, message: None };
    assert!(matches!(
        encode_envelope(envelope(many_event, &[]), 8, &mut output, &mut scratch),
        Err(EncodeError::TooManyFields)
    ));
}

#[test]
fn transport_numbers_frames_and_counts_losses() {
    let schema = [FieldMetadata { name: "label", privacy: Privacy::SupportSafe, detail: Detail::Core }];
    let metadata = plain_metadata("t.event", &schema);
    let fields = [Some(FieldRef { metadata: schema[0], value: ValueRef::Str("abcdef") })];
    let event = EventRef { metadata: &metadata, context: ContextToken::none(), fields: &fields, message: None };
    let mut transport = Transport::new(3);
    let mut output = [0_u8; 256];
    let mut scratch = [0_u8; 16];
    let first = transport.encode(event, &[], Identity::anonymous(), &mut output, &mut scratch).unwrap();
    assert_eq!(first.truncated_values, 1);
    assert_eq!(u64::from_le_bytes(first.bytes[12..20].try_into().unwrap()), 1, "first sequence");
    assert_eq!(transport.truncated(), 1);
    let mut small = [0_u8; 8];
    assert!(transport.encode(event, &[], Identity::anonymous(), &mut small, &mut scratch).is_err());
    assert_eq!(transport.dropped(), 1);
    let status = transport.emit(event, &[], Identity::anonymous(), &mut output, &mut scratch).unwrap();
    assert_eq!(status, HostStatus::Unavailable, "no host import on native targets");
    assert_eq!(transport.dropped(), 2);
    let third = transport.encode(event, &[], Identity::anonymous(), &mut output, &mut scratch).unwrap();
    assert_eq!(u64::from_le_bytes(third.bytes[12..20].try_into().unwrap()), 4);
    assert_eq!(u64::from_le_bytes(third.bytes[20..28].try_into().unwrap()), 2, "drops before this frame");
    assert_eq!(u64::from_le_bytes(third.bytes[28..36].try_into().unwrap()), 2, "truncations before this frame");
}
