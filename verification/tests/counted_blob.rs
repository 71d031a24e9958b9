use binstruct::decoder::{synthesize_decode, DecodeError};
use binstruct::encoder::synthesize_encode;
use binstruct::resolver::resolve;
use binstruct::schema::{FieldDescriptor, FieldKind, StructureDescriptor};
use binstruct::value::Value;
use binstruct::wire::{ByteSink, ByteSource, IntWidth};

fn counted() -> StructureDescriptor {
    StructureDescriptor::new(
        "Counted",
        None,
        vec![
            FieldDescriptor::new("count", FieldKind::Scalar(IntWidth::W8)).length_of("data"),
            FieldDescriptor::new("data", FieldKind::Blob).len("count"),
        ],
    )
}

#[test]
fn counted_blob_encodes_length_then_bytes() {
    let plan = resolve(&counted()).unwrap();
    let program = synthesize_encode(&plan);
    let mut sink = ByteSink::new(64);
    let values = vec![Value::Int(0), Value::Bytes(vec![0xAA, 0xBB, 0xCC])];
    assert_eq!(program.encode(&values, &mut sink), Ok(()));
    assert_eq!(sink.into_bytes(), vec![0x03, 0xAA, 0xBB, 0xCC]);
}

#[test]
fn counted_blob_decodes_count_and_data() {
    let plan = resolve(&counted()).unwrap();
    let program = synthesize_decode(&plan);
    let mut source = ByteSource::new(vec![0x03, 0xAA, 0xBB, 0xCC]);
    let values = program.decode(&mut source).unwrap();
    assert_eq!(values, vec![Value::Int(3), Value::Bytes(vec![0xAA, 0xBB, 0xCC])]);
    assert_eq!(source.remaining(), 0);
}

#[test]
fn counted_blob_cut_short_is_truncated() {
    let plan = resolve(&counted()).unwrap();
    let program = synthesize_decode(&plan);
    let mut source = ByteSource::new(vec![0x03, 0xAA, 0xBB]);
    assert_eq!(program.decode(&mut source), Err(DecodeError::Truncated { field: 1 }));
}
