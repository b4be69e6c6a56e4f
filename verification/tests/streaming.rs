use binwire::de::{BufferSource, ChannelSource, Deserializer};
use binwire::ser::{BufferSink, ChannelSink, SerializationSink, Serializer};
use binwire::value::{Shape, Value};

fn numbers(n: u64) -> Value {
    let mut elems = Vec::new();
    let mut i: u64 = 0;
    while i < n {
        elems.push(Value::U64(i.wrapping_mul(0x9e37_79b9_7f4a_7c15)));
        i += 1;
    }
    Value::Sequence(elems)
}

#[test]
fn length_hint_invariance() {
    let elems = vec![Value::I32(1), Value::I32(-2), Value::I32(300)];

    let mut with_hint = Serializer::new(BufferSink::new());
    with_hint.encode_sequence(&elems, true).unwrap();
    let known = with_hint.into_sink().into_buffer();

    let mut without_hint = Serializer::new(BufferSink::new());
    without_hint.encode_sequence(&elems, false).unwrap();
    let unknown = without_hint.into_sink().into_buffer();

    assert_eq!(known, unknown);
    assert_eq!(&known[..8], &[3, 0, 0, 0, 0, 0, 0, 0]);
}

#[test]
fn nested_unknown_length_via_streaming_sink() {
    // The outermost sequence's length is not announced up front, so the
    // streaming sink buffers until it ends, then flushes length-first.
    let inner = vec![
        Value::Sequence(vec![Value::I32(1), Value::I32(2), Value::I32(3)]),
        Value::Sequence(vec![Value::I32(-2), Value::I32(0x0003_f1f2)]),
        Value::Sequence(vec![]),
    ];

    let (tx, mut rx) = tokio::sync::mpsc::channel::<u8>(4096);
    let mut streaming = Serializer::new(ChannelSink::new(tx));
    streaming.encode_sequence(&inner, false).unwrap();
    let mut streamed = Vec::new();
    while let Ok(byte) = rx.try_recv() {
        streamed.push(byte);
    }

    let whole = Value::Sequence(inner);
    let buffered = binwire::serialize_into_buffer(&whole).unwrap();
    assert_eq!(streamed, buffered);
    assert_eq!(&streamed[..8], &[3, 0, 0, 0, 0, 0, 0, 0]);
}

#[test]
fn streaming_sink_matches_buffer_sink() {
    let value = numbers(50);
    let (tx, mut rx) = tokio::sync::mpsc::channel::<u8>(8192);
    let mut streaming = Serializer::new(ChannelSink::new(tx));
    streaming.encode_value(&value).unwrap();
    let mut streamed = Vec::new();
    while let Ok(byte) = rx.try_recv() {
        streamed.push(byte);
    }
    let buffered = binwire::serialize_into_buffer(&value).unwrap();
    assert_eq!(streamed, buffered);
}

#[test]
fn backpressure_round_trip() {
    // A queue depth of one: the encoder can only make progress while the
    // consumer drains, so the whole traversal rides on backpressure.
    let value = numbers(2000);
    let bytes = binwire::serialize_into_buffer(&value).unwrap();

    let runtime = tokio::runtime::Builder::new_current_thread().build().unwrap();
    let streamed = runtime.block_on(async {
        let (tx, mut rx) = tokio::sync::mpsc::channel::<u8>(1);
        let encode_value = numbers(2000);
        let worker = tokio::task::spawn_blocking(move || {
            let mut streaming = Serializer::new(ChannelSink::new(tx));
            streaming.encode_value(&encode_value)
        });
        let mut collected = Vec::new();
        while let Some(byte) = rx.recv().await {
            collected.push(byte);
        }
        worker.await.unwrap().unwrap();
        collected
    });
    assert_eq!(streamed, bytes);

    let decoded =
        binwire::deserialize_buffer(&streamed, &Shape::Sequence(Box::new(Shape::U64)))
            .unwrap();
    assert_eq!(decoded, value);
}

#[test]
fn streaming_source_round_trip() {
    // The decoder pulls over a depth-one request/response queue pair while
    // an async backend feeds it slices of the encoded bytes.
    let value = numbers(200);
    let bytes = binwire::serialize_into_buffer(&value).unwrap();

    let runtime = tokio::runtime::Builder::new_current_thread().build().unwrap();
    let decoded = runtime.block_on(async {
        let (req_tx, mut req_rx) = tokio::sync::mpsc::channel::<usize>(1);
        let (resp_tx, resp_rx) = tokio::sync::mpsc::channel::<Vec<u8>>(1);
        let worker = tokio::task::spawn_blocking(move || {
            let mut reader = Deserializer::new(ChannelSource::new(req_tx, resp_rx));
            reader.decode_value(&Shape::Sequence(Box::new(Shape::U64)))
        });
        let feed = bytes.clone();
        let mut cursor = 0usize;
        while let Some(count) = req_rx.recv().await {
            let chunk = feed[cursor..cursor + count].to_vec();
            cursor += count;
            if resp_tx.send(chunk).await.is_err() {
                break;
            }
        }
        worker.await.unwrap().unwrap()
    });
    assert_eq!(decoded, value);
}

#[test]
fn streaming_sink_disconnected() {
    let (tx, rx) = tokio::sync::mpsc::channel::<u8>(16);
    drop(rx);
    let mut streaming = Serializer::new(ChannelSink::new(tx));
    let err = streaming.encode_value(&Value::U32(7)).unwrap_err();
    assert!(matches!(err, binwire::ser::Error::Disconnected));
}

#[test]
fn streaming_source_disconnected() {
    let (req_tx, req_rx) = tokio::sync::mpsc::channel::<usize>(1);
    let (_resp_tx, resp_rx) = tokio::sync::mpsc::channel::<Vec<u8>>(1);
    drop(req_rx);
    let mut reader = Deserializer::new(ChannelSource::new(req_tx, resp_rx));
    let err = reader.decode_value(&Shape::U8).unwrap_err();
    assert!(matches!(err, binwire::de::Error::PrematureEof));
}

#[test]
fn buffer_sink_patches_nested_pending_lengths() {
    let mut sink = BufferSink::new();
    sink.start_var_sized(None).unwrap();
    sink.advance_var_sized().unwrap();
    sink.start_var_sized(None).unwrap();
    sink.advance_var_sized().unwrap();
    sink.send_raw_data(&[0xaa]).unwrap();
    sink.advance_var_sized().unwrap();
    sink.send_raw_data(&[0xbb]).unwrap();
    sink.end_var_sized().unwrap();
    sink.end_var_sized().unwrap();
    let out = sink.into_buffer();
    let mut expected = vec![1, 0, 0, 0, 0, 0, 0, 0];
    expected.extend_from_slice(&[2, 0, 0, 0, 0, 0, 0, 0]);
    expected.extend_from_slice(&[0xaa, 0xbb]);
    assert_eq!(out, expected);
}

#[test]
fn serialize_on_buffer_overwrites_front() {
    let mut buf = vec![9u8; 6];
    binwire::serialize_on_buffer(&mut buf, &Value::U16(0xe8_72)).unwrap();
    assert_eq!(buf, vec![0x72, 0xe8, 9, 9, 9, 9]);
}

#[test]
fn platform_size_helpers() {
    let mut writer = Serializer::new(BufferSink::new());
    writer.send_isize(-3).unwrap();
    let out = writer.into_sink().into_buffer();
    assert_eq!(out, vec![0xfd, 0xff, 0xff, 0xff, 0xff, 0xff, 0xff, 0xff]);

    let mut reader = Deserializer::new(BufferSource::new(out));
    assert_eq!(reader.recv_isize().unwrap(), -3);
}
