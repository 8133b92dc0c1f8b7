use delayed_hits::RequestEvent;
use delayed_hits::codec::Codec;
use delayed_hits::codec::CodecSize;
use delayed_hits::codec::repeat_read_till_end;
use delayed_hits::codec::repeat_read_with_known_len;
use delayed_hits::codec::repeat_write_till_end;
use delayed_hits::codec::repeat_write_with_known_len;
use delayed_hits::msg::CdnRequestMessage;
use delayed_hits::msg::FixedSizeResponsePayload;
use delayed_hits::msg::Message;
use delayed_hits::msg::OriginResponseMessage;

#[test]
fn test_repeat_read_write() {
    let lst: Vec<RequestEvent<u64>> = (0..100)
        .map(|i| RequestEvent { key: i, timestamp: i })
        .collect();
    let lst2: Vec<u16> = (118..192).map(|i| i as u16).collect();
    let lst3: Vec<Message> = (0..100).map(|i| Message { key: i }).collect();
    let mut buf: Vec<u8> = Vec::new();
    repeat_write_with_known_len(&mut buf, &lst, lst.len());
    lst2.to_bytes(&mut buf);
    let mid = buf.len();
    repeat_write_till_end(&mut buf, &lst3);

    let mut it = repeat_read_with_known_len::<RequestEvent<u64>>(&buf, 0).unwrap();
    let mut lst1_actual: Vec<RequestEvent<u64>> = Vec::new();
    while let Some(r) = it.next() {
        lst1_actual.push(r.unwrap());
    }
    let (lst2_actual, after2) = Vec::<u16>::from_bytes(&buf, 8 + 100 * 16).unwrap();
    assert_eq!(after2, mid);
    let mut it3 = repeat_read_till_end::<Message>(&buf, mid);
    let mut lst3_actual: Vec<Message> = Vec::new();
    while let Some(m) = it3.next() {
        lst3_actual.push(m);
    }

    assert_eq!(lst, lst1_actual);
    assert_eq!(lst2, lst2_actual);
    assert_eq!(lst3, lst3_actual);

    assert_eq!(RequestEvent::<u64>::size_static(), CodecSize::Static(8 + 8));
    assert_eq!(u16::size_static(), CodecSize::Static(2));
    assert_eq!(Message::size_static(), CodecSize::Static(8));
    assert_eq!(Vec::<u64>::size_static(), CodecSize::Dynamic);
    let v4: Vec<u64> = vec![1, 2, 3];
    assert_eq!(v4.size_in_bytes(), 8 + 3 * 8);
}

#[test]
fn codec_size_arithmetic() {
    let a = CodecSize::Static(8);
    let b = CodecSize::Static(4);
    assert_eq!(a.add_const(b), CodecSize::Static(12));
    assert_eq!(a.add_const(CodecSize::Dynamic), CodecSize::Dynamic);
    assert_eq!(a.mul_const(3), CodecSize::Static(24));
    assert_eq!(CodecSize::Dynamic.mul_const(3), CodecSize::Dynamic);
    assert_eq!(CodecSize::Static(12).get_size_or_panic(), 12);
}

#[test]
fn truncated_input_is_rejected() {
    let mut buf: Vec<u8> = Vec::new();
    RequestEvent { key: 1u64, timestamp: 2u64 }.to_bytes(&mut buf);
    RequestEvent { key: 3u64, timestamp: 4u64 }.to_bytes(&mut buf);
    buf.pop();
    assert!(RequestEvent::<u64>::from_bytes(&buf, 16).is_none());
    // the till-end reader ends silently at the truncated final item
    let mut it = repeat_read_till_end::<RequestEvent<u64>>(&buf, 0);
    assert_eq!(it.next(), Some(RequestEvent { key: 1, timestamp: 2 }));
    assert_eq!(it.next(), None);
    assert_eq!(it.next(), None);
}

#[test]
fn wire_frames_round_trip() {
    let mut buf: Vec<u8> = Vec::new();
    CdnRequestMessage::new(77).to_bytes(&mut buf);
    let (m, used) = CdnRequestMessage::from_bytes(&buf, 0).unwrap();
    assert_eq!(m.key, 77);
    assert_eq!(used, 8);

    let payload = FixedSizeResponsePayload::new(vec![1, 2, 3, 4, 5, 6, 7, 8]);
    let resp = OriginResponseMessage::new(9, payload);
    let mut out: Vec<u8> = Vec::new();
    resp.to_bytes(&mut out);
    assert_eq!(out.len(), 16);
    let (back, used) = OriginResponseMessage::from_bytes(&out, 0).unwrap();
    assert_eq!(used, 16);
    assert_eq!(back.key, 9);
    assert_eq!(back.payload.content, vec![1, 2, 3, 4, 5, 6, 7, 8]);
    let z = FixedSizeResponsePayload::<8>::zeroed();
    assert_eq!(z.content, vec![0; 8]);
}
