//! Structs encoded field by field, in declaration order: each struct's
//! codec is what the derive macros of the conduit crates generate, the
//! primitive `Encode` / `Decode` impls called field after field, with an
//! upfront check against the sum of the fields' `MIN_SIZE`.

use conduit_core::{Decode, Encode};

// ---------------------------------------------------------------------------
// Test structs and their field-by-field codecs
// ---------------------------------------------------------------------------

#[derive(Debug, PartialEq)]
struct SimplePrimitives {
    a: u8,
    b: u32,
    c: i64,
    d: f64,
    e: bool,
}

impl SimplePrimitives {
    fn encode(&self, buf: &mut Vec<u8>) {
        self.a.encode(buf);
        self.b.encode(buf);
        self.c.encode(buf);
        self.d.to_bits().encode(buf);
        self.e.encode(buf);
    }

    fn encode_size(&self) -> usize {
        self.a.encode_size()
            + self.b.encode_size()
            + self.c.encode_size()
            + self.d.to_bits().encode_size()
            + self.e.encode_size()
    }
}

impl SimplePrimitives {
    const MIN_SIZE: usize = 0
        + <u8 as Decode>::MIN_SIZE
        + <u32 as Decode>::MIN_SIZE
        + <i64 as Decode>::MIN_SIZE
        + <u64 as Decode>::MIN_SIZE
        + <bool as Decode>::MIN_SIZE;

    fn decode(src: &[u8]) -> Option<(Self, usize)> {
        if src.len() < Self::MIN_SIZE {
            return None;
        }
        let mut off = 0usize;
        let (a, n) = u8::decode(&src[off..])?;
        off += n;
        let (b, n) = u32::decode(&src[off..])?;
        off += n;
        let (c, n) = i64::decode(&src[off..])?;
        off += n;
        let (d, n) = u64::decode(&src[off..])?;
        off += n;
        let (e, n) = bool::decode(&src[off..])?;
        off += n;
        Some((Self { a, b, c, d: f64::from_bits(d), e }, off))
    }
}

#[derive(Debug, PartialEq)]
struct VarLength {
    payload: Vec<u8>,
    label: String,
}

impl VarLength {
    fn encode(&self, buf: &mut Vec<u8>) {
        self.payload.encode(buf);
        self.label.encode(buf);
    }

    fn encode_size(&self) -> usize {
        self.payload.encode_size() + self.label.encode_size()
    }
}

impl VarLength {
    const MIN_SIZE: usize = 0 + <Vec<u8> as Decode>::MIN_SIZE + <String as Decode>::MIN_SIZE;

    fn decode(src: &[u8]) -> Option<(Self, usize)> {
        if src.len() < Self::MIN_SIZE {
            return None;
        }
        let mut off = 0usize;
        let (payload, n) = Vec::<u8>::decode(&src[off..])?;
        off += n;
        let (label, n) = String::decode(&src[off..])?;
        off += n;
        Some((Self { payload, label }, off))
    }
}

#[derive(Debug, PartialEq)]
struct Empty {}

impl Empty {
    fn encode(&self, _buf: &mut Vec<u8>) {}

    fn encode_size(&self) -> usize {
        0
    }
}

impl Empty {
    const MIN_SIZE: usize = 0;

    fn decode(src: &[u8]) -> Option<(Self, usize)> {
        if src.len() < Self::MIN_SIZE {
            return None;
        }
        Some((Self {}, 0))
    }
}

#[derive(Debug, PartialEq)]
struct SingleField {
    value: u32,
}

impl SingleField {
    fn encode(&self, buf: &mut Vec<u8>) {
        self.value.encode(buf);
    }

    fn encode_size(&self) -> usize {
        self.value.encode_size()
    }
}

impl SingleField {
    const MIN_SIZE: usize = 0 + <u32 as Decode>::MIN_SIZE;

    fn decode(src: &[u8]) -> Option<(Self, usize)> {
        if src.len() < Self::MIN_SIZE {
            return None;
        }
        let (value, n) = u32::decode(src)?;
        Some((Self { value }, n))
    }
}

#[derive(Debug, PartialEq)]
struct Alpha {
    x: u16,
    y: u16,
}

impl Alpha {
    fn encode(&self, buf: &mut Vec<u8>) {
        self.x.encode(buf);
        self.y.encode(buf);
    }

    fn encode_size(&self) -> usize {
        self.x.encode_size() + self.y.encode_size()
    }
}

impl Alpha {
    const MIN_SIZE: usize = 0 + <u16 as Decode>::MIN_SIZE + <u16 as Decode>::MIN_SIZE;

    fn decode(src: &[u8]) -> Option<(Self, usize)> {
        if src.len() < Self::MIN_SIZE {
            return None;
        }
        let mut off = 0usize;
        let (x, n) = u16::decode(&src[off..])?;
        off += n;
        let (y, n) = u16::decode(&src[off..])?;
        off += n;
        Some((Self { x, y }, off))
    }
}

/// A field named `data` must not be confused with the decoder's input.
#[derive(Debug, PartialEq)]
struct HasDataField {
    data: Vec<u8>,
    tag: u32,
}

impl HasDataField {
    fn encode(&self, buf: &mut Vec<u8>) {
        self.data.encode(buf);
        self.tag.encode(buf);
    }

    fn encode_size(&self) -> usize {
        self.data.encode_size() + self.tag.encode_size()
    }
}

impl HasDataField {
    const MIN_SIZE: usize = 0 + <Vec<u8> as Decode>::MIN_SIZE + <u32 as Decode>::MIN_SIZE;

    fn decode(src: &[u8]) -> Option<(Self, usize)> {
        if src.len() < Self::MIN_SIZE {
            return None;
        }
        let mut off = 0usize;
        let (data, n) = Vec::<u8>::decode(&src[off..])?;
        off += n;
        let (tag, n) = u32::decode(&src[off..])?;
        off += n;
        Some((Self { data, tag }, off))
    }
}

#[derive(Debug, PartialEq)]
struct Beta {
    flag: bool,
    name: String,
}

impl Beta {
    fn encode(&self, buf: &mut Vec<u8>) {
        self.flag.encode(buf);
        self.name.encode(buf);
    }

    fn encode_size(&self) -> usize {
        self.flag.encode_size() + self.name.encode_size()
    }
}

impl Beta {
    const MIN_SIZE: usize = 0 + <bool as Decode>::MIN_SIZE + <String as Decode>::MIN_SIZE;

    fn decode(src: &[u8]) -> Option<(Self, usize)> {
        if src.len() < Self::MIN_SIZE {
            return None;
        }
        let mut off = 0usize;
        let (flag, n) = bool::decode(&src[off..])?;
        off += n;
        let (name, n) = String::decode(&src[off..])?;
        off += n;
        Some((Self { flag, name }, off))
    }
}

/// Fields named like the locals of the generated decoder.
#[derive(Debug, PartialEq)]
struct HasConduitFields {
    __conduit_n: u32,
    other: u32,
}

impl HasConduitFields {
    fn encode(&self, buf: &mut Vec<u8>) {
        self.__conduit_n.encode(buf);
        self.other.encode(buf);
    }

    fn encode_size(&self) -> usize {
        self.__conduit_n.encode_size() + self.other.encode_size()
    }
}

impl HasConduitFields {
    const MIN_SIZE: usize = 0 + <u32 as Decode>::MIN_SIZE + <u32 as Decode>::MIN_SIZE;

    fn decode(src: &[u8]) -> Option<(Self, usize)> {
        if src.len() < Self::MIN_SIZE {
            return None;
        }
        let mut off = 0usize;
        let (__conduit_n, n) = u32::decode(&src[off..])?;
        off += n;
        let (other, n) = u32::decode(&src[off..])?;
        off += n;
        Some((Self { __conduit_n, other }, off))
    }
}

/// Fields named like the locals of an older generated decoder.
#[derive(Debug, PartialEq)]
struct ShadowTest {
    __conduit_buf: u32,
    __conduit_pos: u32,
    __conduit_val: u32,
    __conduit_n: u32,
}

impl ShadowTest {
    fn encode(&self, buf: &mut Vec<u8>) {
        self.__conduit_buf.encode(buf);
        self.__conduit_pos.encode(buf);
        self.__conduit_val.encode(buf);
        self.__conduit_n.encode(buf);
    }

    fn encode_size(&self) -> usize {
        self.__conduit_buf.encode_size()
            + self.__conduit_pos.encode_size()
            + self.__conduit_val.encode_size()
            + self.__conduit_n.encode_size()
    }
}

impl ShadowTest {
    const MIN_SIZE: usize = 0
        + <u32 as Decode>::MIN_SIZE
        + <u32 as Decode>::MIN_SIZE
        + <u32 as Decode>::MIN_SIZE
        + <u32 as Decode>::MIN_SIZE;

    fn decode(src: &[u8]) -> Option<(Self, usize)> {
        if src.len() < Self::MIN_SIZE {
            return None;
        }
        let mut off = 0usize;
        let (__conduit_buf, n) = u32::decode(&src[off..])?;
        off += n;
        let (__conduit_pos, n) = u32::decode(&src[off..])?;
        off += n;
        let (__conduit_val, n) = u32::decode(&src[off..])?;
        off += n;
        let (__conduit_n, n) = u32::decode(&src[off..])?;
        off += n;
        Some((
            Self {
                __conduit_buf,
                __conduit_pos,
                __conduit_val,
                __conduit_n,
            },
            off,
        ))
    }
}

// ---------------------------------------------------------------------------
// Roundtrips
// ---------------------------------------------------------------------------

#[test]
fn simple_struct_roundtrip() {
    let original = SimplePrimitives {
        a: 0xFF,
        b: 0xDEAD_BEEF,
        c: -123_456_789_012,
        d: std::f64::consts::E,
        e: true,
    };

    let mut buf = Vec::new();
    original.encode(&mut buf);

    let (decoded, consumed) = SimplePrimitives::decode(&buf).unwrap();
    assert_eq!(decoded, original);
    assert_eq!(consumed, buf.len());
}

#[test]
fn variable_length_fields_roundtrip() {
    let original = VarLength {
        payload: vec![0xCA, 0xFE, 0xBA, 0xBE, 0x00, 0x01],
        label: String::from("conduit-derive integration test"),
    };

    let mut buf = Vec::new();
    original.encode(&mut buf);

    let (decoded, consumed) = VarLength::decode(&buf).unwrap();
    assert_eq!(decoded, original);
    assert_eq!(consumed, buf.len());
}

#[test]
fn variable_length_empty_contents() {
    let original = VarLength {
        payload: vec![],
        label: String::new(),
    };

    let mut buf = Vec::new();
    original.encode(&mut buf);

    // Two 4-byte length prefixes, both zero.
    assert_eq!(buf.len(), 4 + 4);

    let (decoded, consumed) = VarLength::decode(&buf).unwrap();
    assert_eq!(decoded, original);
    assert_eq!(consumed, buf.len());
}

#[test]
fn empty_struct_roundtrip() {
    let original = Empty {};

    let mut buf = Vec::new();
    original.encode(&mut buf);

    assert!(buf.is_empty(), "empty struct should produce zero bytes");
    assert_eq!(original.encode_size(), 0);

    let (decoded, consumed) = Empty::decode(&buf).unwrap();
    assert_eq!(decoded, original);
    assert_eq!(consumed, 0);
}

#[test]
fn single_field_roundtrip() {
    let original = SingleField { value: 42 };

    let mut buf = Vec::new();
    original.encode(&mut buf);

    assert_eq!(buf.len(), 4);

    let (decoded, consumed) = SingleField::decode(&buf).unwrap();
    assert_eq!(decoded, original);
    assert_eq!(consumed, 4);
}

#[test]
fn encode_size_matches_encoded_len_primitives() {
    let s = SimplePrimitives {
        a: 1,
        b: 2,
        c: 3,
        d: 4.0,
        e: false,
    };
    let mut buf = Vec::new();
    s.encode(&mut buf);
    assert_eq!(
        s.encode_size(),
        buf.len(),
        "encode_size() must equal actual encoded length for SimplePrimitives"
    );
    // u8(1) + u32(4) + i64(8) + f64(8) + bool(1) = 22
    assert_eq!(s.encode_size(), 22);
}

#[test]
fn encode_size_matches_encoded_len_variable() {
    let v = VarLength {
        payload: vec![1, 2, 3],
        label: String::from("hello"),
    };
    let mut buf = Vec::new();
    v.encode(&mut buf);
    assert_eq!(
        v.encode_size(),
        buf.len(),
        "encode_size() must equal actual encoded length for VarLength"
    );
    // (4 + 3) + (4 + 5) = 16
    assert_eq!(v.encode_size(), 16);
}

#[test]
fn encode_size_matches_encoded_len_empty() {
    let e = Empty {};
    let mut buf = Vec::new();
    e.encode(&mut buf);
    assert_eq!(e.encode_size(), buf.len());
    assert_eq!(e.encode_size(), 0);
}

#[test]
fn encode_size_matches_encoded_len_single() {
    let s = SingleField { value: 99 };
    let mut buf = Vec::new();
    s.encode(&mut buf);
    assert_eq!(s.encode_size(), buf.len());
    assert_eq!(s.encode_size(), 4);
}

#[test]
fn truncated_buffer_returns_none() {
    let original = SimplePrimitives {
        a: 1,
        b: 2,
        c: 3,
        d: 4.0,
        e: true,
    };
    let mut buf = Vec::new();
    original.encode(&mut buf);

    // Every truncation short of the full buffer fails.
    for cut in 0..buf.len() {
        assert!(
            SimplePrimitives::decode(&buf[..cut]).is_none(),
            "should fail to decode with only {cut}/{} bytes",
            buf.len()
        );
    }
}

#[test]
fn truncated_variable_length_returns_none() {
    let original = VarLength {
        payload: vec![0xAA, 0xBB],
        label: String::from("x"),
    };
    let mut buf = Vec::new();
    original.encode(&mut buf);

    for cut in 0..buf.len() {
        assert!(
            VarLength::decode(&buf[..cut]).is_none(),
            "should fail to decode VarLength with only {cut}/{} bytes",
            buf.len()
        );
    }
}

#[test]
fn multiple_structs_back_to_back() {
    let alpha = Alpha {
        x: 0x1234,
        y: 0x5678,
    };
    let beta = Beta {
        flag: true,
        name: String::from("conduit"),
    };

    // Encode both into a single buffer.
    let mut buf = Vec::new();
    alpha.encode(&mut buf);
    beta.encode(&mut buf);

    // Decode Alpha from the start.
    let (decoded_alpha, alpha_len) = Alpha::decode(&buf).unwrap();
    assert_eq!(decoded_alpha, alpha);

    // Decode Beta from the remaining bytes.
    let (decoded_beta, beta_len) = Beta::decode(&buf[alpha_len..]).unwrap();
    assert_eq!(decoded_beta, beta);

    // The consumed lengths cover the whole buffer.
    assert_eq!(alpha_len + beta_len, buf.len());
}

#[test]
fn multiple_structs_encode_size_sum() {
    let alpha = Alpha { x: 100, y: 200 };
    let beta = Beta {
        flag: false,
        name: String::from("test"),
    };

    let mut buf = Vec::new();
    alpha.encode(&mut buf);
    beta.encode(&mut buf);

    assert_eq!(
        alpha.encode_size() + beta.encode_size(),
        buf.len(),
        "sum of encode_size() must equal combined encoded length"
    );
}

#[test]
fn field_named_data_does_not_shadow() {
    let original = HasDataField {
        data: vec![0xDE, 0xAD],
        tag: 42,
    };
    let mut buf = Vec::new();
    original.encode(&mut buf);

    let (decoded, consumed) = HasDataField::decode(&buf).unwrap();
    assert_eq!(decoded, original);
    assert_eq!(consumed, buf.len());
    // The field after `data` decodes correctly.
    assert_eq!(decoded.tag, 42);
}

#[test]
fn field_named_conduit_n_does_not_shadow() {
    let original = HasConduitFields {
        __conduit_n: 42,
        other: 99,
    };
    let mut buf = Vec::new();
    original.encode(&mut buf);
    let (decoded, consumed) = HasConduitFields::decode(&buf).unwrap();
    assert_eq!(decoded, original);
    assert_eq!(consumed, buf.len());
}

#[test]
fn shadow_test_roundtrip() {
    let original = ShadowTest {
        __conduit_buf: 1,
        __conduit_pos: 2,
        __conduit_val: 3,
        __conduit_n: 4,
    };
    let mut buf = Vec::new();
    original.encode(&mut buf);
    let (decoded, consumed) = ShadowTest::decode(&buf).unwrap();
    assert_eq!(decoded, original);
    assert_eq!(consumed, buf.len());
}

#[test]
fn min_size_derived_structs() {
    // SimplePrimitives: u8(1) + u32(4) + i64(8) + f64(8) + bool(1) = 22
    assert_eq!(SimplePrimitives::MIN_SIZE, 22);

    // VarLength: Vec<u8> prefix(4) + String prefix(4) = 8
    assert_eq!(VarLength::MIN_SIZE, 8);

    // Empty: 0
    assert_eq!(Empty::MIN_SIZE, 0);

    // SingleField: u32(4) = 4
    assert_eq!(SingleField::MIN_SIZE, 4);

    // Alpha: u16(2) + u16(2) = 4
    assert_eq!(Alpha::MIN_SIZE, 4);

    // Beta: bool(1) + String prefix(4) = 5
    assert_eq!(Beta::MIN_SIZE, 5);
}
