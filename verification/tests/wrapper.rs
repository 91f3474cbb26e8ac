use std::borrow::Cow;
use std::collections::hash_map::DefaultHasher;
use std::hash::{Hash, Hasher};
use urlencoding::{encode, ChunkWriter, Encoded, Logged, RawBytes, TextBuffer};

const INPUTS: [&str; 6] = ["", "all-safe_text.~", " !\"#$%&'", "mixed text/with?bits", "\u{4f60}", "%"];

#[test]
fn rendered_string_equals_encode() {
    for input in INPUTS {
        assert_eq!(Encoded::new(input).to_string(), encode(input));
        assert_eq!(Encoded(input).to_str(), encode(input));
    }
}

struct Bytes(Vec<u8>);

impl ChunkWriter for Bytes {
    type Error = ();

    fn write_chunk(&mut self, chunk: &str) -> Result<(), ()> {
        self.0.extend_from_slice(chunk.as_bytes());
        Ok(())
    }
}

#[test]
fn written_text_equals_encode() {
    for input in INPUTS {
        let mut text = TextBuffer::new();
        Encoded::new(input).write(&mut text).unwrap();
        assert_eq!(text.into_string(), encode(input));
        let mut bytes = Logged::new(Bytes(Vec::new()));
        Encoded::new(input).write(&mut bytes).unwrap();
        assert_eq!(bytes.into_inner().0, encode(input).into_bytes());
    }
}

#[test]
fn write_of_safe_text_writes_it() {
    let mut text = TextBuffer::new();
    Encoded("abc").write(&mut text).unwrap();
    assert_eq!(text.into_string(), "abc");
}

#[test]
fn write_of_nothing_writes_nothing() {
    let mut text = TextBuffer::with_capacity(8);
    Encoded("kept").write(&mut text).unwrap();
    Encoded("").write(&mut text).unwrap();
    assert_eq!(text.into_string(), "kept");
}

#[test]
fn buffer_takes_one_value_after_another() {
    let mut text = TextBuffer::with_capacity(0);
    Encoded("a b").write(&mut text).unwrap();
    Encoded("=").write(&mut text).unwrap();
    Encoded("c").write(&mut text).unwrap();
    assert_eq!(text.into_string(), "a%20b%3Dc");
    assert_eq!(TextBuffer::new().into_string(), "");
}

struct Refusing {
    accept: usize,
    calls: usize,
}

impl ChunkWriter for Refusing {
    type Error = String;

    fn write_chunk(&mut self, chunk: &str) -> Result<(), String> {
        self.calls += 1;
        if self.calls > self.accept {
            return Err(format!("refused {}", chunk));
        }
        Ok(())
    }
}

#[test]
fn write_stops_at_the_first_refusal_and_hands_its_error_on() {
    // the chunks of "a b c" are a, %20, b, %20, c
    for accept in 0..5 {
        let mut sink = Logged::new(Refusing { accept, calls: 0 });
        let refused = ["a", "%20", "b", "%20", "c"][accept];
        assert_eq!(Encoded("a b c").write(&mut sink), Err(format!("refused {}", refused)));
        assert_eq!(sink.into_inner().calls, accept + 1);
    }
    let mut sink = Logged::new(Refusing { accept: 5, calls: 0 });
    assert_eq!(Encoded("a b c").write(&mut sink), Ok(()));
    assert_eq!(sink.into_inner().calls, 5);
}

#[test]
fn write_of_nothing_succeeds_on_a_sink_that_refuses_all() {
    let mut sink = Logged::new(Refusing { accept: 0, calls: 0 });
    assert_eq!(Encoded("").write(&mut sink), Ok(()));
    assert_eq!(sink.into_inner().calls, 0);
}

struct Chunks(Vec<String>);

impl ChunkWriter for Chunks {
    type Error = ();

    fn write_chunk(&mut self, chunk: &str) -> Result<(), ()> {
        self.0.push(String::from(chunk));
        Ok(())
    }
}

#[test]
fn write_hands_over_runs_and_escapes_as_chunks() {
    let mut sink = Logged::new(Chunks(Vec::new()));
    Encoded("ab c\u{e9}-d").write(&mut sink).unwrap();
    assert_eq!(sink.into_inner().0, vec!["ab", "%20", "c", "%C3", "%A9", "-d"]);
    let mut safe = Logged::new(Chunks(Vec::new()));
    Encoded("abc").write(&mut safe).unwrap();
    assert_eq!(safe.into_inner().0, vec!["abc"]);
    let mut empty = Logged::new(Chunks(Vec::new()));
    Encoded("").write(&mut empty).unwrap();
    assert!(empty.into_inner().0.is_empty());
}

struct Narrow {
    room: usize,
    text: String,
}

impl ChunkWriter for Narrow {
    type Error = usize;

    fn write_chunk(&mut self, chunk: &str) -> Result<(), usize> {
        if chunk.len() > self.room {
            return Err(self.room);
        }
        self.room -= chunk.len();
        self.text.push_str(chunk);
        Ok(())
    }
}

#[test]
fn write_passes_a_sink_failure_on() {
    let mut sink = Logged::new(Narrow { room: 4, text: String::new() });
    assert_eq!(Encoded::new("ab cd").write(&mut sink), Err(2));
    assert_eq!(sink.into_inner().text, "ab");
    let mut wide = Logged::new(Narrow { room: 16, text: String::new() });
    assert_eq!(Encoded::new("ab cd").write(&mut wide), Ok(()));
    assert_eq!(wide.into_inner().text, "ab%20cd");
    let mut first = Logged::new(Narrow { room: 1, text: String::new() });
    assert_eq!(Encoded::new("abc").write(&mut first), Err(1));
}

#[test]
fn to_str_borrows_safe_text() {
    let wrapped = Encoded::new("safe");
    assert!(matches!(wrapped.to_str(), Cow::Borrowed("safe")));
    let escaped = Encoded::new("not safe");
    assert!(matches!(escaped.to_str(), Cow::Owned(_)));
    assert_eq!(escaped.to_str(), "not%20safe");
}

#[test]
fn wraps_text_and_bytes_owned_and_borrowed() {
    let bytes: &[u8] = b"a b";
    assert_eq!(Encoded::new("a b").to_string(), "a%20b");
    assert_eq!(Encoded::new(String::from("a b")).to_string(), "a%20b");
    assert_eq!(Encoded::new(bytes).to_string(), "a%20b");
    assert_eq!(Encoded::new(bytes.to_vec()).to_string(), "a%20b");
    assert_eq!(Encoded::new(&String::from("a b")).to_string(), "a%20b");
    assert_eq!(Encoded::new(&bytes.to_vec()).to_string(), "a%20b");
    assert_eq!(Encoded(&[0xffu8, b'a'][..]).to_string(), "%FFa");
}

#[test]
fn wraps_byte_arrays() {
    assert_eq!(Encoded::new(b"abc").to_string(), "abc");
    assert_eq!(Encoded::new(b"a b").to_string(), "a%20b");
    assert_eq!(Encoded::new([0x00u8, 0x7e, 0xff]).to_string(), "%00~%FF");
    assert_eq!(Encoded::new([0u8; 0]).to_string(), "");
    assert_eq!([b'h', b'i'].as_raw_bytes(), b"hi");
}

#[test]
fn raw_bytes_are_the_bytes_of_the_value() {
    let bytes: &[u8] = &[1, 2, 3];
    assert_eq!("h\u{e9}".as_raw_bytes(), &[b'h', 0xc3, 0xa9]);
    assert_eq!(String::from("ab").as_raw_bytes(), b"ab");
    assert_eq!(bytes.as_raw_bytes(), &[1, 2, 3]);
    assert_eq!(vec![9u8, 8].as_raw_bytes(), &[9, 8]);
}

#[test]
fn new_keeps_the_value() {
    assert_eq!(Encoded::new("x y").0, "x y");
    assert_eq!(Encoded::new("x y"), Encoded("x y"));
}

fn hash_of<T: Hash>(value: &T) -> u64 {
    let mut hasher = DefaultHasher::new();
    value.hash(&mut hasher);
    hasher.finish()
}

#[test]
fn equality_is_that_of_the_raw_value() {
    assert_eq!(Encoded("a b"), Encoded("a b"));
    assert_ne!(Encoded("a b"), Encoded("a%20b"));
    assert_ne!(Encoded("A"), Encoded("a"));
    assert_eq!(Encoded(String::from("x")), Encoded(String::from("x")));
    assert_eq!(Encoded(&b"\xff"[..]), Encoded(&[0xffu8][..]));
}

#[test]
fn order_is_that_of_the_raw_value() {
    // the raw values order one way, their encoded forms the other way
    assert!("\u{7f}" > "a");
    assert!(encode("\u{7f}") < encode("a"));
    assert!(Encoded("\u{7f}") > Encoded("a"));
    assert!(Encoded("a") < Encoded("b"));
    assert_eq!(Encoded("a").cmp(&Encoded("a")), std::cmp::Ordering::Equal);
    assert_eq!(Encoded("a").partial_cmp(&Encoded("ab")), Some(std::cmp::Ordering::Less));
}

#[test]
fn hash_is_that_of_the_raw_value() {
    assert_eq!(hash_of(&Encoded("a b")), hash_of(&Encoded("a b")));
    assert_eq!(hash_of(&Encoded("a b")), hash_of(&"a b"));
    assert_ne!(hash_of(&Encoded("a b")), hash_of(&Encoded("a%20b")));
}

#[test]
fn wrapper_is_copied_with_its_value() {
    let first = Encoded("a b");
    let second = first;
    assert_eq!(first, second);
    assert_eq!(first.clone().to_string(), "a%20b");
    assert_eq!(format!("{:?}", first), "Encoded(\"a b\")");
}
