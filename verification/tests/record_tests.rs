use rscsv::enumerator::{EnumeratorRead, ReadStep};
use rscsv::record::{fill_record, record_fields};
use rscsv::value::{TypeError, Value, WriteError};

#[test]
fn fill_record_copies_string_cells() {
    let mut record = csv::ByteRecord::new();
    record.push_field(b"stale");
    let row = vec![Value::Str(b"a".to_vec()), Value::Str(vec![]), Value::Str(b"c,d".to_vec())];
    assert!(fill_record(&row, &mut record).is_ok());
    assert_eq!(record_fields(&record), vec![b"a".to_vec(), vec![], b"c,d".to_vec()]);
}

#[test]
fn fill_record_stops_at_the_first_non_string() {
    let mut record = csv::ByteRecord::new();
    let row = vec![Value::Str(b"a".to_vec()), Value::Other, Value::Str(b"c".to_vec())];
    assert!(matches!(fill_record(&row, &mut record), Err(WriteError::Type(TypeError::CellNotString))));
    assert_eq!(record_fields(&record), vec![b"a".to_vec()]);
}

#[test]
fn record_fields_of_an_empty_record() {
    assert_eq!(record_fields(&csv::ByteRecord::new()), Vec::<Vec<u8>>::new());
}

#[test]
fn record_fields_of_a_parsed_record() {
    let record = csv::ByteRecord::from(vec!["x", "", "z"]);
    assert_eq!(record_fields(&record), vec![b"x".to_vec(), vec![], b"z".to_vec()]);
}

#[test]
fn short_chunk_fits_in_the_buffer() {
    let mut reader = EnumeratorRead::new();
    let mut buf = [9u8; 5];
    assert_eq!(reader.read_and_store_overflow(&mut buf, b"abc"), 3);
    assert_eq!(&buf, b"abc\x09\x09");
    assert!(matches!(reader.read(&mut buf), ReadStep::NeedChunk));
}

#[test]
fn long_chunk_is_kept_for_the_next_reads() {
    let mut reader = EnumeratorRead::new();
    let mut buf = [0u8; 4];
    assert_eq!(reader.read_from_external(&mut buf, Some(b"abcdefghij")), 4);
    assert_eq!(&buf, b"abcd");
    match reader.read(&mut buf) {
        ReadStep::Done(n) => assert_eq!((n, &buf[..n]), (4, &b"efgh"[..])),
        ReadStep::NeedChunk => panic!("bytes were kept"),
    }
    match reader.read(&mut buf) {
        ReadStep::Done(n) => assert_eq!((n, &buf[..n]), (2, &b"ij"[..])),
        ReadStep::NeedChunk => panic!("bytes were kept"),
    }
    assert!(matches!(reader.read(&mut buf), ReadStep::NeedChunk));
}

#[test]
fn chunk_of_exactly_the_buffer_size_keeps_nothing() {
    let mut reader = EnumeratorRead::new();
    let mut buf = [0u8; 3];
    assert_eq!(reader.read_from_external(&mut buf, Some(b"xyz")), 3);
    assert!(matches!(reader.read(&mut buf), ReadStep::NeedChunk));
}

#[test]
fn missing_chunk_ends_the_stream() {
    let mut reader = EnumeratorRead::new();
    let mut buf = [7u8; 3];
    assert_eq!(reader.read_from_external(&mut buf, None), 0);
    assert_eq!(buf, [7, 7, 7]);
    assert_eq!(reader.read_from_external(&mut buf, Some(b"")), 0);
}

#[test]
fn reads_hand_out_every_byte_once() {
    let chunks: Vec<&[u8]> = vec![b"hello, ", b"wor", b"ld\nsecond line\n"];
    let mut reader = EnumeratorRead::new();
    let mut next = chunks.into_iter();
    let mut out = Vec::new();
    loop {
        let mut buf = [0u8; 4];
        let n = match reader.read(&mut buf) {
            ReadStep::Done(n) => n,
            ReadStep::NeedChunk => reader.read_from_external(&mut buf, next.next()),
        };
        if n == 0 {
            break;
        }
        out.extend_from_slice(&buf[..n]);
    }
    assert_eq!(out, b"hello, world\nsecond line\n".to_vec());
}

#[test]
fn csv_reads_through_the_chunked_stream() {
    struct Chunks { inner: EnumeratorRead, chunks: Vec<Vec<u8>> }
    impl std::io::Read for Chunks {
        fn read(&mut self, buf: &mut [u8]) -> std::io::Result<usize> {
            Ok(match self.inner.read(buf) {
                ReadStep::Done(n) => n,
                ReadStep::NeedChunk => {
                    let next = if self.chunks.is_empty() { None } else { Some(self.chunks.remove(0)) };
                    self.inner.read_from_external(buf, next.as_deref())
                }
            })
        }
    }
    let source = Chunks { inner: EnumeratorRead::new(), chunks: vec![b"a,b\n1,".to_vec(), b"2\n".to_vec()] };
    let mut reader = csv::ReaderBuilder::new().has_headers(false).from_reader(source);
    let mut record = csv::ByteRecord::new();
    let mut rows = Vec::new();
    while reader.read_byte_record(&mut record).unwrap() {
        rows.push(record_fields(&record));
    }
    assert_eq!(rows, vec![vec![b"a".to_vec(), b"b".to_vec()], vec![b"1".to_vec(), b"2".to_vec()]]);
}
