use fasta::Error;
use fasta::Index;
use fasta::IndexedReader;
use fasta::Reader;
use fasta::Record;
use fasta::Writer;

const FASTA_FILE: &[u8] = b">id desc
ACCGTAGGCTGA
";
const FAI_FILE: &[u8] = b"id\t12\t9\t60\t61
";

fn collect_records(data: &[u8]) -> Vec<Result<Record, Error>> {
    let mut records = Reader::new(data.to_vec()).records();
    let mut out = Vec::new();
    while let Some(item) = records.next() {
        out.push(item);
    }
    out
}

#[test]
fn test_reader() {
    let records = collect_records(FASTA_FILE);
    assert!(records.len() == 1);
    for res in records {
        let record = res.ok().unwrap();
        assert_eq!(record.check(), Ok(()));
        assert_eq!(record.id(), Some(b"id".to_vec()));
        assert_eq!(record.desc(), [b"desc".to_vec()]);
        assert_eq!(record.seq(), b"ACCGTAGGCTGA");
    }
}

#[test]
fn test_indexed_reader() {
    let mut reader =
        IndexedReader::new(FASTA_FILE.to_vec(), FAI_FILE).ok().expect("Error reading index");
    let mut seq = Vec::new();
    reader.read(b"id", 1, 5, &mut seq).ok().expect("Error reading sequence.");
    assert_eq!(seq, b"CCGT");
}

#[test]
fn test_writer() {
    let mut writer = Writer::new();
    writer
        .write(b"id", &vec![b"desc".to_vec()], b"ACCGTAGGCTGA")
        .ok()
        .expect("Expected successful write");
    writer.flush().ok().expect("Expected successful write");
    assert_eq!(&writer.out, &FASTA_FILE);
}

#[test]
fn index_lookup_reports_length() {
    let index = Index::new(b"name\t12\t9\t60\t61\n").unwrap();
    assert_eq!(index.lookup(b"name").unwrap().len, 12);
}

#[test]
fn read_range_with_equal_bounds_is_empty() {
    let mut reader = IndexedReader::new(FASTA_FILE.to_vec(), FAI_FILE).unwrap();
    let mut seq = vec![1u8, 2, 3];
    assert_eq!(reader.read(b"id", 5, 5, &mut seq), Ok(()));
    assert!(seq.is_empty());
}

#[test]
fn read_range_errors() {
    let mut reader = IndexedReader::new(FASTA_FILE.to_vec(), FAI_FILE).unwrap();
    let mut seq = Vec::new();
    assert_eq!(reader.read(b"id", 0, 13, &mut seq), Err(Error::RangeOutOfBounds));
    assert_eq!(reader.read(b"id", 7, 5, &mut seq), Err(Error::RangeOutOfBounds));
    assert_eq!(reader.read(b"nope", 0, 1, &mut seq), Err(Error::UnknownSequence));
    assert_eq!(reader.read_all(b"nope", &mut seq), Err(Error::UnknownSequence));
}

#[test]
fn read_range_across_wrapped_lines() {
    let data = b">id d\nACGTAC\nGTACGT\nACG\n".to_vec();
    let fai = b"id\t15\t6\t6\t7\n";
    let mut reader = IndexedReader::new(data, fai).unwrap();
    let mut seq = Vec::new();
    assert_eq!(reader.read(b"id", 4, 10, &mut seq), Ok(()));
    assert_eq!(seq, b"ACGTAC");
    assert!(!seq.contains(&b'\n'));
    assert_eq!(reader.read_all(b"id", &mut seq), Ok(()));
    assert_eq!(seq, b"ACGTACGTACGTACG");
}

#[test]
fn read_past_end_of_data_is_truncated() {
    let mut reader = IndexedReader::new(FASTA_FILE.to_vec(), b"id\t100\t9\t60\t61\n").unwrap();
    let mut seq = Vec::new();
    assert_eq!(reader.read(b"id", 0, 100, &mut seq), Err(Error::Truncated));
}

#[test]
fn malformed_index_rows_fail_the_build() {
    assert_eq!(Index::new(b"name\t12\t9\t60\n").unwrap_err(), Error::Format);
    assert_eq!(Index::new(b"name\t12x\t9\t60\t61\n").unwrap_err(), Error::Format);
    assert_eq!(Index::new(b"name\t12\t9\t60\t61\t7\n").unwrap_err(), Error::Format);
    assert_eq!(Index::new(b"ok\t12\t9\t60\t61\nbad\t12\t9\n").unwrap_err(), Error::Format);
    assert_eq!(Index::new(b"name\t18446744073709551616\t9\t60\t61\n").unwrap_err(), Error::Format);
}

#[test]
fn degenerate_layout_builds_but_fails_range_reads() {
    let index = Index::new(b"a\t1\t0\t0\t1\n").unwrap();
    let entry = index.lookup(b"a").unwrap();
    assert_eq!(entry.len, 1);
    assert_eq!(entry.offset, 0);
    assert_eq!(entry.line_bases, 0);
    assert_eq!(entry.line_bytes, 1);
    let mut reader = IndexedReader::new(FASTA_FILE.to_vec(), b"id\t12\t9\t0\t61\n").unwrap();
    let mut seq = Vec::new();
    assert_eq!(reader.read(b"id", 1, 5, &mut seq), Err(Error::Format));
    assert_eq!(reader.read_all(b"id", &mut seq), Err(Error::Format));
    assert_eq!(reader.read(b"id", 3, 3, &mut seq), Ok(()));
    assert!(seq.is_empty());
    let mut reader = IndexedReader::new(FASTA_FILE.to_vec(), b"id\t12\t9\t60\t59\n").unwrap();
    assert_eq!(reader.read(b"id", 0, 12, &mut seq), Err(Error::Format));
}

#[test]
fn empty_index_and_empty_stream() {
    let index = Index::new(b"").unwrap();
    assert!(index.lookup(b"x").is_none());
    assert!(index.sequences().is_empty());
    assert!(collect_records(b"").is_empty());
}

#[test]
fn sequence_listing_is_sorted_by_name() {
    let index = Index::new(b"beta\t3\t9\t60\t61\nalpha\t5\t9\t60\t61\n").unwrap();
    let listing = index.sequences();
    assert_eq!(listing.len(), 2);
    assert_eq!(listing[0].name, b"alpha".to_vec());
    assert_eq!(listing[0].len, 5);
    assert_eq!(listing[1].name, b"beta".to_vec());
    assert_eq!(listing[1].len, 3);
}

#[test]
fn later_row_replaces_earlier_row() {
    let index = Index::new(b"x\t3\t9\t60\t61\nx\t8\t20\t60\t61\n").unwrap();
    assert_eq!(index.lookup(b"x").unwrap().len, 8);
    assert_eq!(index.lookup(b"x").unwrap().offset, 20);
    assert_eq!(index.sequences().len(), 1);
}

#[test]
fn two_records_stream() {
    let records = collect_records(b">a x\nAC\nGT\n>b\nTTT\n");
    assert_eq!(records.len(), 2);
    let first = records[0].as_ref().unwrap();
    assert_eq!(first.id(), Some(b"a".to_vec()));
    assert_eq!(first.desc(), [b"x".to_vec()]);
    assert_eq!(first.seq(), b"ACGT");
    let second = records[1].as_ref().unwrap();
    assert_eq!(second.id(), Some(b"b".to_vec()));
    assert!(second.desc().is_empty());
    assert_eq!(second.seq(), b"TTT");
}

#[test]
fn record_without_sequence_lines_is_valid() {
    let records = collect_records(b">a\n>b\nX\n");
    assert_eq!(records.len(), 2);
    assert_eq!(records[0].as_ref().unwrap().id(), Some(b"a".to_vec()));
    assert!(records[0].as_ref().unwrap().seq().is_empty());
    assert_eq!(records[1].as_ref().unwrap().seq(), b"X");
}

#[test]
fn stream_without_header_is_a_format_error() {
    let mut records = Reader::new(b"ACGT\n>a\nT\n".to_vec()).records();
    assert!(matches!(records.next(), Some(Err(Error::Format))));
    assert!(records.next().is_none());
}

#[test]
fn reading_resumes_after_buffered_header() {
    let mut reader = Reader::new(b">a\nAC\n>b\nGT\n".to_vec());
    let mut record = Record::new();
    assert_eq!(reader.read(&mut record), Ok(()));
    assert_eq!(record.id(), Some(b"a".to_vec()));
    assert_eq!(record.seq(), b"AC");
    assert_eq!(reader.read(&mut record), Ok(()));
    assert_eq!(record.id(), Some(b"b".to_vec()));
    assert_eq!(record.seq(), b"GT");
    assert_eq!(reader.read(&mut record), Ok(()));
    assert!(record.is_empty());
}

#[test]
fn write_then_read_round_trip() {
    let mut writer = Writer::new();
    writer.write(b"id1", &vec![b"one".to_vec(), b"two".to_vec()], b"ACGTACGT").unwrap();
    writer.write(b"id2", &vec![], b"").unwrap();
    writer.flush().unwrap();
    assert_eq!(writer.out, b">id1 one two\nACGTACGT\n>id2\n\n".to_vec());
    let records = collect_records(&writer.out);
    assert_eq!(records.len(), 2);
    let first = records[0].as_ref().unwrap();
    assert_eq!(first.id(), Some(b"id1".to_vec()));
    assert_eq!(first.desc(), [b"one".to_vec(), b"two".to_vec()]);
    assert_eq!(first.seq(), b"ACGTACGT");
    let second = records[1].as_ref().unwrap();
    assert_eq!(second.id(), Some(b"id2".to_vec()));
    assert!(second.desc().is_empty());
    assert!(second.seq().is_empty());
}

#[test]
fn write_record_round_trip() {
    let mut records = Reader::new(FASTA_FILE.to_vec()).records();
    let record = records.next().unwrap().unwrap();
    let mut writer = Writer::new();
    writer.write_record(record).unwrap();
    assert_eq!(&writer.out, &FASTA_FILE);
}

#[test]
fn check_rejects_missing_id_and_non_ascii() {
    let records = collect_records(b">\nACGT\n");
    let record = records[0].as_ref().unwrap();
    assert!(record.id().is_none());
    assert_eq!(record.check(), Err(Error::Format));
    let mut bytes = b">ok\n".to_vec();
    bytes.push(0xC3);
    bytes.push(b'\n');
    let records = collect_records(&bytes);
    let record = records[0].as_ref().unwrap();
    assert_eq!(record.check(), Err(Error::Format));
    let records = collect_records(b">ok\nACGT\n");
    assert_eq!(records[0].as_ref().unwrap().check(), Ok(()));
}

#[test]
fn trailing_blank_line_creates_no_record() {
    let records = collect_records(b">a\nACGT\n\n");
    assert_eq!(records.len(), 1);
    assert_eq!(records[0].as_ref().unwrap().seq(), b"ACGT");
}

#[test]
fn empty_record_is_the_end_sentinel() {
    let record = Record::new();
    assert!(record.is_empty());
    assert!(record.id().is_none());
    assert!(record.desc().is_empty());
    assert!(record.seq().is_empty());
}
