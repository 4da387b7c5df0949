use std::io::Cursor;

use pullauta::io::xyz::{check_magic, HeaderFault, encode_records, header_record_count, is_xyz_magic, xyz_magic_bytes, XyzInternalReader, XyzInternalWriter, XyzRecord};

fn sample_record() -> XyzRecord {
    XyzRecord {
        x_bits: 1.0f64.to_bits(),
        y_bits: 2.0f64.to_bits(),
        z_bits: 3.0f32.to_bits(),
        classification: 4,
        number_of_returns: 5,
        return_number: 6,
        padding: 0,
    }
}

#[test]
fn test_writer_reader_many() {
    let cursor = Cursor::new(Vec::new());
    let mut writer = XyzInternalWriter::new(cursor);

    let record = sample_record();

    writer.write_records(&[record]).unwrap();
    writer.write_records(&[record]).unwrap();
    writer.write_records(&[record]).unwrap();

    // now read the records
    let data = writer.finish().unwrap().into_inner();
    let cursor = Cursor::new(data);
    let mut reader = XyzInternalReader::new(cursor).unwrap();
    let chunk = reader.next_chunk().unwrap().unwrap();

    assert_eq!(chunk.len(), 3);
    assert_eq!(chunk[0], record);
    assert_eq!(chunk[1], record);
    assert_eq!(chunk[2], record);
    assert_eq!(reader.next_chunk().unwrap(), None);
}

#[test]
fn file_layout_is_magic_count_records() {
    let mut writer = XyzInternalWriter::new(Cursor::new(Vec::new()));
    let record = sample_record();
    writer.write_records(&[record, record]).unwrap();
    let data = writer.finish().unwrap().into_inner();
    assert_eq!(data.len(), 4 + 8 + 2 * 24);
    assert_eq!(&data[0..4], b"XYZB");
    assert_eq!(&data[4..12], &2u64.to_le_bytes());
    assert_eq!(&data[12..20], &1.0f64.to_le_bytes());
    assert_eq!(&data[20..28], &2.0f64.to_le_bytes());
    assert_eq!(&data[28..32], &3.0f32.to_le_bytes());
    assert_eq!(&data[32..36], &[4, 5, 6, 0]);
}

#[test]
fn encode_records_exact_bytes() {
    let r = XyzRecord {
        x_bits: 0x0102030405060708,
        y_bits: 0x1112131415161718,
        z_bits: 0x21222324,
        classification: 2,
        number_of_returns: 1,
        return_number: 1,
        padding: 9,
    };
    let bytes = encode_records(&[r]);
    assert_eq!(
        bytes,
        vec![
            8, 7, 6, 5, 4, 3, 2, 1, 0x18, 0x17, 0x16, 0x15, 0x14, 0x13, 0x12, 0x11, 0x24, 0x23, 0x22,
            0x21, 2, 1, 1, 9
        ]
    );
    assert!(encode_records(&[]).is_empty());
}

#[test]
fn magic_is_xyzb() {
    assert_eq!(xyz_magic_bytes(), b"XYZB".to_vec());
    assert!(is_xyz_magic(b"XYZB"));
    assert!(!is_xyz_magic(b"XYZA"));
    assert!(!is_xyz_magic(b"XYZ"));
    assert!(!is_xyz_magic(b"XYZBB"));
}

#[test]
fn writing_after_finish_fails() {
    let mut writer = XyzInternalWriter::new(Cursor::new(Vec::new()));
    writer.write_records(&[sample_record()]).unwrap();
    writer.finish().unwrap();
    assert!(writer.write_records(&[sample_record()]).is_err());
    assert!(writer.finish().is_err());
}

#[test]
fn empty_batches_write_nothing() {
    let mut writer = XyzInternalWriter::new(Cursor::new(Vec::new()));
    writer.write_records(&[]).unwrap();
    let data = writer.finish().unwrap().into_inner();
    // only the count, written at offset 4 over nothing
    assert_eq!(data, vec![0, 0, 0, 0, 0, 0, 0, 0, 0, 0, 0, 0]);
    let err = XyzInternalReader::new(Cursor::new(data)).err().unwrap();
    assert_eq!(err.kind(), std::io::ErrorKind::InvalidData);
}

#[test]
fn reader_rejects_bad_magic() {
    let mut data = b"XYZC".to_vec();
    data.extend_from_slice(&0u64.to_le_bytes());
    let err = XyzInternalReader::new(Cursor::new(data)).err().unwrap();
    assert_eq!(err.kind(), std::io::ErrorKind::InvalidData);
}

#[test]
fn reader_reports_short_input() {
    let err = XyzInternalReader::new(Cursor::new(b"XY".to_vec())).err().unwrap();
    assert_eq!(err.kind(), std::io::ErrorKind::UnexpectedEof);

    let mut data = b"XYZB".to_vec();
    data.extend_from_slice(&2u64.to_le_bytes());
    data.extend_from_slice(&encode_records(&[sample_record()]));
    let mut reader = XyzInternalReader::new(Cursor::new(data)).unwrap();
    let err = reader.next_chunk().err().unwrap();
    assert_eq!(err.kind(), std::io::ErrorKind::UnexpectedEof);
}

#[test]
fn reader_hands_out_chunks_of_1024() {
    let records: Vec<XyzRecord> = (0..2500u32)
        .map(|i| XyzRecord {
            x_bits: i as u64,
            y_bits: 2 * i as u64,
            z_bits: i,
            classification: (i % 7) as u8,
            number_of_returns: 1,
            return_number: 1,
            padding: 0,
        })
        .collect();
    let mut writer = XyzInternalWriter::new(Cursor::new(Vec::new()));
    writer.write_records(&records[..1000]).unwrap();
    writer.write_records(&records[1000..]).unwrap();
    let data = writer.finish().unwrap().into_inner();

    let mut reader = XyzInternalReader::new(Cursor::new(data)).unwrap();
    let mut all = Vec::new();
    let mut sizes = Vec::new();
    while let Some(chunk) = reader.next_chunk().unwrap() {
        sizes.push(chunk.len());
        all.extend_from_slice(chunk);
    }
    assert_eq!(sizes, vec![1024, 1024, 452]);
    assert_eq!(all, records);
    assert_eq!(reader.next_chunk().unwrap(), None);
}

#[test]
fn batches_do_not_change_the_file() {
    let records: Vec<XyzRecord> = (0..10u8)
        .map(|i| XyzRecord {
            x_bits: i as u64,
            y_bits: 0,
            z_bits: 7,
            classification: i,
            number_of_returns: 2,
            return_number: 1,
            padding: 0,
        })
        .collect();
    let mut one = XyzInternalWriter::new(Cursor::new(Vec::new()));
    one.write_records(&records).unwrap();
    let one = one.finish().unwrap().into_inner();
    let mut many = XyzInternalWriter::new(Cursor::new(Vec::new()));
    many.write_records(&records[..3]).unwrap();
    many.write_records(&[]).unwrap();
    many.write_records(&records[3..7]).unwrap();
    many.write_records(&records[7..]).unwrap();
    let many = many.finish().unwrap().into_inner();
    assert_eq!(one, many);
}

#[test]
fn header_gives_the_record_count() {
    let mut header = vec![88u8, 89, 90, 66];
    header.extend_from_slice(&3u64.to_le_bytes());
    assert_eq!(header_record_count(&header), Some(3));
    let mut wrong = header.clone();
    wrong[0] = 0;
    assert_eq!(header_record_count(&wrong), None);
    assert_eq!(header_record_count(&header[..11]), None);
}

#[test]
fn magic_check_names_the_fault() {
    assert_eq!(check_magic(&[88, 89, 90, 66]), Ok(()));
    assert_eq!(check_magic(&[88, 89, 90, 67]), Err(HeaderFault::BadMagic));
    assert_eq!(check_magic(&[88, 89, 90]), Err(HeaderFault::BadMagic));
}

#[test]
fn reader_refuses_wrong_magic() {
    let bytes = vec![0u8; 12];
    assert!(XyzInternalReader::new(Cursor::new(bytes)).is_err());
}
