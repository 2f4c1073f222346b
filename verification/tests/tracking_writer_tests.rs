use ripgzip::Error;
use ripgzip::TrackingWriter;

#[test]
fn write() {
    // The sink accepts ten bytes in total, like a ten-byte buffer.
    let mut writer = TrackingWriter::new(10);

    assert_eq!(writer.write(&[1, 2, 3, 4]).unwrap(), 4);
    assert_eq!(writer.byte_count(), 4);

    assert_eq!(writer.write(&[4, 8, 15, 16, 23]).unwrap(), 5);
    assert_eq!(writer.byte_count(), 9);

    assert_eq!(writer.write(&[0, 0, 123]).unwrap(), 1);
    assert_eq!(writer.byte_count(), 10);

    assert_eq!(writer.write(&[42, 124, 234, 27]).unwrap(), 0);
    assert_eq!(writer.byte_count(), 10);
    assert_eq!(writer.crc32(), 2992191065);
}

#[test]
fn write_previous() {
    let mut writer = TrackingWriter::new(512);

    for i in 0..=255u8 {
        writer.write(&[i]).unwrap();
    }

    writer.write_previous(192, 128).unwrap();
    assert_eq!(writer.byte_count(), 384);

    assert!(writer.write_previous(10000, 20).is_err());
    assert_eq!(writer.byte_count(), 384);

    assert!(writer.write_previous(256, 256).is_err());
    assert_eq!(writer.byte_count(), 512);

    assert!(writer.write_previous(1, 1).is_err());
    assert_eq!(writer.byte_count(), 512);
    assert_eq!(writer.crc32(), 2733545866);
}

#[test]
fn write_previous_copies_cyclically() {
    let mut writer = TrackingWriter::new(100);
    writer.write(&[1, 2, 3]).unwrap();
    writer.write_previous(3, 7).unwrap();
    assert_eq!(writer.byte_count(), 10);
    assert_eq!(writer.into_bytes(), vec![1, 2, 3, 1, 2, 3, 1, 2, 3, 1]);
}

#[test]
fn write_previous_rejects_bad_distance_without_change() {
    let mut writer = TrackingWriter::new(100);
    writer.write(&[9, 9]).unwrap();
    assert_eq!(writer.write_previous(3, 1).unwrap_err(), Error::BadBackreferenceDistance);
    assert_eq!(writer.byte_count(), 2);
    assert_eq!(writer.into_bytes(), vec![9, 9]);
}

#[test]
fn flush_starts_a_new_member() {
    let mut writer = TrackingWriter::new(100);
    writer.write(&[10, 20, 30]).unwrap();
    writer.flush();
    assert_eq!(writer.byte_count(), 0);
    writer.write(&[40]).unwrap();
    assert_eq!(writer.byte_count(), 1);
    // The back-reference window also restarts at the member boundary.
    assert_eq!(writer.write_previous(2, 1).unwrap_err(), Error::BadBackreferenceDistance);
    assert_eq!(writer.into_bytes(), vec![10, 20, 30, 40]);
}
