use ddr_chart_tools::util::io::{IoError, LeReader};

#[test]
fn reads_consume_and_advance_offset() {
    let buf = [0x01, 0x02, 0x03, 0x04, 0x05, 0x06, 0x07];
    let mut r = LeReader::new(&buf);

    assert_eq!(r.read_u8().unwrap(), 0x01);
    assert_eq!(r.position(), 1);

    assert_eq!(r.read_u16().unwrap(), 0x0302);
    assert_eq!(r.position(), 3);

    assert_eq!(r.read_u32().unwrap(), 0x0706_0504);
    assert_eq!(r.position(), 7);

    assert_eq!(r.remaining(), 0);
}

#[test]
fn read_bytes_returns_borrowed_slice() {
    let buf = [0xAA, 0xBB, 0xCC, 0xDD];
    let mut r = LeReader::new(&buf);
    let slice = r.read_bytes(3).unwrap();
    assert_eq!(slice, &[0xAA, 0xBB, 0xCC]);
    assert_eq!(r.position(), 3);
}

#[test]
fn eof_on_u8_reports_offset() {
    let buf = [];
    let mut r = LeReader::new(&buf);
    let err = r.read_u8().unwrap_err();
    assert_eq!(
        err,
        IoError::UnexpectedEof {
            offset: 0,
            wanted: 1,
            remaining: 0,
        }
    );
}

#[test]
fn eof_on_u16_when_one_byte_left() {
    let buf = [0x42];
    let mut r = LeReader::new(&buf);
    let err = r.read_u16().unwrap_err();
    assert_eq!(
        err,
        IoError::UnexpectedEof {
            offset: 0,
            wanted: 2,
            remaining: 1,
        }
    );
}

#[test]
fn eof_on_u32_mid_buffer() {
    let buf = [0xAA; 6];
    let mut r = LeReader::new(&buf);
    r.read_u32().unwrap();
    let err = r.read_u32().unwrap_err();
    assert_eq!(
        err,
        IoError::UnexpectedEof {
            offset: 4,
            wanted: 4,
            remaining: 2,
        }
    );
}

#[test]
fn read_bytes_zero_length_succeeds_and_does_not_advance() {
    let buf = [0x01, 0x02];
    let mut r = LeReader::new(&buf);
    let slice = r.read_bytes(0).unwrap();
    assert!(slice.is_empty());
    assert_eq!(r.position(), 0);
}

#[test]
fn read_bytes_beyond_buffer_reports_eof() {
    let buf = [0x01, 0x02];
    let mut r = LeReader::new(&buf);
    let err = r.read_bytes(5).unwrap_err();
    assert_eq!(
        err,
        IoError::UnexpectedEof {
            offset: 0,
            wanted: 5,
            remaining: 2,
        }
    );
}

#[test]
fn failed_read_does_not_advance_offset() {
    let buf = [0x42];
    let mut r = LeReader::new(&buf);
    let _ = r.read_u16();
    assert_eq!(r.position(), 0);
    // Subsequent successful read still works.
    assert_eq!(r.read_u8().unwrap(), 0x42);
}
