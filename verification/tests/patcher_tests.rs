use oxips::apply_patch;
use oxips::patcher::encode_records;
use oxips::PatchError;
use oxips::Patcher;
use oxips::Record;

#[test]
fn test_valid_patch() {
    let patcher = Patcher {
        patch_data: vec![0x50, 0x41, 0x54, 0x43, 0x48, 0x00, 0x00, 0x45, 0x4f, 0x46],
        ..Default::default()
    };
    assert!(patcher.verify_patch().is_ok());
}

#[test]
fn test_invalid_oatch() {
    // Small file
    let mut patcher = Patcher {
        patch_data: vec![0x50, 0x41, 0x51],
        ..Default::default()
    };
    assert!(patcher.verify_patch().is_err());

    // Invalid header
    patcher.patch_data = vec![0x50, 0x41, 0x51, 0x43, 0x48, 0x00];
    assert!(patcher.verify_patch().is_err());

    // Invalid EOF
    patcher.patch_data = vec![0x50, 0x41, 0x51, 0x43, 0x48, 0x00, 0x43, 0x4f, 0x46];
    assert!(patcher.verify_patch().is_err());
}

fn container(body: &[u8]) -> Vec<u8> {
    let mut patch = vec![0x50, 0x41, 0x54, 0x43, 0x48];
    patch.extend_from_slice(body);
    patch.extend_from_slice(&[0x45, 0x4f, 0x46]);
    patch
}

#[test]
fn test_too_small() {
    let result = apply_patch(vec![0x00], vec![0x50, 0x41, 0x54, 0x43, 0x48, 0x45, 0x4f]);
    assert_eq!(result, Err(PatchError::TooSmall));
}

#[test]
fn test_bad_header() {
    let result = apply_patch(vec![0x00], vec![0x50, 0x41, 0x54, 0x43, 0x58, 0x45, 0x4f, 0x46]);
    assert_eq!(result, Err(PatchError::BadHeader));
}

#[test]
fn test_bad_trailer() {
    let result = apply_patch(vec![0x00], vec![0x50, 0x41, 0x54, 0x43, 0x48, 0x45, 0x4f, 0x58]);
    assert_eq!(result, Err(PatchError::BadTrailer));
}

#[test]
fn test_noop_patch() {
    // A container of exactly the header and the terminator holds no records
    // and leaves any source image unchanged.
    let src = vec![0x09, 0x08, 0x07];
    let result = apply_patch(src.clone(), container(&[]));
    assert_eq!(result, Ok(src));

    let mut patcher = Patcher {
        patch_data: container(&[]),
        ..Default::default()
    };
    assert!(patcher.read_records().is_ok());
    assert!(patcher.records.is_empty());
}

#[test]
fn test_round_trip() {
    // Encoding records and decoding the resulting container reproduces the
    // same ordered record sequence, field for field.
    let records = vec![
        Record::Standard { offset: 2, size: 3, data: vec![0xaa, 0xbb, 0xcc] },
        Record::RLE { offset: 0x123456, length: 0x0102, value: 0x07 },
        Record::Standard { offset: 0xffffff, size: 1, data: vec![0x01] },
    ];
    let body = encode_records(&records);
    let mut patcher = Patcher {
        patch_data: container(&body),
        ..Default::default()
    };
    assert!(patcher.verify_patch().is_ok());
    assert!(patcher.read_records().is_ok());
    assert_eq!(patcher.records, records);
}

#[test]
fn test_literal_application() {
    // {offset: 2, size: 3, data: [0xAA, 0xBB, 0xCC]} onto ten zero bytes.
    let src = vec![0x00; 10];
    let body = [0x00, 0x00, 0x02, 0x00, 0x03, 0xaa, 0xbb, 0xcc];
    let result = apply_patch(src, container(&body));
    let expected = vec![0x00, 0x00, 0xaa, 0xbb, 0xcc, 0x00, 0x00, 0x00, 0x00, 0x00];
    assert_eq!(result, Ok(expected));
}

#[test]
fn test_rle_application() {
    // {offset: 0, length: 5, value: 0xFF} onto ten zero bytes.
    let src = vec![0x00; 10];
    let body = [0x00, 0x00, 0x00, 0x00, 0x00, 0x00, 0x05, 0xff];
    let result = apply_patch(src, container(&body));
    let expected = vec![0xff, 0xff, 0xff, 0xff, 0xff, 0x00, 0x00, 0x00, 0x00, 0x00];
    assert_eq!(result, Ok(expected));
}

#[test]
fn test_rle_zero_length() {
    // A run-length record of length zero writes nothing.
    let src = vec![0x04, 0x05];
    let body = [0x00, 0x00, 0x00, 0x00, 0x00, 0x00, 0x00, 0xab];
    let result = apply_patch(src.clone(), container(&body));
    assert_eq!(result, Ok(src));
}

#[test]
fn test_growth() {
    // A record writing positions 4 and 5 grows a 4-byte image to 6 bytes.
    let src = vec![0x09, 0x09, 0x09, 0x09];
    let body = [0x00, 0x00, 0x04, 0x00, 0x02, 0x07, 0x08];
    let result = apply_patch(src, container(&body));
    assert_eq!(result, Ok(vec![0x09, 0x09, 0x09, 0x09, 0x07, 0x08]));
}

#[test]
fn test_growth_zero_fill() {
    // Growth past the written positions fills with zero bytes.
    let src = vec![0x09];
    let body = [0x00, 0x00, 0x03, 0x00, 0x02, 0x07, 0x08];
    let result = apply_patch(src, container(&body));
    assert_eq!(result, Ok(vec![0x09, 0x00, 0x00, 0x07, 0x08]));
}

#[test]
fn test_overlap_order() {
    // R1 writes 0xAA at offset 10, then R2 writes 0xBB there: the later
    // record wins.
    let src = vec![0x00; 11];
    let body = [
        0x00, 0x00, 0x0a, 0x00, 0x01, 0xaa, // R1
        0x00, 0x00, 0x0a, 0x00, 0x01, 0xbb, // R2
    ];
    let result = apply_patch(src, container(&body)).unwrap();
    assert_eq!(result[10], 0xbb);
    assert_eq!(result.len(), 11);
}

#[test]
fn test_truncated_patch() {
    // The declared size runs past the container's end: no output.
    let src = vec![0x00; 4];
    let body = [0x00, 0x00, 0x00, 0x00, 0x09, 0x01, 0x02];
    let result = apply_patch(src, container(&body));
    assert_eq!(result, Err(PatchError::Truncated));
}

#[test]
fn test_truncated_cursor_position() {
    // After a truncation error the cursor stands at the start of the record
    // that ran past the container's end: here the second record.
    let good = [0x00, 0x00, 0x00, 0x00, 0x01, 0xaa]; // 6 bytes, decodes fine
    let bad = [0x00, 0x00, 0x01, 0x00, 0x09, 0x01]; // declares 9 data bytes
    let mut body = good.to_vec();
    body.extend_from_slice(&bad);
    let mut patcher = Patcher {
        rom_data: vec![0x00; 4],
        patch_data: container(&body),
        ..Default::default()
    };
    assert_eq!(patcher.patch(), Err(PatchError::Truncated));
    assert_eq!(patcher.patch_pointer, 11);
}

#[test]
fn test_truncated_rle() {
    // A run-length record cut off before its value byte: no output.
    let src = vec![0x00; 4];
    let body = [0x00, 0x00, 0x00, 0x00];
    let result = apply_patch(src, container(&body));
    assert_eq!(result, Err(PatchError::Truncated));
}

#[test]
fn test_out_of_bounds() {
    // An earlier record reaches past the end while the last one does not:
    // only the last record's reach grows the image, so the earlier write is
    // out of bounds.
    let src = vec![0x00; 5];
    let body = [
        0x00, 0x00, 0x0a, 0x00, 0x01, 0xaa, // reaches position 10
        0x00, 0x00, 0x00, 0x00, 0x01, 0xbb, // reaches position 0
    ];
    let result = apply_patch(src, container(&body));
    assert_eq!(result, Err(PatchError::OutOfBounds));
}
