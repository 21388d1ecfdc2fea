use encryption_core::steganography::StegoCarrier;
use encryption_core::{JpegCommentCarrier, Mp4FreeBoxCarrier, PdfEofCarrier, PngChunkCarrier};

fn create_minimal_png() -> Vec<u8> {
    // PNG signature
    let mut png_data = vec![0x89, 0x50, 0x4E, 0x47, 0x0D, 0x0A, 0x1A, 0x0A];

    // IHDR chunk (1x1 grayscale)
    let ihdr_data = [
        0x00, 0x00, 0x00, 0x01, // width: 1
        0x00, 0x00, 0x00, 0x01, // height: 1
        0x08, // bit depth: 8
        0x00, // color type: grayscale
        0x00, // compression: deflate
        0x00, // filter: none
        0x00, // interlace: none
    ];
    png_data.extend_from_slice(&(ihdr_data.len() as u32).to_be_bytes());
    png_data.extend_from_slice(b"IHDR");
    png_data.extend_from_slice(&ihdr_data);
    png_data.extend_from_slice(&0x376ef9dbu32.to_be_bytes()); // CRC

    // IDAT chunk (compressed pixel data)
    let idat_data = [0x78, 0x9c, 0x62, 0x00, 0x00, 0x00, 0x02, 0x00, 0x01];
    png_data.extend_from_slice(&(idat_data.len() as u32).to_be_bytes());
    png_data.extend_from_slice(b"IDAT");
    png_data.extend_from_slice(&idat_data);
    png_data.extend_from_slice(&0x25be6486u32.to_be_bytes()); // CRC

    // IEND chunk
    png_data.extend_from_slice(&0u32.to_be_bytes());
    png_data.extend_from_slice(b"IEND");
    png_data.extend_from_slice(&0xae426082u32.to_be_bytes()); // CRC

    png_data
}

fn create_minimal_jpeg() -> Vec<u8> {
    // Minimal JPEG structure with SOI, APP0, and EOI
    let mut jpeg = Vec::new();

    // SOI (Start of Image)
    jpeg.extend_from_slice(&[0xFF, 0xD8]);

    // APP0 segment (JFIF header)
    jpeg.extend_from_slice(&[0xFF, 0xE0]); // APP0 marker
    jpeg.extend_from_slice(&[0x00, 0x10]); // Length: 16 bytes
    jpeg.extend_from_slice(b"JFIF\0"); // JFIF identifier
    jpeg.extend_from_slice(&[0x01, 0x01]); // Version 1.1
    jpeg.extend_from_slice(&[0x00]); // Density units
    jpeg.extend_from_slice(&[0x00, 0x01, 0x00, 0x01]); // X and Y density
    jpeg.extend_from_slice(&[0x00, 0x00]); // Thumbnail dimensions

    // EOI (End of Image)
    jpeg.extend_from_slice(&[0xFF, 0xD9]);

    jpeg
}

fn create_dummy_mp4() -> Vec<u8> {
    // A 24-byte ftyp box with minimal content.
    let mut buf = Vec::new();
    buf.extend_from_slice(&24u32.to_be_bytes()); // size
    buf.extend_from_slice(b"ftyp"); // type
    buf.extend_from_slice(b"isom"); // major brand
    buf.extend_from_slice(&0u32.to_be_bytes()); // minor version
    buf.extend_from_slice(b"isom"); // compatible brand (one entry)
    buf.extend_from_slice(&0u32.to_be_bytes()); // padding to reach 24 bytes
    buf
}

fn create_minimal_pdf() -> Vec<u8> {
    let mut pdf = Vec::new();
    pdf.extend_from_slice(b"%PDF-1.4\n");
    pdf.extend_from_slice(b"1 0 obj<<>>endobj\n");
    pdf.extend_from_slice(b"trailer<<>>\n");
    pdf.extend_from_slice(b"%%EOF\n");
    pdf
}

/// A deterministic pseudo-random byte pattern for large payloads.
fn patterned_payload(n: usize) -> Vec<u8> {
    let mut v = Vec::with_capacity(n);
    let mut x: u32 = 0x12345678;
    for _ in 0..n {
        x = x.wrapping_mul(1664525).wrapping_add(1013904223);
        v.push((x >> 24) as u8);
    }
    v
}

#[test]
fn test_png_chunk_basic() {
    // Create a minimal valid PNG (1x1 pixel, grayscale)
    let minimal_png = create_minimal_png();

    let carrier = PngChunkCarrier::new();
    let payload = b"Hello, steganography!";

    // Test embedding
    let stego_png = carrier.embed(&minimal_png, payload).unwrap();

    // Test extraction
    let extracted = carrier.extract(&stego_png).unwrap();
    assert_eq!(extracted, payload);

    // Verify the PNG is still valid
    assert!(carrier.validate_png(&stego_png).is_ok());
}

#[test]
fn jpeg_comment_test_jpeg_steganography_basic() {
    let carrier = JpegCommentCarrier::new();
    let jpeg = create_minimal_jpeg();
    let payload = b"Hidden message in JPEG!";

    // Test embedding
    let stego_jpeg = carrier.embed(&jpeg, payload).unwrap();

    // Verify it's still a valid JPEG
    assert!(carrier.validate_jpeg(&stego_jpeg).is_ok());
    assert!(stego_jpeg.starts_with(&[0xFF, 0xD8])); // SOI
    assert!(stego_jpeg.ends_with(&[0xFF, 0xD9])); // EOI

    // Test extraction
    let extracted = carrier.extract(&stego_jpeg).unwrap();
    assert_eq!(extracted, payload);
}

#[test]
fn test_jpeg_validation() {
    let carrier = JpegCommentCarrier::new();

    // Valid JPEG
    let valid_jpeg = create_minimal_jpeg();
    assert!(carrier.validate_jpeg(&valid_jpeg).is_ok());

    // Invalid data
    assert!(carrier.validate_jpeg(b"not a jpeg").is_err());
    assert!(carrier.validate_jpeg(&[0xFF, 0xD8]).is_err()); // Too short
}

#[test]
fn test_large_payload_round_trip_every_carrier() {
    // A patterned megabyte through each carrier comes back byte-identical
    // and the output still passes the format check.
    let payload = patterned_payload(1048576);

    let png = PngChunkCarrier::new();
    let spng = png.embed(&create_minimal_png(), &payload).unwrap();
    assert!(png.validate_png(&spng).is_ok());
    assert_eq!(png.extract(&spng).unwrap(), payload);

    let jpg = JpegCommentCarrier::new();
    let sjpg = jpg.embed(&create_minimal_jpeg(), &payload).unwrap();
    assert!(jpg.validate_jpeg(&sjpg).is_ok());
    assert_eq!(jpg.extract(&sjpg).unwrap(), payload);

    let mp4 = Mp4FreeBoxCarrier::new();
    let smp4 = mp4.embed(&create_dummy_mp4(), &payload).unwrap();
    assert!(mp4.validate_mp4(&smp4).is_ok());
    assert_eq!(&smp4[4..8], b"ftyp");
    assert_eq!(mp4.extract(&smp4).unwrap(), payload);

    let pdf = PdfEofCarrier::new();
    let spdf = pdf.embed(&create_minimal_pdf(), &payload).unwrap();
    assert!(pdf.validate_pdf(&spdf).is_ok());
    assert!(spdf.starts_with(b"%PDF-"));
    assert_eq!(pdf.extract(&spdf).unwrap(), payload);
}

#[test]
fn test_reembedding_replaces_and_stays_bounded() {
    // Embedding a second payload strips the first: the extraction returns
    // the new payload, and the size is bounded by the carrier plus the new
    // payload's overhead, not by both payloads together.
    let p1 = patterned_payload(300000);
    let p2 = b"short second payload".to_vec();

    let png = PngChunkCarrier::new();
    let c = create_minimal_png();
    let once = png.embed(&c, &p1).unwrap();
    let twice = png.embed(&once, &p2).unwrap();
    assert_eq!(png.extract(&twice).unwrap(), p2);
    assert!(twice.len() <= c.len() + p2.len() + 24);

    let jpg = JpegCommentCarrier::new();
    let cj = create_minimal_jpeg();
    let oncej = jpg.embed(&cj, &p1).unwrap();
    let twicej = jpg.embed(&oncej, &p2).unwrap();
    assert_eq!(jpg.extract(&twicej).unwrap(), p2);
    assert!(twicej.len() <= cj.len() + p2.len() + 46);

    let mp4 = Mp4FreeBoxCarrier::new();
    let cm = create_dummy_mp4();
    let oncem = mp4.embed(&cm, &p1).unwrap();
    let twicem = mp4.embed(&oncem, &p2).unwrap();
    assert_eq!(mp4.extract(&twicem).unwrap(), p2);
    assert!(twicem.len() <= cm.len() + p2.len() + 27);

    let pdf = PdfEofCarrier::new();
    let cp = create_minimal_pdf();
    let oncep = pdf.embed(&cp, &p1).unwrap();
    let twicep = pdf.embed(&oncep, &p2).unwrap();
    assert_eq!(pdf.extract(&twicep).unwrap(), p2);
    assert!(twicep.len() <= cp.len() + p2.len() + 21);
}

#[test]
fn test_carrier_validation_failures() {
    // Each carrier rejects bytes of another format, and embedding into them
    // reports the format error.
    let png = PngChunkCarrier::new();
    let jpg = JpegCommentCarrier::new();
    let mp4 = Mp4FreeBoxCarrier::new();
    let pdf = PdfEofCarrier::new();

    assert!(png.validate_png(b"no signature here").is_err());
    assert!(mp4.validate_mp4(b"too short").is_err());
    assert!(pdf.validate_pdf(b"%PDF-1.4 but no end marker").is_err());
    assert_eq!(png.capacity(b"nope"), 0);
    assert_eq!(jpg.capacity(b"nope"), 0);
    assert_eq!(mp4.capacity(b"nope"), 0);
    assert_eq!(pdf.capacity(b"nope"), 0);
    assert_eq!(
        png.embed(b"garbage", b"x").unwrap_err(),
        encryption_core::BlobError::InvalidFormat
    );
}

#[test]
fn test_payload_over_capacity_is_rejected() {
    // The JPEG carrier has the smallest capacity; one byte over it is
    // refused with the capacity error.
    let jpg = JpegCommentCarrier::new();
    let cj = create_minimal_jpeg();
    let too_big = vec![0u8; 6551401];
    assert_eq!(
        jpg.embed(&cj, &too_big).unwrap_err(),
        encryption_core::BlobError::CarrierTooSmall
    );
}

#[test]
fn test_empty_payload_returns_carrier_unchanged() {
    let png = PngChunkCarrier::new();
    let c = create_minimal_png();
    assert_eq!(png.embed(&c, b"").unwrap(), c);
    // nothing was embedded, so nothing is extracted
    assert!(png.extract(&c).is_none());
}

#[test]
fn test_crc32_known_values() {
    // The CRC-32 the PNG chunks rely on matches the well-known values.
    assert_eq!(encryption_core::crypto::crc32(b""), 0);
    assert_eq!(encryption_core::crypto::crc32(b"IEND"), 0xAE426082);
    assert_eq!(encryption_core::crypto::crc32(b"123456789"), 0xCBF43926);
}

#[test]
fn test_png_capacity_is_large() {
    let png = PngChunkCarrier::new();
    let capacity = png.capacity(&create_minimal_png());
    assert!(capacity > 1024 * 1024);
}
