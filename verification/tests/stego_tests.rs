use encryption_core::{
    add_file_stego, get_file_stego, init_blob, init_stego_blob, unlock_stego_blob,
    JpegCommentCarrier, Mp4FreeBoxCarrier, PdfEofCarrier, PngChunkCarrier, VolumeType,
};

fn create_test_png() -> Vec<u8> {
    // A slightly larger test PNG (100x100 RGB)
    let mut png_data = vec![0x89, 0x50, 0x4E, 0x47, 0x0D, 0x0A, 0x1A, 0x0A];

    let ihdr_data = [
        0x00, 0x00, 0x00, 0x64, // width: 100
        0x00, 0x00, 0x00, 0x64, // height: 100
        0x08, // bit depth: 8
        0x02, // color type: RGB
        0x00, // compression: deflate
        0x00, // filter: none
        0x00, // interlace: none
    ];
    png_data.extend_from_slice(&(ihdr_data.len() as u32).to_be_bytes());
    png_data.extend_from_slice(b"IHDR");
    png_data.extend_from_slice(&ihdr_data);
    png_data.extend_from_slice(&0x7d4cc5f7u32.to_be_bytes());

    let idat_data = [
        0x78, 0x9c, 0xed, 0xc1, 0x01, 0x01, 0x00, 0x00, 0x00, 0x80, 0x90, 0xfe, 0x37, 0x1e,
        0x00, 0x03, 0x00, 0x01,
    ];
    png_data.extend_from_slice(&(idat_data.len() as u32).to_be_bytes());
    png_data.extend_from_slice(b"IDAT");
    png_data.extend_from_slice(&idat_data);
    png_data.extend_from_slice(&0x8ed80f4cu32.to_be_bytes());

    png_data.extend_from_slice(&0u32.to_be_bytes());
    png_data.extend_from_slice(b"IEND");
    png_data.extend_from_slice(&0xae426082u32.to_be_bytes());

    png_data
}

fn create_minimal_jpeg() -> Vec<u8> {
    let mut jpeg = Vec::new();
    jpeg.extend_from_slice(&[0xFF, 0xD8]);
    jpeg.extend_from_slice(&[0xFF, 0xE0]);
    jpeg.extend_from_slice(&[0x00, 0x10]);
    jpeg.extend_from_slice(b"JFIF\0");
    jpeg.extend_from_slice(&[0x01, 0x01]);
    jpeg.extend_from_slice(&[0x00]);
    jpeg.extend_from_slice(&[0x00, 0x01, 0x00, 0x01]);
    jpeg.extend_from_slice(&[0x00, 0x00]);
    jpeg.extend_from_slice(&[0xFF, 0xD9]);
    jpeg
}

fn create_dummy_mp4() -> Vec<u8> {
    let mut buf = Vec::new();
    buf.extend_from_slice(&24u32.to_be_bytes());
    buf.extend_from_slice(b"ftyp");
    buf.extend_from_slice(b"isom");
    buf.extend_from_slice(&0u32.to_be_bytes());
    buf.extend_from_slice(b"isom");
    buf.extend_from_slice(&0u32.to_be_bytes());
    buf
}

fn create_minimal_pdf() -> Vec<u8> {
    let mut pdf = Vec::new();
    pdf.extend_from_slice(b"%PDF-1.4\n");
    pdf.extend_from_slice(b"1 0 obj<<>>endobj\n");
    pdf.extend_from_slice(b"trailer<<>>\n");
    pdf.extend_from_slice(b"%%EOF\n");
    pdf
}

#[test]
fn test_png_steganography_basic() {
    let test_png = create_test_png();
    let pass_s = b"standard_password";
    let pass_h = b"hidden_password";

    // Initialize a steganographic blob inside the PNG
    let carrier = PngChunkCarrier::new();
    let stego_data = init_stego_blob(&test_png, &carrier, pass_s, pass_h).unwrap();
    assert!(stego_data.starts_with(&[0x89, 0x50, 0x4E, 0x47])); // PNG signature

    // Unlock the steganographic blob
    let carriers = vec![carrier];
    let (volume_type, key, mut metadata) =
        unlock_stego_blob(&stego_data, &carriers, pass_s).unwrap();
    assert_eq!(volume_type, VolumeType::Standard);
    assert!(metadata.is_empty()); // Should be empty initially

    // Add a file to the steganographic blob
    let test_content = b"Hello from steganographic world!";
    let updated = add_file_stego(
        &stego_data,
        &carriers[0],
        volume_type,
        &key,
        &mut metadata,
        b"test.txt",
        test_content,
        b"text/plain",
    )
    .unwrap();

    // Verify we can retrieve the file
    let file_metadata = metadata.get(b"test.txt").unwrap();
    let retrieved_content = get_file_stego(&updated, &carriers[0], &key, file_metadata).unwrap();
    assert_eq!(retrieved_content, test_content);

    // Verify the stego file is still a valid PNG after modification
    assert!(updated.starts_with(&[0x89, 0x50, 0x4E, 0x47])); // PNG signature
}

#[test]
fn test_png_steganography_hidden_volume() {
    let test_png = create_test_png();
    let pass_s = b"standard_password";
    let pass_h = b"hidden_password";

    let carrier = PngChunkCarrier::new();
    let stego_data = init_stego_blob(&test_png, &carrier, pass_s, pass_h).unwrap();
    let carriers = vec![carrier];

    // The hidden volume unlocks from the wrapped bytes as well
    let (vol_type_h, _key_h, meta_h) = unlock_stego_blob(&stego_data, &carriers, pass_h).unwrap();
    assert_eq!(vol_type_h, VolumeType::Hidden);
    assert!(meta_h.is_empty());
}

#[test]
fn test_png_steganography_backwards_compatibility() {
    let pass_s = b"standard_password";
    let pass_h = b"hidden_password";

    // Create a normal blob
    let blob = init_blob(pass_s, pass_h).unwrap();

    // Should be able to unlock it with the stego functions
    let carriers = vec![PngChunkCarrier::new()];
    let result = unlock_stego_blob(&blob, &carriers, pass_s);

    // Should succeed via fallback to normal blob unlock
    assert!(result.is_ok());
}

#[test]
fn test_jpeg_steganography_basic() {
    let minimal_jpeg = create_minimal_jpeg();
    let pass_s = b"standard_password";
    let pass_h = b"hidden_password";

    let carrier = JpegCommentCarrier::new();
    let stego_data = init_stego_blob(&minimal_jpeg, &carrier, pass_s, pass_h).unwrap();
    assert!(stego_data.starts_with(&[0xFF, 0xD8])); // JPEG SOI

    let carriers = vec![carrier];
    let (volume_type, key, mut metadata) =
        unlock_stego_blob(&stego_data, &carriers, pass_s).unwrap();
    assert_eq!(volume_type, VolumeType::Standard);
    assert!(metadata.is_empty());

    let test_content = b"Hello world via JPEG stego!";
    let updated = add_file_stego(
        &stego_data,
        &carriers[0],
        volume_type,
        &key,
        &mut metadata,
        b"hello.txt",
        test_content,
        b"text/plain",
    )
    .unwrap();

    let file_meta = metadata.get(b"hello.txt").unwrap();
    let retrieved = get_file_stego(&updated, &carriers[0], &key, file_meta).unwrap();
    assert_eq!(retrieved, test_content);

    // Verify the stego file is still a valid JPEG
    assert!(updated.starts_with(&[0xFF, 0xD8])); // JPEG SOI
    assert!(updated.ends_with(&[0xFF, 0xD9])); // JPEG EOI
}

#[test]
fn test_jpeg_steganography_hidden_volume() {
    let minimal_jpeg = create_minimal_jpeg();
    let pass_s = b"standard_password";
    let pass_h = b"hidden_password";

    let carrier = JpegCommentCarrier::new();
    let stego_data = init_stego_blob(&minimal_jpeg, &carrier, pass_s, pass_h).unwrap();
    let carriers = vec![carrier];

    let (vol_type_h, _key_h, meta_h) = unlock_stego_blob(&stego_data, &carriers, pass_h).unwrap();
    assert_eq!(vol_type_h, VolumeType::Hidden);
    assert!(meta_h.is_empty());
}

#[test]
fn test_mp4_steganography_basic() {
    let dummy_mp4 = create_dummy_mp4();
    let pass_s = b"standard_password";
    let pass_h = b"hidden_password";

    let carrier = Mp4FreeBoxCarrier::new();
    let stego_data = init_stego_blob(&dummy_mp4, &carrier, pass_s, pass_h).unwrap();
    assert_eq!(&stego_data[4..8], b"ftyp");

    let carriers = vec![carrier];
    let (volume_type, key, mut metadata) =
        unlock_stego_blob(&stego_data, &carriers, pass_s).unwrap();
    assert_eq!(volume_type, VolumeType::Standard);

    let test_content = b"Hello from MP4 steganography!";
    let updated = add_file_stego(
        &stego_data,
        &carriers[0],
        volume_type,
        &key,
        &mut metadata,
        b"greeting.txt",
        test_content,
        b"text/plain",
    )
    .unwrap();

    let file_metadata = metadata.get(b"greeting.txt").unwrap();
    let extracted = get_file_stego(&updated, &carriers[0], &key, file_metadata).unwrap();
    assert_eq!(extracted, test_content);
}

#[test]
fn test_pdf_steganography_basic() {
    let minimal_pdf = create_minimal_pdf();
    let pass_s = b"standard_password";
    let pass_h = b"hidden_password";

    let carrier = PdfEofCarrier::new();
    let stego_data = init_stego_blob(&minimal_pdf, &carrier, pass_s, pass_h).unwrap();
    assert!(stego_data.starts_with(b"%PDF-"));

    let carriers = vec![carrier];
    let (volume_type, key, mut metadata) =
        unlock_stego_blob(&stego_data, &carriers, pass_s).unwrap();
    assert_eq!(volume_type, VolumeType::Standard);
    assert!(metadata.is_empty());

    let test_content = b"Hello world via PDF stego!";
    let updated = add_file_stego(
        &stego_data,
        &carriers[0],
        volume_type,
        &key,
        &mut metadata,
        b"hello.txt",
        test_content,
        b"text/plain",
    )
    .unwrap();

    let file_meta = metadata.get(b"hello.txt").unwrap();
    let retrieved = get_file_stego(&updated, &carriers[0], &key, file_meta).unwrap();
    assert_eq!(retrieved, test_content);
}

#[test]
fn test_stego_wrong_password_fails() {
    let pdf = create_minimal_pdf();
    let carrier = PdfEofCarrier::new();
    let stego_data = init_stego_blob(&pdf, &carrier, b"alpha", b"omega").unwrap();
    let carriers = vec![carrier];
    assert_eq!(
        unlock_stego_blob(&stego_data, &carriers, b"zeta").unwrap_err(),
        encryption_core::BlobError::InvalidPassword
    );
}

#[test]
fn test_stego_init_conflicting_passwords() {
    let pdf = create_minimal_pdf();
    let carrier = PdfEofCarrier::new();
    assert_eq!(
        init_stego_blob(&pdf, &carrier, b"same", b"same").unwrap_err(),
        encryption_core::BlobError::ConflictingPasswords
    );
}
