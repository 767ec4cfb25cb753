use tachikaze::logo::lgd::{
    parse, LgdParseError, BASE_FIXED_LEN, BASE_LOGO_PIXEL_SIZE, LOGO_HEADER_LEN, MAGIC, NAME_LEN,
};

fn bits(values: &[f32]) -> Vec<u32> {
    values.iter().map(|v| v.to_bits()).collect()
}

struct LgdBuilder {
    base_w: i16,
    base_h: i16,
    magic: u32,
    version: i32,
    w: i32,
    h: i32,
    log_uv_x: i32,
    log_uv_y: i32,
    imgw: i32,
    imgh: i32,
    imgx: i32,
    imgy: i32,
    name: &'static str,
    service_id: i32,
    a_y: Vec<f32>,
    b_y: Vec<f32>,
    a_u: Vec<f32>,
    b_u: Vec<f32>,
    a_v: Vec<f32>,
    b_v: Vec<f32>,
}

impl LgdBuilder {
    fn new_2x2() -> Self {
        LgdBuilder {
            base_w: 2,
            base_h: 2,
            magic: MAGIC,
            version: 1,
            w: 2,
            h: 2,
            log_uv_x: 1,
            log_uv_y: 1,
            imgw: 1920,
            imgh: 1080,
            imgx: 10,
            imgy: 20,
            name: "test-logo",
            service_id: 1024,
            a_y: vec![1.0, 2.0, 3.0, 4.0],
            b_y: vec![5.0, 6.0, 7.0, 8.0],
            a_u: vec![9.0],
            b_u: vec![10.0],
            a_v: vec![11.0],
            b_v: vec![12.0],
        }
    }

    fn build_base(&self) -> Vec<u8> {
        let mut buf = Vec::new();
        buf.extend_from_slice(&[0u8; 28]);
        buf.extend_from_slice(&1u32.to_be_bytes());
        buf.extend_from_slice(&[0u8; 32]);
        buf.extend_from_slice(&0i16.to_le_bytes());
        buf.extend_from_slice(&0i16.to_le_bytes());
        buf.extend_from_slice(&self.base_h.to_le_bytes());
        buf.extend_from_slice(&self.base_w.to_le_bytes());
        buf.extend_from_slice(&0i16.to_le_bytes());
        buf.extend_from_slice(&0i16.to_le_bytes());
        buf.extend_from_slice(&0i16.to_le_bytes());
        buf.extend_from_slice(&0i16.to_le_bytes());
        assert_eq!(buf.len(), BASE_FIXED_LEN);

        let pixel_count = (self.base_w.max(0) as usize) * (self.base_h.max(0) as usize);
        buf.extend_from_slice(&vec![0u8; pixel_count * BASE_LOGO_PIXEL_SIZE]);
        buf
    }

    fn build_extended(&self) -> Vec<u8> {
        let mut buf = Vec::new();
        buf.extend_from_slice(&self.magic.to_le_bytes());
        buf.extend_from_slice(&self.version.to_le_bytes());
        buf.extend_from_slice(&self.w.to_le_bytes());
        buf.extend_from_slice(&self.h.to_le_bytes());
        buf.extend_from_slice(&self.log_uv_x.to_le_bytes());
        buf.extend_from_slice(&self.log_uv_y.to_le_bytes());
        buf.extend_from_slice(&self.imgw.to_le_bytes());
        buf.extend_from_slice(&self.imgh.to_le_bytes());
        buf.extend_from_slice(&self.imgx.to_le_bytes());
        buf.extend_from_slice(&self.imgy.to_le_bytes());
        assert_eq!(buf.len(), 40);

        let mut name_field = [0u8; NAME_LEN];
        let name_bytes = self.name.as_bytes();
        name_field[..name_bytes.len()].copy_from_slice(name_bytes);
        buf.extend_from_slice(&name_field);
        buf.push(0);
        assert_eq!(buf.len(), 296);

        buf.extend_from_slice(&self.service_id.to_le_bytes());
        buf.extend_from_slice(&[0u8; 240]);
        assert_eq!(buf.len(), LOGO_HEADER_LEN);

        for plane in [
            &self.a_y, &self.b_y, &self.a_u, &self.b_u, &self.a_v, &self.b_v,
        ] {
            for v in plane {
                buf.extend_from_slice(&v.to_le_bytes());
            }
        }
        buf
    }

    fn build(&self) -> Vec<u8> {
        let mut buf = self.build_base();
        buf.extend_from_slice(&self.build_extended());
        buf
    }
}

#[test]
fn logo_header_size_is_540_bytes() {
    assert_eq!(LOGO_HEADER_LEN, 540);
}

#[test]
fn parses_known_values_including_all_fields_and_planes() {
    let b = LgdBuilder::new_2x2();
    let bytes = b.build();

    let got = parse(&bytes).expect("既知の値から組み立てたバイト列はパースできるはず");

    assert_eq!(got.w, 2);
    assert_eq!(got.h, 2);
    assert_eq!(got.log_uv_x, 1);
    assert_eq!(got.log_uv_y, 1);
    assert_eq!(got.imgw, 1920);
    assert_eq!(got.imgh, 1080);
    assert_eq!(got.imgx, 10);
    assert_eq!(got.imgy, 20);
    assert_eq!(got.name, "test-logo");
    assert_eq!(got.service_id, 1024);
    assert_eq!(got.a_y, bits(&[1.0, 2.0, 3.0, 4.0]));
    assert_eq!(got.b_y, bits(&[5.0, 6.0, 7.0, 8.0]));
    assert_eq!(got.a_u, bits(&[9.0]));
    assert_eq!(got.b_u, bits(&[10.0]));
    assert_eq!(got.a_v, bits(&[11.0]));
    assert_eq!(got.b_v, bits(&[12.0]));
}

#[test]
fn magic_mismatch_is_an_error() {
    let mut b = LgdBuilder::new_2x2();
    b.magic = 0xdead_beef;
    let bytes = b.build();

    assert_eq!(
        parse(&bytes),
        Err(LgdParseError::MagicMismatch { found: 0xdead_beef })
    );
}

#[test]
fn truncated_file_in_base_header_is_an_error() {
    let bytes = vec![0u8; BASE_FIXED_LEN - 1];
    assert_eq!(
        parse(&bytes),
        Err(LgdParseError::TooShortForBaseHeader {
            actual: bytes.len()
        })
    );
}

#[test]
fn truncated_file_in_base_pixels_is_an_error() {
    let b = LgdBuilder::new_2x2();
    let mut bytes = b.build_base();
    bytes.pop();
    assert!(matches!(
        parse(&bytes),
        Err(LgdParseError::TooShortForBasePixels { .. })
    ));
}

#[test]
fn truncated_file_in_extended_header_is_an_error() {
    let b = LgdBuilder::new_2x2();
    let mut bytes = b.build_base();
    let ext = b.build_extended();
    bytes.extend_from_slice(&ext[..LOGO_HEADER_LEN - 1]);
    assert!(matches!(
        parse(&bytes),
        Err(LgdParseError::TooShortForExtendedHeader { .. })
    ));
}

#[test]
fn truncated_file_in_float_planes_is_an_error() {
    let b = LgdBuilder::new_2x2();
    let mut bytes = b.build();
    bytes.pop();
    assert!(matches!(
        parse(&bytes),
        Err(LgdParseError::TooShortForFloatPlanes { .. })
    ));
}

#[test]
fn non_positive_size_is_an_error() {
    let mut b = LgdBuilder::new_2x2();
    b.w = 0;
    b.base_w = 0;
    let bytes = b.build();

    assert_eq!(
        parse(&bytes),
        Err(LgdParseError::NonPositiveSize { w: 0, h: 2 })
    );
}

#[test]
fn base_and_extended_size_mismatch_is_an_error() {
    let mut b = LgdBuilder::new_2x2();
    b.base_w = 3;
    let bytes = b.build();

    assert_eq!(
        parse(&bytes),
        Err(LgdParseError::BaseExtendedSizeMismatch {
            base_w: 3,
            base_h: 2,
            ext_w: 2,
            ext_h: 2,
        })
    );
}

#[test]
fn invalid_chroma_shift_is_an_error_not_a_panic() {
    let mut b = LgdBuilder::new_2x2();
    b.log_uv_x = 32;
    let bytes = b.build();

    assert_eq!(
        parse(&bytes),
        Err(LgdParseError::InvalidChromaShift {
            log_uv_x: 32,
            log_uv_y: 1,
        })
    );
}

#[test]
fn negative_chroma_shift_is_an_error_not_a_panic() {
    let mut b = LgdBuilder::new_2x2();
    b.log_uv_y = -1;
    let bytes = b.build();

    assert_eq!(
        parse(&bytes),
        Err(LgdParseError::InvalidChromaShift {
            log_uv_x: 1,
            log_uv_y: -1,
        })
    );
}

#[test]
fn name_that_is_no_utf8_is_read_with_replacement_characters() {
    let b = LgdBuilder::new_2x2();
    let mut bytes = b.build();
    let name_at = b.build_base().len() + 40;
    bytes[name_at] = 0xff;
    let got = parse(&bytes).expect("the name does not decide whether a file is read");
    assert_eq!(got.name, "\u{fffd}est-logo");
}

#[test]
fn name_without_a_terminator_fills_the_field() {
    let b = LgdBuilder::new_2x2();
    let mut bytes = b.build();
    let name_at = b.build_base().len() + 40;
    for byte in &mut bytes[name_at..name_at + NAME_LEN] {
        *byte = b'n';
    }
    let got = parse(&bytes).expect("a full field is a name");
    assert_eq!(got.name, "n".repeat(NAME_LEN));
}

#[test]
fn parse_errors_say_what_is_missing() {
    let b = LgdBuilder::new_2x2();
    let bytes = b.build();
    let error = parse(&bytes[..bytes.len() - 1]).expect_err("one byte is missing");
    assert_eq!(
        error,
        LgdParseError::TooShortForFloatPlanes {
            needed: bytes.len() as u64,
            actual: bytes.len() - 1,
        }
    );
    assert!(error.message().contains(&bytes.len().to_string()));
}
