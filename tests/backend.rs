use hubset::backend::{
    external_arguments, in_process_artifact, in_process_subset, input_path, is_font, output_path, selection_chars,
    with_extension, Flavor, SkipReason, COMPRESSION_QUALITY,
};
use hubset::ranges::UnicodeValue;

fn be16(out: &mut Vec<u8>, v: u16) {
    out.extend_from_slice(&v.to_be_bytes());
}

fn be32(out: &mut Vec<u8>, v: u32) {
    out.extend_from_slice(&v.to_be_bytes());
}

fn checksum(data: &[u8]) -> u32 {
    let mut sum: u32 = 0;
    for chunk in data.chunks(4) {
        let mut word = [0u8; 4];
        word[..chunk.len()].copy_from_slice(chunk);
        sum = sum.wrapping_add(u32::from_be_bytes(word));
    }
    sum
}

/// A TrueType font of the three tables every font has, and one glyph.
fn minimal_font() -> Vec<u8> {
    let mut head = Vec::new();
    be32(&mut head, 0x0001_0000);
    be32(&mut head, 0x0001_0000);
    be32(&mut head, 0);
    be32(&mut head, 0x5F0F_3CF5);
    be16(&mut head, 0);
    be16(&mut head, 1000);
    head.extend_from_slice(&[0u8; 16]);
    for _ in 0..4 {
        be16(&mut head, 0);
    }
    be16(&mut head, 0);
    be16(&mut head, 8);
    be16(&mut head, 2);
    be16(&mut head, 0);
    be16(&mut head, 0);
    assert_eq!(head.len(), 54);

    let mut hhea = Vec::new();
    be32(&mut hhea, 0x0001_0000);
    be16(&mut hhea, 800);
    be16(&mut hhea, 0xFF38);
    hhea.extend_from_slice(&[0u8; 26]);
    be16(&mut hhea, 1);
    assert_eq!(hhea.len(), 36);

    let mut maxp = Vec::new();
    be32(&mut maxp, 0x0000_5000);
    be16(&mut maxp, 1);

    let tables: [(&[u8; 4], Vec<u8>); 3] = [(b"head", head), (b"hhea", hhea), (b"maxp", maxp)];
    let mut font = Vec::new();
    be32(&mut font, 0x0001_0000);
    be16(&mut font, 3);
    be16(&mut font, 32);
    be16(&mut font, 1);
    be16(&mut font, 16);
    let mut offset = 12 + 16 * tables.len();
    let mut bodies = Vec::new();
    for (tag, data) in tables.iter() {
        font.extend_from_slice(*tag);
        be32(&mut font, checksum(data));
        be32(&mut font, offset as u32);
        be32(&mut font, data.len() as u32);
        let mut padded = data.clone();
        while padded.len() % 4 != 0 {
            padded.push(0);
        }
        offset += padded.len();
        bodies.extend_from_slice(&padded);
    }
    font.extend_from_slice(&bodies);
    font
}

#[test]
fn font_extensions() {
    assert!(is_font("a.ttf"));
    assert!(is_font("a.otf"));
    assert!(is_font("Font.Bold.woff"));
    assert!(is_font("a.woff2"));
    assert!(!is_font("a.TTF"));
    assert!(!is_font("a.txt"));
    assert!(!is_font("ttf"));
    assert!(!is_font(".ttf"));
    assert!(!is_font("a."));
    assert!(!is_font(""));
}

#[test]
fn extension_is_replaced_or_added() {
    assert_eq!(with_extension("a.ttf", "woff2"), "a.woff2");
    assert_eq!(with_extension("a.b.otf", "woff"), "a.b.woff");
    assert_eq!(with_extension("plain", "woff2"), "plain.woff2");
    assert_eq!(with_extension(".hidden", "woff"), ".hidden.woff");
}

#[test]
fn paths_of_a_file() {
    assert_eq!(input_path("Inter.ttf"), "input/Inter.ttf");
    assert_eq!(output_path("Inter.ttf", Flavor::Woff2), "output/Inter.woff2");
    assert_eq!(output_path("Inter.ttf", Flavor::Woff), "output/Inter.woff");
}

#[test]
fn default_flavor_is_woff2() {
    assert_eq!(Flavor::default(), Flavor::Woff2);
    assert_eq!(Flavor::Woff.to_string(), "woff");
    assert_eq!(Flavor::Woff2.to_string(), "woff2");
}

#[test]
fn external_tool_arguments() {
    let tokens = vec!["U+0-FF".to_string(), "U+131".to_string()];
    let args = external_arguments("/w/input/a.ttf", &tokens, "/w/output/a.woff");
    assert_eq!(
        args,
        vec![
            "/w/input/a.ttf".to_string(),
            "--unicodes=U+0-FF,U+131".to_string(),
            "--output-file=/w/output/a.woff".to_string(),
            "--flavor=woff2".to_string(),
        ]
    );
    let none = external_arguments("i", &[], "o");
    assert_eq!(none[1], "--unicodes=");
}

#[test]
fn selection_expands_exactly() {
    let chars = selection_chars(&[UnicodeValue::Range('A', 'C'), UnicodeValue::Single('z')]);
    assert_eq!(chars, vec!['A', 'B', 'C', 'z']);
    let around = selection_chars(&[UnicodeValue::Range('\u{d7ff}', '\u{e000}')]);
    assert_eq!(around, vec!['\u{d7ff}', '\u{e000}']);
    assert!(selection_chars(&[UnicodeValue::Range('C', 'A')]).is_empty());
}

#[test]
fn garbage_is_no_font() {
    assert!(ttf_parser::Face::parse(b"not a font", 0).is_err());
}

#[test]
fn malformed_input_is_skipped() {
    let r = in_process_subset(false, Some(vec![1, 2, 3]));
    assert_eq!(r, Err(SkipReason::MalformedInput));
}

#[test]
fn declined_subset_is_skipped() {
    assert_eq!(in_process_subset(true, None), Err(SkipReason::EngineDeclined));
}

#[test]
fn subset_of_a_font_goes_to_the_compressor() {
    assert_eq!(in_process_subset(true, Some(vec![7, 8])), Ok(vec![7, 8]));
}

#[test]
fn declined_compression_is_skipped() {
    assert_eq!(in_process_artifact(None), Err(SkipReason::CompressionDeclined));
}

#[test]
fn subset_is_compressed_to_woff2() {
    let font = minimal_font();
    let parses = ttf_parser::Face::parse(&font, 0).is_ok();
    assert!(parses);
    let subset = in_process_subset(parses, Some(font.clone())).unwrap();
    let compressed = woff::version2::compress(&subset, String::new(), COMPRESSION_QUALITY, true);
    let w = in_process_artifact(compressed).unwrap();
    assert_eq!(&w[0..4], b"wOF2");
    assert_ne!(w, font);
}
