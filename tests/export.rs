use elf2mem::export::bank_relative_directive;
use elf2mem::export::export_image;
use elf2mem::export::export_section;
use elf2mem::export::width_scaled_directive;
use elf2mem::export::ExportConfig;
use elf2mem::export::ExportError;
use elf2mem::layout::bank_lane;
use elf2mem::layout::flip_bytes;
use elf2mem::layout::order_bytes;
use elf2mem::text::stream;

fn config(word_width: u8, packed: bool, flip: bool, bank_count: u32, base: u64) -> ExportConfig {
    ExportConfig {
        word_width,
        packed,
        endianness_flip: flip,
        bank_count,
        bank_base_offset: base,
    }
}

/// Reads the bytes back from one stream: drops the comment and directive
/// lines and every separator, then decodes digit pairs.
fn read_back(text: &str) -> Vec<u8> {
    let digits: String = text
        .lines()
        .filter(|l| !l.starts_with("//") && !l.starts_with('@'))
        .flat_map(|l| l.chars())
        .filter(|c| *c != ' ')
        .collect();
    assert_eq!(digits.len() % 2, 0);
    (0..digits.len() / 2)
        .map(|k| u8::from_str_radix(&digits[2 * k..2 * k + 2], 16).unwrap())
        .collect()
}

#[test]
fn example_end_to_end() {
    let bytes = [0xde, 0xad, 0xbe, 0xef, 0x01, 0x02, 0x03, 0x04];
    let out = export_image(".text", 0x0, &bytes, &config(4, false, true, 1, 0)).unwrap();
    assert_eq!(out.len(), 1);
    assert_eq!(
        out[0],
        "// section \".text\"\n@0\nef be ad de \n04 03 02 01 \n\n"
    );
    let lines: Vec<&str> = out[0].lines().map(|l| l.trim_end()).collect();
    assert_eq!(lines, vec!["// section \".text\"", "@0", "ef be ad de", "04 03 02 01", ""]);
}

#[test]
fn width_scaled_directive_example() {
    assert_eq!(width_scaled_directive(0x1000, 4), 0x400);
    assert_eq!(width_scaled_directive(0x1003, 4), 0x400);
    let out = export_image(".text", 0x1000, &[1, 2, 3, 4], &config(4, false, false, 1, 0)).unwrap();
    assert!(out[0].starts_with("// section \".text\"\n@400\n"));
}

#[test]
fn bank_relative_directive_example() {
    assert_eq!(bank_relative_directive(0x5000_1000, 0x5000_0000), 0x1000);
    let bytes: Vec<u8> = (0u8..10).collect();
    let out = export_image(
        ".rodata",
        0x5000_1000,
        &bytes,
        &config(4, false, false, 4, 0x5000_0000),
    )
    .unwrap();
    assert_eq!(out.len(), 4);
    for s in &out {
        assert!(s.starts_with("// section \".rodata\"\n@1000\n"));
    }
    assert_eq!(out[0], "// section \".rodata\"\n@1000\n00 04 08 \n");
    assert_eq!(out[1], "// section \".rodata\"\n@1000\n01 05 09 \n");
    assert_eq!(out[2], "// section \".rodata\"\n@1000\n02 06 \n");
    assert_eq!(out[3], "// section \".rodata\"\n@1000\n03 07 \n");
}

#[test]
fn directive_is_lowercase_hex_without_padding() {
    let out = export_image("s", 0x1a2b, &[0xab], &config(1, true, false, 1, 0)).unwrap();
    assert_eq!(out[0], "// section \"s\"\n@1a2b\nab\n\n");
}

#[test]
fn round_trip_identity_config() {
    for n in [0usize, 1, 3, 5, 8, 13] {
        let bytes: Vec<u8> = (0..n).map(|i| (i * 37 + 5) as u8).collect();
        for packed in [false, true] {
            for w in [1u8, 3, 4] {
                let out = export_image(".text", 0x40, &bytes, &config(w, packed, false, 1, 0)).unwrap();
                assert_eq!(out.len(), 1);
                assert_eq!(read_back(&out[0]), bytes);
            }
        }
    }
}

#[test]
fn flip_twice_on_aligned_input() {
    let bytes: Vec<u8> = (1u8..=12).collect();
    let once = flip_bytes(&bytes);
    assert_eq!(once, vec![4, 3, 2, 1, 8, 7, 6, 5, 12, 11, 10, 9]);
    assert_eq!(flip_bytes(&once), bytes);
    assert_eq!(flip_bytes(&[]), Vec::<u8>::new());
}

#[test]
fn flip_reverses_short_final_group() {
    assert_eq!(flip_bytes(&[1, 2, 3, 4, 5, 6]), vec![4, 3, 2, 1, 6, 5]);
    assert_eq!(flip_bytes(&[7]), vec![7]);
    assert_eq!(order_bytes(&[1, 2, 3], false), vec![1, 2, 3]);
    assert_eq!(order_bytes(&[1, 2, 3], true), vec![3, 2, 1]);
}

#[test]
fn line_breaks_in_data() {
    // 5 bytes at width 4: one break after the fourth byte, one after the last.
    let data = stream("t", 0, &[1, 2, 3, 4, 5], Some(4), false);
    let body: String = data.splitn(3, '\n').nth(2).unwrap().to_string();
    assert_eq!(body, "01 02 03 04 \n05 \n");
    assert_eq!(body.matches('\n').count(), 2);
    let packed = stream("t", 0, &[1, 2, 3, 4, 5], Some(4), true);
    let packed_body: String = packed.splitn(3, '\n').nth(2).unwrap().to_string();
    assert_eq!(packed_body, "01020304\n05\n");
    assert_eq!(packed_body.matches('\n').count(), 2);
    // 8 bytes at width 4: the final terminator leaves a blank line.
    let aligned = stream("t", 0, &[0; 8], Some(4), false);
    let aligned_body: String = aligned.splitn(3, '\n').nth(2).unwrap().to_string();
    assert_eq!(aligned_body.matches('\n').count(), 3);
}

#[test]
fn interleaving_coverage() {
    let bytes: Vec<u8> = (100u8..111).collect();
    let n = 4usize;
    let lanes: Vec<Vec<u8>> = (0..n).map(|b| bank_lane(&bytes, n, b)).collect();
    assert_eq!(lanes.iter().map(|l| l.len()).sum::<usize>(), bytes.len());
    for (i, byte) in bytes.iter().enumerate() {
        assert_eq!(lanes[i % n][i / n], *byte);
    }
    let mut joined = Vec::new();
    for word in 0..(bytes.len() + n - 1) / n {
        for lane in &lanes {
            if let Some(b) = lane.get(word) {
                joined.push(*b);
            }
        }
    }
    assert_eq!(joined, bytes);
    assert_eq!(bank_lane(&[1, 2], 4, 3), Vec::<u8>::new());
}

#[test]
fn multi_bank_applies_flip_and_packing() {
    let bytes = [1u8, 2, 3, 4, 5, 6, 7, 8];
    let out = export_image("d", 0x10, &bytes, &config(4, true, true, 2, 0)).unwrap();
    assert_eq!(out.len(), 2);
    assert_eq!(out[0], "// section \"d\"\n@10\n04020806\n");
    assert_eq!(out[1], "// section \"d\"\n@10\n03010705\n");
}

#[test]
fn config_errors() {
    assert_eq!(
        export_image("s", 0, &[1], &config(0, false, false, 1, 0)),
        Err(ExportError::ZeroWordWidth)
    );
    assert_eq!(
        export_image("s", 0, &[1], &config(4, false, false, 0, 0)),
        Err(ExportError::ZeroBankCount)
    );
    assert_eq!(
        export_image("s", 0x10, &[1], &config(4, false, false, 4, 0x20)),
        Err(ExportError::BelowBankBase)
    );
    assert!(export_image("s", 0x10, &[1], &config(4, false, false, 1, 0x20)).is_ok());
}

#[test]
fn section_range() {
    let data: Vec<u8> = (0u8..16).collect();
    let out = export_section(".text", 0, &data, 4, 4, &config(4, false, false, 1, 0)).unwrap();
    assert_eq!(out[0], "// section \".text\"\n@0\n04 05 06 07 \n\n");
    assert_eq!(
        export_section(".text", 0, &data, 12, 5, &config(4, false, false, 1, 0)),
        Err(ExportError::RangeOutOfBounds)
    );
    assert_eq!(
        export_section(".text", 0, &data, u64::MAX, 2, &config(4, false, false, 1, 0)),
        Err(ExportError::RangeOutOfBounds)
    );
    assert_eq!(
        export_section(".text", 0, &data, 20, 0, &config(0, false, false, 1, 0)),
        Err(ExportError::ZeroWordWidth)
    );
    let empty = export_section(".text", 0, &data, 16, 0, &config(4, false, false, 1, 0)).unwrap();
    assert_eq!(empty[0], "// section \".text\"\n@0\n\n");
}
