use gpui_ide::bsl::{
    flash_start, flash_file_with, connect_failure, connect_progress, connect_step, program_failure, program_step, RetryStep,
    default_firmware_candidates, is_firmware_extension,
    build_packet, crc32, firmware_image, flash_bin, flash_bin_file, flash_segments, parse_device_info,
    parse_intel_hex, parse_ti_txt, program_data_packet, response_status, FirmwareFault, FlashError, Segment,
    CMD_PROGRAM_DATA, DEFAULT_BSL_BAUD, HDR_HOST, MAX_DATA_CHUNK,
};

#[test]
fn crc_matches_lckfb_style() {
    let core = [0x12u8];
    let c = crc32(&core);
    assert_eq!(c, crc32(&core));
}

#[test]
fn packet_layout() {
    let p = build_packet(0x12, &[]);
    assert_eq!(p[0], HDR_HOST);
    assert_eq!(p[1], 1);
    assert_eq!(p[2], 0);
    assert_eq!(p[3], 0x12);
    assert_eq!(p.len(), 3 + 1 + 4);
}

#[test]
fn crc_has_no_final_complement() {
    // The standard CRC-32 check value of "123456789" is 0xCBF43926; without
    // the final complement it is its bitwise inverse.
    assert_eq!(crc32(b"123456789"), !0xCBF4_3926u32);
    assert_eq!(crc32(&[]), 0xFFFF_FFFF);
}

#[test]
fn packet_ends_with_little_endian_crc_of_command_and_payload() {
    let p = build_packet(0x20, &[1, 2, 3]);
    assert_eq!(&p[..7], &[HDR_HOST, 4, 0, 0x20, 1, 2, 3]);
    let crc = crc32(&[0x20, 1, 2, 3]).to_le_bytes();
    assert_eq!(&p[7..], &crc);
}

#[test]
fn response_status_reads_fifth_byte_or_reports_short_reply() {
    assert_eq!(response_status(&[0x08, 2, 0, 0x3B, 0x05, 0, 0, 0, 0]), 0x05);
    assert_eq!(response_status(&[0x08, 2, 0, 0x3B]), 0xFF);
}

#[test]
fn intel_hex_merges_contiguous_records_and_applies_extended_address() {
    let text = ":0400000001020304F2\r\n:02000400AABB95\n:020000040001F9\n:01000000CC33\n:00000001FF\n:01000000DD22\n";
    let segs = parse_intel_hex(text).unwrap();
    assert_eq!(segs.len(), 2);
    assert_eq!(segs[0].address, 0);
    assert_eq!(segs[0].data, vec![1, 2, 3, 4, 0xAA, 0xBB]);
    assert_eq!(segs[1].address, 0x1_0000);
    assert_eq!(segs[1].data, vec![0xCC]);
}

#[test]
fn intel_hex_bad_checksum_is_reported() {
    let err = parse_intel_hex(":0400000001020304F3\n:00000001FF\n").unwrap_err();
    assert_eq!(err.kind, FirmwareFault::HexChecksum);
}

#[test]
fn intel_hex_without_data_is_refused() {
    let err = parse_intel_hex(":020000040001F9\n").unwrap_err();
    assert_eq!(err.kind, FirmwareFault::HexNoData);
    // An end-of-file record before any data ends the image at once.
    assert!(parse_intel_hex(":00000001FF\n:01000000CC33\n").unwrap().is_empty());
}

#[test]
fn ti_txt_reads_address_blocks() {
    let segs = parse_ti_txt("@0000\n01 02 03\n@0100\nAA BB\nq\n").unwrap();
    assert_eq!(segs.len(), 2);
    assert_eq!(segs[0].address, 0);
    assert_eq!(segs[0].data, vec![1, 2, 3]);
    assert_eq!(segs[1].address, 0x100);
    assert_eq!(segs[1].data, vec![0xAA, 0xBB]);
}

#[test]
fn ti_txt_bad_byte_is_reported() {
    let err = parse_ti_txt("@0000\n01 ZZ\nq\n").unwrap_err();
    assert_eq!(err.kind, FirmwareFault::TiBadByte);
}

#[test]
fn raw_binary_is_one_segment_at_zero() {
    let segs = firmware_image("BIN", &[9, 8, 7]).unwrap();
    assert_eq!(segs.len(), 1);
    assert_eq!(segs[0].address, 0);
    assert_eq!(segs[0].data, vec![9, 8, 7]);
    assert_eq!(firmware_image("bin", &[]).unwrap_err().kind, FirmwareFault::EmptyImage);
}

#[test]
fn non_utf8_text_image_is_refused() {
    assert_eq!(firmware_image("hex", &[0xFF, 0xFE]).unwrap_err().kind, FirmwareFault::NotUtf8);
}

#[test]
fn flash_plan_splits_into_chunks_that_reassemble_the_image() {
    let data: Vec<u8> = (0..300u32).map(|i| (i % 251) as u8).collect();
    let plan = flash_bin(&data, false, 0).unwrap();
    assert_eq!(plan.baud, DEFAULT_BSL_BAUD);
    assert!(plan.enter_bsl);
    assert_eq!(plan.total, 300);
    assert_eq!(plan.chunks.len(), 3);
    assert_eq!(plan.chunks[0].address, 0);
    assert_eq!(plan.chunks[1].address, 128);
    assert_eq!(plan.chunks[2].address, 256);
    assert!(plan.chunks.iter().all(|c| c.data.len() <= MAX_DATA_CHUNK && !c.data.is_empty()));
    let joined: Vec<u8> = plan.chunks.iter().flat_map(|c| c.data.clone()).collect();
    assert_eq!(joined, data);
}

#[test]
fn flash_plan_refusals() {
    assert!(matches!(flash_segments(&[], true, 115200), Err(FlashError::NoSegments)));
    let empty = [Segment { address: 0, data: vec![] }];
    assert!(matches!(flash_segments(&empty, true, 115200), Err(FlashError::EmptyImage)));
    let big = vec![0u8; 512 * 1024 + 1];
    assert!(matches!(flash_bin(&big, true, 9600), Err(FlashError::TooLarge(n)) if n == 512 * 1024 + 1));
    let plan = flash_bin(&[1], true, 57600).unwrap();
    assert_eq!(plan.baud, 57600);
    assert!(!plan.enter_bsl);
}

#[test]
fn flash_file_reports_firmware_errors() {
    assert!(matches!(flash_bin_file("txt", b"@XYZ\nq\n", true, 0), Err(FlashError::Firmware(e)) if e.kind == FirmwareFault::TiBadAddress));
    let plan = flash_bin_file("txt", b"@0010\n01 02\nq\n", true, 0).unwrap();
    assert_eq!(plan.segments[0].address, 0x10);
    assert_eq!(plan.chunks[0].data, vec![1, 2]);
}

#[test]
fn program_data_packet_carries_address_then_data() {
    let p = program_data_packet(0x1234_5678, &[0xAB]);
    assert_eq!(p, build_packet(CMD_PROGRAM_DATA, &[0x78, 0x56, 0x34, 0x12, 0xAB]));
}

#[test]
fn device_info_fields_are_little_endian() {
    let mut raw = vec![0x00, 0x08, 0x19, 0x00, 0x31];
    let mut block = [0u8; 24];
    block[0] = 0x01;
    block[2] = 0x02;
    block[4] = 0x03;
    block[10] = 0x00;
    block[11] = 0x01;
    block[12] = 0x80;
    raw.extend_from_slice(&block);
    raw.extend_from_slice(&[0u8; 4]);
    let info = parse_device_info(&raw).unwrap();
    assert_eq!(info.cmd_interpreter, 1);
    assert_eq!(info.build_id, 2);
    assert_eq!(info.app_version, 3);
    assert_eq!(info.buffer_size, 0x100);
    assert_eq!(info.sram, 0x80);
    assert!(parse_device_info(&[0x08, 0x19]).is_none());
}

#[test]
fn composed_image_is_the_preferred_default_firmware() {
    let cands = default_firmware_candidates();
    assert_eq!(cands.len(), 15);
    assert_eq!(cands[0], "firmware/build_composed/firmware_core.bin");
    assert_eq!(cands[1], "firmware/mspm0_lua_modular.bin");
    assert_eq!(cands[2], "mspm0_lua_modular.bin");
    assert_eq!(cands[14], "out.bin");
}

#[test]
fn firmware_extensions_ignore_case() {
    assert!(is_firmware_extension("bin"));
    assert!(is_firmware_extension("HEX"));
    assert!(is_firmware_extension("Txt"));
    assert!(!is_firmware_extension("elf"));
    assert!(!is_firmware_extension(""));
}

#[test]
fn flashing_starts_with_a_summary_of_the_image() {
    let (plan, msg) = flash_start("fw.bin", "BIN", &[1, 2, 3], false, 0).unwrap();
    assert_eq!(plan.total, 3);
    assert_eq!(msg, "固件 fw.bin · 3 B · 1 段 · 0x00000000-0x00000003");
    let hex = ":020000040000FA\n:0200100001AB42\n:02FFF000CDEF53\n:00000001FF\n";
    let (_, msg) = flash_start("a.hex", "hex", hex.as_bytes(), true, 0).unwrap();
    assert_eq!(msg, "固件 a.hex · 4 B · 2 段 · 0x00000010-0x00000012, 0x0000FFF0-0x0000FFF2");
    assert!(flash_start("e.bin", "bin", &[], false, 0).is_err());
}

#[test]
fn flashing_a_file_reports_the_summary_first_then_runs_the_plan() {
    let mut seen: Vec<String> = Vec::new();
    let r = flash_file_with("fw.bin", "bin", &[1, 2, 3], false, 0, |m: &str| seen.push(m.to_string()), |plan, mut report| {
        assert_eq!(plan.total, 3);
        assert!(plan.enter_bsl);
        report("ran");
        Err("port busy".to_string())
    });
    assert_eq!(r, Err("port busy".to_string()));
    assert_eq!(seen, vec!["固件 fw.bin · 3 B · 1 段 · 0x00000000-0x00000003".to_string(), "ran".to_string()]);
}

#[test]
fn refused_firmware_reports_nothing_and_runs_nothing() {
    let mut seen: Vec<String> = Vec::new();
    let mut ran = false;
    let r = flash_file_with("e.bin", "bin", &[], false, 0, |m: &str| seen.push(m.to_string()), |_, _| {
        ran = true;
        Ok(())
    });
    assert_eq!(r, Err("固件为空".to_string()));
    assert!(seen.is_empty());
    assert!(!ran);
    let r = flash_file_with("x.hex", "hex", b":0", false, 0, |m: &str| seen.push(m.to_string()), |_, _| Ok(()));
    assert!(r.unwrap_err().starts_with("HEX 行过短"));
    assert!(seen.is_empty());
}

#[test]
fn connection_is_tried_ten_times_with_a_fixed_pause() {
    assert_eq!(connect_step(1, true), RetryStep::Proceed);
    assert_eq!(connect_step(1, false), RetryStep::Retry { wait_ms: 300, next: 2 });
    assert_eq!(connect_step(9, false), RetryStep::Retry { wait_ms: 300, next: 10 });
    assert_eq!(connect_step(10, false), RetryStep::GiveUp { wait_ms: 300 });
    assert_eq!(connect_step(10, true), RetryStep::Proceed);
    assert_eq!(connect_progress(3), "连接中 3/10…");
    assert_eq!(
        connect_failure("no ACK", 9600),
        "BSL 连接失败（no ACK）。请确认已进入 BSL，CH340 接 PA10/PA11，波特率 9600。"
    );
}

#[test]
fn program_data_is_tried_four_times_with_growing_pauses() {
    assert_eq!(program_step(1, true), RetryStep::Proceed);
    assert_eq!(program_step(1, false), RetryStep::Retry { wait_ms: 120, next: 2 });
    assert_eq!(program_step(2, false), RetryStep::Retry { wait_ms: 160, next: 3 });
    assert_eq!(program_step(3, false), RetryStep::Retry { wait_ms: 200, next: 4 });
    assert_eq!(program_step(4, false), RetryStep::GiveUp { wait_ms: 240 });
    assert_eq!(program_failure("Program ACK=0x52 @0x00000000"), "Program ACK=0x52 @0x00000000 (已重试 4 次)");
}
