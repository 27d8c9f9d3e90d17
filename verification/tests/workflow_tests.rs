use gpui_ide::workflow::{
    after_flash_step, device_ran, is_jlink, upload_step, FlashAction, FlashEvent, UploadAction, UploadEvent,
    RECONNECT_TRIES,
};

#[test]
fn upload_failures_stop_or_offer_a_format() {
    assert_eq!(upload_step(UploadEvent::LfsReady, "main.luac", true), UploadAction::Go);
    assert_eq!(upload_step(UploadEvent::LfsNotMounted, "main.luac", true), UploadAction::OfferFormat);
    assert_eq!(upload_step(UploadEvent::ProbeFailed, "main.luac", true), UploadAction::OfferFormat);
    assert_eq!(upload_step(UploadEvent::CompileFailed, "main.luac", true), UploadAction::Stop);
    assert_eq!(upload_step(UploadEvent::Font16Failed { lfs: false }, "main.luac", true), UploadAction::Stop);
    assert_eq!(upload_step(UploadEvent::Font16Failed { lfs: true }, "main.luac", true), UploadAction::OfferFormat);
    assert_eq!(upload_step(UploadEvent::Font6Failed { lfs: false }, "main.luac", true), UploadAction::Go);
    assert_eq!(upload_step(UploadEvent::Font6Failed { lfs: true }, "main.luac", true), UploadAction::OfferFormat);
}

#[test]
fn a_started_script_counts_as_running() {
    let ran = device_ran("...\r\nSCRIPT_OK 120\r\n");
    assert!(ran);
    assert!(!device_ran("HEX_OK"));
    assert_eq!(upload_step(UploadEvent::ScriptFailed { lfs: true, ran }, "main.luac", true), UploadAction::RanWithoutAck);
    assert_eq!(upload_step(UploadEvent::ScriptFailed { lfs: true, ran }, "lib.luac", true), UploadAction::OfferFormat);
    assert_eq!(upload_step(UploadEvent::ScriptFailed { lfs: false, ran: false }, "main.luac", true), UploadAction::Stop);
    assert_eq!(upload_step(UploadEvent::ScriptUploaded, "main.luac", true), UploadAction::Running);
    assert_eq!(upload_step(UploadEvent::ScriptUploaded, "main.luac", false), UploadAction::Uploaded);
}

#[test]
fn after_a_flash_the_port_is_reopened_a_few_times() {
    assert_eq!(after_flash_step(0, FlashEvent::Flashed(false)), FlashAction::ReportFailure);
    assert_eq!(after_flash_step(0, FlashEvent::Flashed(true)), FlashAction::Reopen { attempt: 1, delay_ms: 600 });
    assert_eq!(after_flash_step(1, FlashEvent::Reopened(false)), FlashAction::Reopen { attempt: 2, delay_ms: 450 });
    assert_eq!(after_flash_step(RECONNECT_TRIES, FlashEvent::Reopened(false)), FlashAction::GiveUp);
    assert_eq!(after_flash_step(3, FlashEvent::Reopened(true)), FlashAction::Probe);
    assert_eq!(after_flash_step(3, FlashEvent::Probed(Some(true))), FlashAction::ListFiles);
    assert_eq!(after_flash_step(3, FlashEvent::Probed(Some(false))), FlashAction::AutoFormat);
    assert_eq!(after_flash_step(3, FlashEvent::Probed(None)), FlashAction::ReportNoResponse);
    assert!(is_jlink("SEGGER J-Link CDC UART (COM7)"));
    assert!(!is_jlink("USB-SERIAL CH340 (COM3)"));
}
