use screen_translator_core::capture::{clip_to_screen, DesktopCapture};
use screen_translator_core::layout::is_cjk;
use screen_translator_core::ocr::OcrError;
use screen_translator_core::ui::{next_region_id, vk_to_str, DragRect};

#[test]
fn drag_bounds_are_normalized() {
    let d = DragRect { start: (300, 50), current: (100, 250) };
    assert_eq!(d.bounds(), (100, 50, 200, 200));
    let e = DragRect { start: (-5, -5), current: (-5, -5) };
    assert_eq!(e.bounds(), (-5, -5, 0, 0));
}

#[test]
fn key_names() {
    assert_eq!(vk_to_str(0x41), "A");
    assert_eq!(vk_to_str(0x70), "p");
    assert_eq!(vk_to_str(0xD800), "VK_55296");
    assert_eq!(vk_to_str(0x110000), "VK_1114112");
}

#[test]
fn region_ids_count_from_one() {
    assert_eq!(next_region_id(0), "r1");
    assert_eq!(next_region_id(9), "r10");
}

#[test]
fn capture_requests_are_clipped_to_the_screen() {
    assert_eq!(clip_to_screen(10, 20, 100, 50, 1920, 1080), Some((10, 20, 100, 50)));
    assert_eq!(clip_to_screen(1900, 1070, 100, 50, 1920, 1080), Some((1900, 1070, 20, 10)));
    assert_eq!(clip_to_screen(5000, 10, 100, 50, 1920, 1080), None);
    assert_eq!(clip_to_screen(10, 10, 0, 50, 1920, 1080), None);
}

#[test]
fn desktop_capture_keeps_its_output_geometry() {
    let c = DesktopCapture::from_desktop_coordinates(-1920, 0, 0, 1080);
    assert_eq!(c.origin(), (-1920, 0));
    assert_eq!(c.screen_size(), (1920, 1080));
    assert_eq!(c.clip_request(1800, 1000, 400, 400), Some((1800, 1000, 120, 80)));
}

#[test]
fn cjk_detection() {
    assert!(is_cjk('你'));
    assert!(is_cjk('カ'));
    assert!(is_cjk('한'));
    assert!(!is_cjk('A'));
    assert!(!is_cjk('é'));
}

#[test]
fn ocr_error_messages() {
    assert_eq!(OcrError::EmptyFrame.message(), "frame is empty");
    assert_eq!(OcrError::Provider("x".into()).message(), "OCR failure: x");
    assert_eq!(
        OcrError::UnsupportedLanguage("ja".into()).message(),
        "no OCR engine available for language (ja)"
    );
}
