use opentako::tray::{
    config_page_url, decode_icon, placeholder_icon, tray_step, MenuChoice, TrayEvent,
};

#[test]
fn left_click_opens_the_page() {
    let s = tray_step(Some(TrayEvent::LeftClickUp), None);
    assert!(s.open_from_icon && !s.open_from_menu && !s.exit);
    let s = tray_step(Some(TrayEvent::Other), None);
    assert!(!s.open_from_icon && !s.open_from_menu && !s.exit);
}

#[test]
fn menu_opens_or_quits() {
    let s = tray_step(None, Some(MenuChoice::OpenConfig));
    assert!(!s.open_from_icon && s.open_from_menu && !s.exit);
    let s = tray_step(None, Some(MenuChoice::Quit));
    assert!(!s.open_from_icon && !s.open_from_menu && s.exit);
    let s = tray_step(Some(TrayEvent::LeftClickUp), Some(MenuChoice::Quit));
    assert!(s.open_from_icon && s.exit);
    let s = tray_step(None, Some(MenuChoice::Other));
    assert!(!s.open_from_icon && !s.open_from_menu && !s.exit);
    let s = tray_step(None, None);
    assert!(!s.open_from_icon && !s.open_from_menu && !s.exit);
}

#[test]
fn page_address() {
    assert_eq!(config_page_url(), "http://127.0.0.1:3000");
}

#[test]
fn placeholder_is_blue_square() {
    let p = placeholder_icon();
    assert_eq!((p.width, p.height), (32, 32));
    assert_eq!(p.rgba.len(), 32 * 32 * 4);
    for px in p.rgba.chunks(4) {
        assert_eq!(px, &[0, 120, 255, 255]);
    }
}

#[test]
fn decodes_png_pixels() {
    let img = image::RgbaImage::from_raw(2, 1, vec![1, 2, 3, 255, 9, 8, 7, 128]).unwrap();
    let mut png: Vec<u8> = Vec::new();
    img.write_to(&mut std::io::Cursor::new(&mut png), image::ImageFormat::Png).unwrap();
    let p = decode_icon(&png).ok().unwrap();
    assert_eq!((p.width, p.height), (2, 1));
    assert_eq!(p.rgba, vec![1, 2, 3, 255, 9, 8, 7, 128]);
}

#[test]
fn rejects_bytes_that_are_no_image() {
    assert!(decode_icon(&[1, 2, 3, 4]).is_err());
    assert!(decode_icon(&[]).is_err());
}

