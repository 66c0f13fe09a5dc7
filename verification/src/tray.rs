//! Decisions of the system tray: what a click or a menu choice does, and
//! the pixels of the tray icon.
use vstd::prelude::*;

verus! {

#[verifier::external_type_specification]
#[verifier::external_body]
pub struct ExImageError(image::ImageError);

/// The 8-bit RGBA pixels, width and height of a PNG image, or `None` when
/// the bytes are no PNG image that the decoder can read.
pub uninterp spec fn decoded_rgba8(bytes: Seq<u8>) -> Option<(Seq<u8>, u32, u32)>;

/// Decodes a PNG image into 8-bit RGBA pixels.
///
/// Calls `image::load_from_memory_with_format` with the built-in PNG
/// format (which consults no process-wide decoding hooks), then
/// `DynamicImage::into_rgba8`, `ImageBuffer::dimensions` and
/// `ImageBuffer::into_raw` on the decoded image. Claims only that the
/// result is the one that the name `decoded_rgba8` gives the bytes.
#[verifier::external_body]
fn decode_rgba8(bytes: &[u8]) -> (r: Result<(Vec<u8>, u32, u32), image::ImageError>)
    ensures
        r is Ok <==> decoded_rgba8(bytes@) is Some,
        r matches Ok(p) ==> decoded_rgba8(bytes@) == Some((p.0@, p.1, p.2)),
{
    match image::load_from_memory_with_format(bytes, image::ImageFormat::Png) {
        Ok(img) => {
            let rgba = img.into_rgba8();
            let (width, height) = rgba.dimensions();
            Ok((rgba.into_raw(), width, height))
        },
        Err(e) => Err(e),
    }
}

/// The pixels of an icon.
pub struct IconPixels {
    /// Row-major RGBA bytes, four per pixel.
    pub rgba: Vec<u8>,
    pub width: u32,
    pub height: u32,
}

/// Why an icon could not be made.
pub enum IconError {
    /// The bytes are no PNG image that the decoder can read.
    Undecodable,
}

/// Decodes the tray icon, a PNG image.
pub fn decode_icon(bytes: &[u8]) -> (r: Result<IconPixels, IconError>)
    ensures
        r is Ok <==> decoded_rgba8(bytes@) is Some,
        r matches Ok(p) ==> decoded_rgba8(bytes@) == Some((p.rgba@, p.width, p.height)),
{
    match decode_rgba8(bytes) {
        Ok((rgba, width, height)) => Ok(IconPixels { rgba, width, height }),
        Err(_) => Err(IconError::Undecodable),
    }
}

/// Side length of the placeholder icon, in pixels.
pub open spec fn placeholder_side() -> u32 {
    32
}

/// The colour of the placeholder icon: opaque blue.
pub open spec fn placeholder_color() -> Seq<u8> {
    seq![0u8, 120u8, 255u8, 255u8]
}

/// A 32 by 32 icon of one opaque blue.
pub fn placeholder_icon() -> (p: IconPixels)
    ensures
        p.width == placeholder_side(),
        p.height == placeholder_side(),
        p.rgba@.len() == 4 * placeholder_side() * placeholder_side(),
        forall|k: int| 0 <= k < p.rgba@.len() ==> #[trigger] p.rgba@[k] == placeholder_color()[k % 4],
{
    let width: u32 = 32;
    let height: u32 = 32;
    let mut rgba: Vec<u8> = Vec::new();
    let mut i: u32 = 0;
    while i < width * height
        invariant
            i <= 1024,
            width == 32,
            height == 32,
            rgba@.len() == 4 * i,
            forall|k: int| 0 <= k < rgba@.len() ==> #[trigger] rgba@[k] == placeholder_color()[k % 4],
        decreases 1024 - i,
    {
        let ghost n = rgba@.len() as int;
        rgba.push(0);
        rgba.push(120);
        rgba.push(255);
        rgba.push(255);
        proof {
            assert forall|k: int| 0 <= k < rgba@.len() implies #[trigger] rgba@[k] == placeholder_color()[k % 4] by {
                if k >= n {
                    assert(n % 4 == 0);
                    assert(k % 4 == k - n) by (nonlinear_arith)
                        requires
                            n % 4 == 0,
                            n <= k < n + 4,
                    ;
                }
            }
        }
        i += 1;
    }
    IconPixels { rgba, width, height }
}

/// An event of the tray icon itself.
pub enum TrayEvent {
    /// The left mouse button was released over the icon.
    LeftClickUp,
    /// Any other icon event (other buttons, presses, moves).
    Other,
}

/// A choice in the tray menu.
pub enum MenuChoice {
    OpenConfig,
    Quit,
    Other,
}

/// What the tray loop does after one round of events.
pub struct TrayStep {
    /// Open the configuration page because the icon was clicked.
    pub open_from_icon: bool,
    /// Open the configuration page because the menu asked for it.
    pub open_from_menu: bool,
    /// Leave the event loop; otherwise wait for the next event.
    pub exit: bool,
}

/// The address of the configuration page.
pub fn config_page_url() -> (url: String)
    ensures
        url@ == "http://127.0.0.1:3000"@,
{
    "http://127.0.0.1:3000".to_owned()
}

/// The step for one round of the tray loop, given the icon event and the
/// menu choice received in it, if any: a left click on the icon opens the
/// configuration page, the menu opens it or quits, and nothing else acts.
pub fn tray_step(icon: Option<TrayEvent>, menu: Option<MenuChoice>) -> (s: TrayStep)
    ensures
        s.open_from_icon == (icon matches Some(TrayEvent::LeftClickUp)),
        s.open_from_menu == (menu matches Some(MenuChoice::OpenConfig)),
        s.exit == (menu matches Some(MenuChoice::Quit)),
{
    let open_from_icon = match icon {
        Some(TrayEvent::LeftClickUp) => true,
        _ => false,
    };
    let (open_from_menu, exit) = match menu {
        Some(MenuChoice::OpenConfig) => (true, false),
        Some(MenuChoice::Quit) => (false, true),
        _ => (false, false),
    };
    TrayStep { open_from_icon, open_from_menu, exit }
}

} // verus!
