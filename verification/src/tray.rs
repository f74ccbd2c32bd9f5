//! A system-tray definition: an RGBA icon, a title and a context menu
//! whose items report activations as [`TrayEvent`]s carrying the item id.
//! Registering it with the desktop is up to the embedding runtime.

use vstd::prelude::*;

verus! {

/// Raw RGBA image data for a tray icon: `width × height` pixels, four
/// bytes each.
#[derive(Clone, Debug)]
pub struct TrayIcon {
    rgba: Vec<u8>,
    width: u32,
    height: u32,
}

/// Returned when raw icon pixels do not match the given dimensions.
#[derive(Clone, Copy, Debug, PartialEq, Eq, Structural)]
pub struct InvalidTrayIcon;

impl InvalidTrayIcon {
    /// The text shown for this error.
    pub fn message(&self) -> (m: &'static str)
        ensures
            m@ == "tray icon data must contain exactly width × height × 4 RGBA bytes"@,
    {
        "tray icon data must contain exactly width × height × 4 RGBA bytes"
    }
}

impl TrayIcon {
    pub closed spec fn spec_rgba(&self) -> Seq<u8> {
        self.rgba@
    }

    pub closed spec fn spec_width(&self) -> u32 {
        self.width
    }

    pub closed spec fn spec_height(&self) -> u32 {
        self.height
    }

    /// Takes raw RGBA pixels when there are exactly `width × height × 4`
    /// bytes of them.
    pub fn from_rgba(rgba: Vec<u8>, width: u32, height: u32) -> (r: Result<TrayIcon, InvalidTrayIcon>)
        ensures
            r is Ok <==> rgba@.len() == width as int * height as int * 4,
            r matches Ok(icon) ==> icon.spec_rgba() == rgba@ && icon.spec_width() == width
                && icon.spec_height() == height,
    {
        let w = width as u128;
        let h = height as u128;
        assert(w * h <= 0xffff_ffff_ffff_ffff) by (nonlinear_arith)
            requires
                w <= 0xffff_ffff,
                h <= 0xffff_ffff;
        let bytes = w * h * 4;
        if rgba.len() as u128 != bytes {
            return Err(InvalidTrayIcon);
        }
        Ok(TrayIcon { rgba, width, height })
    }

    /// The pixels, four RGBA bytes each, row by row.
    pub fn rgba(&self) -> (r: &Vec<u8>)
        ensures
            r@ == self.spec_rgba(),
    {
        &self.rgba
    }

    pub fn width(&self) -> (r: u32)
        ensures
            r == self.spec_width(),
    {
        self.width
    }

    pub fn height(&self) -> (r: u32)
        ensures
            r == self.spec_height(),
    {
        self.height
    }
}

/// `rgba` reordered as ARGB, four bytes per whole pixel (a trailing partial
/// pixel is dropped): the byte order the StatusNotifierItem protocol uses.
pub open spec fn argb_of(rgba: Seq<u8>) -> Seq<u8> {
    Seq::new(
        (rgba.len() / 4 * 4) as nat,
        |i: int| {
            let p = i / 4 * 4;
            if i % 4 == 0 { rgba[p + 3] } else { rgba[p + i % 4 - 1] }
        },
    )
}

/// Reorders RGBA pixels as ARGB.
pub fn rgba_to_argb(rgba: &[u8]) -> (argb: Vec<u8>)
    ensures
        argb@ == argb_of(rgba@),
{
    let mut argb: Vec<u8> = Vec::new();
    let n = rgba.len() / 4;
    let mut k: usize = 0;
    assert(4 * n <= rgba@.len());
    while k < n
        invariant
            n == rgba@.len() / 4,
            4 * n <= rgba@.len(),
            rgba@.len() <= usize::MAX,
            k <= n,
            argb@.len() == 4 * k,
            forall|i: int| 0 <= i < 4 * k ==> #[trigger] argb@[i] == argb_of(rgba@)[i],
        decreases n - k,
    {
        assert(4 * k + 4 <= 4 * n);
        let p = 4 * k;
        argb.push(rgba[p + 3]);
        argb.push(rgba[p]);
        argb.push(rgba[p + 1]);
        argb.push(rgba[p + 2]);
        proof {
            assert forall|i: int| 0 <= i < 4 * (k + 1) implies #[trigger] argb@[i] == argb_of(rgba@)[i] by {
                if i >= 4 * k {
                    assert(i / 4 == k);
                }
            }
        }
        k = k + 1;
    }
    assert(argb@ =~= argb_of(rgba@));
    argb
}

/// A menu activation reported by the desktop's tray service.
#[derive(Clone, Debug, PartialEq, Eq)]
pub struct TrayEvent {
    /// The id given to [`TrayBuilder::item`].
    pub id: String,
}

/// An error returned while registering a tray with the desktop.
#[derive(Clone, Debug, PartialEq, Eq)]
pub enum TrayError {
    /// The target has no tray service backend.
    UnsupportedPlatform,
    /// The desktop's tray service refused the registration.
    Backend(String),
}

impl TrayError {
    /// The text shown for this error.
    pub fn message(&self) -> (m: String)
        ensures
            match self {
                TrayError::UnsupportedPlatform => m@
                    == "CreamUI system tray has no enabled backend for this target; enable a platform backend feature"@,
                TrayError::Backend(text) => m@ == text@,
            },
    {
        match self {
            TrayError::UnsupportedPlatform =>
                "CreamUI system tray has no enabled backend for this target; enable a platform backend feature".to_owned(),
            TrayError::Backend(text) => text.clone(),
        }
    }
}

/// One entry of the tray's context menu.
#[derive(Clone, Debug, PartialEq, Eq)]
pub struct MenuItem {
    pub id: String,
    pub label: String,
    pub enabled: bool,
}

/// A declarative tray definition.
pub struct TrayBuilder {
    id: String,
    icon: TrayIcon,
    title: String,
    items: Vec<MenuItem>,
}

impl TrayBuilder {
    pub closed spec fn spec_id(&self) -> Seq<char> {
        self.id@
    }

    pub closed spec fn spec_icon(&self) -> TrayIcon {
        self.icon
    }

    pub closed spec fn spec_title(&self) -> Seq<char> {
        self.title@
    }

    /// The menu items, in the order they were added, as (id, label,
    /// enabled).
    pub closed spec fn spec_items(&self) -> Seq<(Seq<char>, Seq<char>, bool)> {
        self.items@.map_values(|m: MenuItem| (m.id@, m.label@, m.enabled))
    }

    /// Starts a tray definition with its icon, the id `creamui-tray`, no
    /// title and an empty menu.
    pub fn new(icon: TrayIcon) -> (r: Self)
        ensures
            r.spec_id() == "creamui-tray"@,
            r.spec_icon() == icon,
            r.spec_title() == Seq::<char>::empty(),
            r.spec_items() == Seq::<(Seq<char>, Seq<char>, bool)>::empty(),
    {
        let r = TrayBuilder { id: "creamui-tray".to_owned(), icon, title: String::new(), items: Vec::new() };
        assert(r.spec_items() =~= Seq::<(Seq<char>, Seq<char>, bool)>::empty());
        r
    }

    /// Gives this tray a process-unique id.
    pub fn with_id(self, id: String) -> (r: Self)
        ensures
            r.spec_id() == id@,
            r.spec_icon() == self.spec_icon(),
            r.spec_title() == self.spec_title(),
            r.spec_items() == self.spec_items(),
    {
        TrayBuilder { id, ..self }
    }

    /// Sets the title or tooltip, where the desktop shows one.
    pub fn title(self, title: String) -> (r: Self)
        ensures
            r.spec_title() == title@,
            r.spec_id() == self.spec_id(),
            r.spec_icon() == self.spec_icon(),
            r.spec_items() == self.spec_items(),
    {
        TrayBuilder { title, ..self }
    }

    /// Adds an enabled menu item.
    pub fn item(self, id: String, label: String) -> (r: Self)
        ensures
            r.spec_items() == self.spec_items().push((id@, label@, true)),
            r.spec_id() == self.spec_id(),
            r.spec_icon() == self.spec_icon(),
            r.spec_title() == self.spec_title(),
    {
        self.push(MenuItem { id, label, enabled: true })
    }

    /// Adds a disabled menu item.
    pub fn disabled_item(self, id: String, label: String) -> (r: Self)
        ensures
            r.spec_items() == self.spec_items().push((id@, label@, false)),
            r.spec_id() == self.spec_id(),
            r.spec_icon() == self.spec_icon(),
            r.spec_title() == self.spec_title(),
    {
        self.push(MenuItem { id, label, enabled: false })
    }

    fn push(self, item: MenuItem) -> (r: Self)
        ensures
            r.spec_items() == self.spec_items().push((item.id@, item.label@, item.enabled)),
            r.spec_id() == self.spec_id(),
            r.spec_icon() == self.spec_icon(),
            r.spec_title() == self.spec_title(),
    {
        let mut r = self;
        r.items.push(item);
        assert(r.spec_items() =~= self.spec_items().push((item.id@, item.label@, item.enabled)));
        r
    }

    /// The tray's id.
    pub fn id(&self) -> (r: &String)
        ensures
            r@ == self.spec_id(),
    {
        &self.id
    }

    /// The tray's icon.
    pub fn icon(&self) -> (r: &TrayIcon)
        ensures
            *r == self.spec_icon(),
    {
        &self.icon
    }

    /// The tray's title.
    pub fn title_text(&self) -> (r: &String)
        ensures
            r@ == self.spec_title(),
    {
        &self.title
    }

    /// The menu items, in the order they were added.
    pub fn items(&self) -> (r: &Vec<MenuItem>)
        ensures
            r@.map_values(|m: MenuItem| (m.id@, m.label@, m.enabled)) == self.spec_items(),
    {
        &self.items
    }
}

} // verus!
