//! Editor state that is not drawing: selection drag modes, transform grips,
//! canvas operations and the file dialog.
pub use crate::editor::App;
use vstd::prelude::*;
use vstd::string::{StrSliceExecFns, StringExecFns};

verus! {

/// What the mouse does to the selection while the button is held.
#[derive(Clone, Copy, PartialEq, Eq, Debug, Structural)]
pub enum SelDrag {
    /// Nothing: the usual state.
    Idle,
    /// Dragging a new selection frame.
    Marquee,
    /// Dragging a floating fragment.
    Move,
}

/// What kind of file the document was opened from.
#[derive(Clone, Copy, PartialEq, Eq, Debug, Structural)]
pub enum PathKind {
    /// A `.tpaint` project, which keeps every layer.
    Project,
    /// A flat image (PNG/JPEG), the composite only.
    Image,
}

/// What the mouse holds during a free transform.
#[derive(Clone, Copy, PartialEq, Eq, Debug, Structural)]
pub enum TransformGrab {
    /// Nothing is held.
    Idle,
    /// A corner: index 0..3.
    Corner(usize),
    /// The whole frame.
    Move,
    /// Rotation around the centre.
    Rotate,
}

/// A transformation of the whole canvas.
#[derive(Clone, Copy, PartialEq, Eq, Debug, Structural)]
pub enum CanvasOp {
    Rotate90,
    Rotate180,
    Rotate270,
    MirrorH,
    MirrorV,
}

/// What the file dialog does: open or save a project, import an image as a
/// layer, or export a flat image.
#[derive(Clone, Copy, PartialEq, Eq, Debug, Structural)]
pub enum DialogMode {
    OpenProject,
    SaveProject,
    ImportImage,
    ExportPng,
    ExportPngAlpha,
    ExportJpeg,
}

pub open spec fn spec_title(m: DialogMode) -> Seq<char> {
    match m {
        DialogMode::OpenProject => "Открыть проект"@,
        DialogMode::SaveProject => "Сохранить проект"@,
        DialogMode::ImportImage => "Импорт изображения"@,
        DialogMode::ExportPng => "Экспорт в PNG"@,
        DialogMode::ExportPngAlpha => "Экспорт в PNG (прозрачный)"@,
        DialogMode::ExportJpeg => "Экспорт в JPEG"@,
    }
}

pub open spec fn spec_ext(m: DialogMode) -> Seq<char> {
    match m {
        DialogMode::OpenProject | DialogMode::SaveProject => ".tpaint"@,
        DialogMode::ExportJpeg => ".jpg"@,
        _ => ".png"@,
    }
}

pub open spec fn spec_filters(m: DialogMode) -> Seq<Seq<char>> {
    match m {
        DialogMode::OpenProject | DialogMode::SaveProject => seq!["tpaint"@],
        DialogMode::ExportJpeg => seq!["jpg"@, "jpeg"@],
        _ => seq!["png"@, "jpg"@, "jpeg"@],
    }
}

pub open spec fn spec_is_save(m: DialogMode) -> bool {
    m == DialogMode::SaveProject || m == DialogMode::ExportPng || m == DialogMode::ExportPngAlpha
        || m == DialogMode::ExportJpeg
}

pub open spec fn str_view(s: &str) -> Seq<char> {
    s@
}

impl DialogMode {
    pub fn title(self) -> (r: &'static str)
        ensures
            r@ == spec_title(self),
    {
        match self {
            DialogMode::OpenProject => "Открыть проект",
            DialogMode::SaveProject => "Сохранить проект",
            DialogMode::ImportImage => "Импорт изображения",
            DialogMode::ExportPng => "Экспорт в PNG",
            DialogMode::ExportPngAlpha => "Экспорт в PNG (прозрачный)",
            DialogMode::ExportJpeg => "Экспорт в JPEG",
        }
    }

    /// The default extension, with the dot.
    pub fn ext(self) -> (r: &'static str)
        ensures
            r@ == spec_ext(self),
    {
        match self {
            DialogMode::OpenProject | DialogMode::SaveProject => ".tpaint",
            DialogMode::ExportJpeg => ".jpg",
            _ => ".png",
        }
    }

    /// The extensions listed in the dialog.
    pub fn filters(self) -> (r: &'static [&'static str])
        ensures
            r@.map_values(|s: &'static str| str_view(s)) == spec_filters(self),
    {
        let r: &'static [&'static str] = match self {
            DialogMode::OpenProject | DialogMode::SaveProject => &["tpaint"],
            DialogMode::ExportJpeg => &["jpg", "jpeg"],
            _ => &["png", "jpg", "jpeg"],
        };
        assert(r@.map_values(|s: &'static str| str_view(s)) =~= spec_filters(self));
        r
    }

    /// The dialog writes a file (and does not open one).
    pub fn is_save(self) -> (r: bool)
        ensures
            r == spec_is_save(self),
    {
        match self {
            DialogMode::SaveProject | DialogMode::ExportPng | DialogMode::ExportPngAlpha
            | DialogMode::ExportJpeg => true,
            _ => false,
        }
    }
}


/// What `str::to_lowercase` makes of a string.
pub uninterp spec fn lowercase(s: Seq<char>) -> Seq<char>;

/// The string in lower case.
#[verifier::external_body]
pub(crate) fn to_lowercase(s: &str) -> (r: String)
    ensures
        r@ == lowercase(s@),
{
    s.to_lowercase()
}

/// What `Path::parent` gives for a path (as text), by the rules of the
/// platform the crate is built for.
pub uninterp spec fn parent_of(path: Seq<char>) -> Option<Seq<char>>;

/// What `Path::join` gives for a path and a name (as text), by the rules of
/// the platform the crate is built for.
pub uninterp spec fn joined(path: Seq<char>, name: Seq<char>) -> Seq<char>;

/// `Path::parent`: the parent directory of a path, if it has one.
#[verifier::external_body]
fn path_parent(path: &str) -> (r: Option<String>)
    ensures
        r is Some <==> parent_of(path@) is Some,
        r matches Some(u) ==> parent_of(path@) == Some(u@),
{
    std::path::Path::new(path).parent().map(|up| up.to_string_lossy().into_owned())
}

/// `Path::join`: a path joined with a name by the platform's rules.
#[verifier::external_body]
fn path_join(path: &str, name: &str) -> (r: String)
    ensures
        r@ == joined(path@, name@),
{
    std::path::Path::new(path).join(name).to_string_lossy().into_owned()
}

/// Whether the two strings are equal.
pub(crate) fn str_eq(a: &str, b: &str) -> (r: bool)
    ensures
        r == (a@ == b@),
{
    let n = a.unicode_len();
    if n != b.unicode_len() {
        return false;
    }
    let mut i: usize = 0;
    while i < n
        invariant
            n == a@.len(),
            n == b@.len(),
            i <= n,
            forall|k: int| 0 <= k < i ==> a@[k] == b@[k],
        decreases n - i,
    {
        if a.get_char(i) != b.get_char(i) {
            return false;
        }
        i = i + 1;
    }
    assert(a@ =~= b@);
    true
}

/// `s` ends with `suffix`.
pub open spec fn ends_with(s: Seq<char>, suffix: Seq<char>) -> bool {
    suffix.len() <= s.len() && s.subrange(s.len() - suffix.len(), s.len() as int) == suffix
}

pub(crate) fn str_ends_with(s: &str, suffix: &str) -> (r: bool)
    ensures
        r == ends_with(s@, suffix@),
{
    let n = s.unicode_len();
    let m = suffix.unicode_len();
    if m > n {
        return false;
    }
    let mut i: usize = 0;
    while i < m
        invariant
            n == s@.len(),
            m == suffix@.len(),
            m <= n,
            i <= m,
            forall|k: int| 0 <= k < i ==> s@[n - m + k] == suffix@[k],
        decreases m - i,
    {
        if s.get_char(n - m + i) != suffix.get_char(i) {
            assert(s@.subrange(n - m, n as int)[i as int] != suffix@[i as int]);
            return false;
        }
        i = i + 1;
    }
    assert(s@.subrange(n - m, n as int) =~= suffix@);
    true
}

/// The name a save dialog writes to: the typed name, or a default one, with
/// the mode's extension added when the name (in any case) lacks it.
pub open spec fn spec_accepted_name(file: Seq<char>, mode: DialogMode) -> Seq<char> {
    let base = if file.len() == 0 {
        "рисунок"@ + spec_ext(mode)
    } else {
        file
    };
    if spec_is_save(mode) && !ends_with(lowercase(base), spec_ext(mode)) {
        base + spec_ext(mode)
    } else {
        base
    }
}

/// The editor's own modal window for opening and saving: a directory
/// listing, the path and the file name.
pub struct FileDialog {
    pub mode: DialogMode,
    pub path: String,
    pub file: String,
    pub entries: Vec<(String, bool)>,
    pub scroll: usize,
    /// (full path, mode) for the main loop to pick up.
    pub result: Option<(String, DialogMode)>,
}

impl FileDialog {
    /// A dialog at `start`, or at `home` when `start` is empty. A save
    /// dialog proposes a default file name. The listing is filled by
    /// `fill_entries`.
    pub fn new(mode: DialogMode, start: &str, home: &str) -> (d: Self)
        ensures
            d.mode == mode,
            d.path@ == if start@.len() == 0 {
                home@
            } else {
                start@
            },
            d.file@ == if spec_is_save(mode) {
                "рисунок"@ + spec_ext(mode)
            } else {
                Seq::<char>::empty()
            },
            d.entries@.len() == 0,
            d.scroll == 0,
            d.result is None,
    {
        let path = if start.unicode_len() == 0 {
            String::from_str(home)
        } else {
            String::from_str(start)
        };
        let file = if mode.is_save() {
            let mut f = String::from_str("рисунок");
            f.append(mode.ext());
            f
        } else {
            String::new()
        };
        FileDialog { mode, path, file, entries: Vec::new(), scroll: 0, result: None }
    }

    /// Moves into the named subdirectory, or one level up for `..`; the
    /// listing is cleared until `fill_entries` refills it.
    pub fn enter_dir(&mut self, name: &str)
        ensures
            final(self).mode == old(self).mode,
            final(self).file == old(self).file,
            final(self).result == old(self).result,
            final(self).entries@.len() == 0,
            final(self).scroll == 0,
            name@ == ".."@ ==> final(self).path@ == match parent_of(old(self).path@) {
                Some(u) => u,
                None => old(self).path@,
            },
            name@ != ".."@ ==> final(self).path@ == joined(old(self).path@, name@),
    {
        if str_eq(name, "..") {
            match path_parent(self.path.as_str()) {
                Some(up) => {
                    self.path = up;
                },
                None => {},
            }
        } else {
            self.path = path_join(self.path.as_str(), name);
        }
        self.entries = Vec::new();
        self.scroll = 0;
    }

    /// The file name that `accept` uses.
    pub fn accepted_name(&self) -> (r: String)
        ensures
            r@ == spec_accepted_name(self.file@, self.mode),
    {
        let mut name = if self.file.unicode_len() == 0 {
            let mut f = String::from_str("рисунок");
            f.append(self.mode.ext());
            f
        } else {
            self.file.clone()
        };
        if self.mode.is_save() {
            let low = to_lowercase(name.as_str());
            if !str_ends_with(low.as_str(), self.mode.ext()) {
                name.append(self.mode.ext());
            }
        }
        name
    }

    /// Confirms the dialog: the result is the chosen file in the current
    /// directory.
    pub fn accept(&mut self)
        ensures
            final(self).mode == old(self).mode,
            final(self).path == old(self).path,
            final(self).file == old(self).file,
            final(self).entries == old(self).entries,
            final(self).scroll == old(self).scroll,
            final(self).result matches Some(r) && r.1 == old(self).mode && r.0@ == joined(
                old(self).path@,
                spec_accepted_name(old(self).file@, old(self).mode),
            ),
    {
        let name = self.accepted_name();
        let full = path_join(self.path.as_str(), name.as_str());
        self.result = Some((full, self.mode));
    }

    /// Closes the dialog without a file: the result is an empty path.
    pub fn close(&mut self)
        ensures
            final(self).mode == old(self).mode,
            final(self).path == old(self).path,
            final(self).file == old(self).file,
            final(self).entries == old(self).entries,
            final(self).scroll == old(self).scroll,
            final(self).result matches Some(r) && r.0@.len() == 0 && r.1 == old(self).mode,
    {
        self.result = Some((String::new(), self.mode));
    }
}

} // verus!
