//! Commands of the menu, the shortcuts and the command line that choose
//! between operations by the state: which kind of file a name opens, the
//! Delete key, moving the active layer, switching painting onto the mask.
use crate::app::{ends_with, lowercase, str_ends_with, to_lowercase};
use crate::editor::{App, AppView};
use crate::editor_layers::{spec_app_clear_layer, spec_app_move_layer};
use crate::editor_masks::spec_app_set_edit_mask;
use crate::editor_select::{active_locked, spec_app_delete_selection};
use crate::project::EXT_DOT;
use vstd::prelude::*;

verus! {

/// A file name that opens as a project: it ends with the project extension,
/// whatever the case of its letters.
pub open spec fn is_project_name(path: Seq<char>) -> bool {
    ends_with(lowercase(path), EXT_DOT@)
}

/// Whether `path` names a project file (opened with its layers) rather
/// than a flat image.
pub fn is_project_path(path: &str) -> (b: bool)
    ensures
        b == is_project_name(path@),
{
    let low = to_lowercase(path);
    str_ends_with(low.as_str(), EXT_DOT)
}

/// The active layer one place up, or nothing when it is on top.
pub open spec fn spec_app_layer_up(s: AppView) -> AppView {
    if s.doc.active + 1 < s.doc.layers.len() {
        spec_app_move_layer(s, (s.doc.active + 1) as nat)
    } else {
        s
    }
}

/// The active layer one place down, or nothing when it is at the bottom.
pub open spec fn spec_app_layer_down(s: AppView) -> AppView {
    if s.doc.active > 0 {
        spec_app_move_layer(s, (s.doc.active - 1) as nat)
    } else {
        s
    }
}

impl App {
    /// The Delete key: with a selection (`sel` is `Some`, holding its frame
    /// on the canvas if any), its pixels are cleared; without one the whole
    /// active layer is.
    pub fn delete_or_clear(&mut self, sel: Option<Option<(usize, usize, usize, usize)>>)
        requires
            old(self).wf(),
            sel is Some && !active_locked(old(self)@) ==> (old(self)@.sel_mask matches Some(m) ==> m.len()
                >= old(self).doc.width * old(self).doc.height),
        ensures
            final(self).wf(),
            final(self)@.doc != old(self)@.doc ==> final(self).doc.rev != old(self).doc.rev,
            final(self)@ == match sel {
                Some(_) => spec_app_delete_selection(old(self)@, sel),
                None => spec_app_clear_layer(old(self)@),
            },
    {
        match sel {
            Some(_) => self.delete_selection(sel),
            None => self.clear_layer(),
        }
    }

    /// Moves the active layer one place up; on top it stays.
    pub fn layer_up(&mut self)
        requires
            old(self).wf(),
        ensures
            final(self).wf(),
            final(self)@.doc != old(self)@.doc ==> final(self).doc.rev != old(self).doc.rev,
            final(self)@ == spec_app_layer_up(old(self)@),
    {
        let a = self.doc.active;
        let n = self.doc.layers.len();
        if n > 0 && a < n - 1 {
            self.move_layer(a + 1);
        }
    }

    /// Moves the active layer one place down; at the bottom it stays.
    pub fn layer_down(&mut self)
        requires
            old(self).wf(),
        ensures
            final(self).wf(),
            final(self)@.doc != old(self)@.doc ==> final(self).doc.rev != old(self).doc.rev,
            final(self)@ == spec_app_layer_down(old(self)@),
    {
        let a = self.doc.active;
        if a > 0 {
            self.move_layer(a - 1);
        }
    }

    /// Switches painting between the active layer's mask and its pixels.
    pub fn toggle_edit_mask(&mut self)
        requires
            old(self).wf(),
        ensures
            final(self).wf(),
            final(self)@.doc != old(self)@.doc ==> final(self).doc.rev != old(self).doc.rev,
            final(self)@ == spec_app_set_edit_mask(old(self)@, !old(self).edit_mask),
    {
        let on = !self.edit_mask;
        self.set_edit_mask(on);
    }
}

} // verus!
