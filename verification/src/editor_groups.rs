//! Layer folders, layer settings and renaming in the layer panel.
//!
//! A folder is a run of neighbouring layers with the same group name; its
//! topmost layer is the folder's header, which keeps whether it is open.
use crate::app::str_eq;
use crate::cli::{chars_of, trim_bounds, trimmed};
use crate::doc::{LayerMeta, LayerView, MetaView};
use crate::document::{decimal_text, shown_name, DocView};
use crate::editor::{lemma_ok_push, put_meta, set_layer, spec_end_stroke, App, AppView};
use crate::editor_layers::{decimal_string, fresh_history};
use crate::history::{spec_push, Action, ActionView, History, HistoryView, StepView};
use crate::psd_read::string_from_chars;
use vstd::prelude::*;

verus! {

/// The number of layers among the first `n` that are in a folder.
pub open spec fn grouped_count(ls: Seq<LayerView>, n: int) -> nat
    decreases n,
{
    if n <= 0 {
        0
    } else {
        grouped_count(ls, n - 1) + if ls[n - 1].meta.group is Some {
            1nat
        } else {
            0nat
        }
    }
}

/// The name of folder number `k`.
pub open spec fn group_name(k: nat) -> Seq<char> {
    "Группа "@ + decimal_text(k)
}

/// The editor after `make_group`: the active layer and every layer above
/// it go into a new folder; the history starts over.
pub open spec fn spec_app_make_group(s0: AppView) -> AppView {
    let s = spec_end_stroke(s0);
    let ls = s.doc.layers;
    let a = s.doc.active;
    if a + 1 >= ls.len() {
        AppView { notice: Some("Для папки нужен слой над активным"@), ..s }
    } else {
        let name = group_name(grouped_count(ls, ls.len() as int) / 2 + 1);
        AppView {
            doc: DocView {
                layers: Seq::new(
                    ls.len(),
                    |i: int|
                        if i >= a {
                            LayerView { meta: MetaView { group: Some(name), ..ls[i].meta }, ..ls[i] }
                        } else {
                            ls[i]
                        },
                ),
                ..s.doc
            },
            history: fresh_history(),
            notice: Some("Папка «"@ + name + "» создана"@),
            ..s
        }
    }
}

/// The editor after `ungroup`: every layer leaves its folder.
pub open spec fn spec_app_ungroup(s0: AppView) -> AppView {
    let s = spec_end_stroke(s0);
    let ls = s.doc.layers;
    if ls[s.doc.active as int].meta.group is None {
        AppView { notice: Some("Слой не в папке"@), ..s }
    } else {
        AppView {
            doc: DocView {
                layers: Seq::new(
                    ls.len(),
                    |i: int| LayerView { meta: MetaView { group: None, group_open: true, ..ls[i].meta }, ..ls[i] },
                ),
                ..s.doc
            },
            history: fresh_history(),
            notice: Some("Папка распущена"@),
            ..s
        }
    }
}

/// Layer `i` is the header of its folder: it is in one and the layer above
/// is not in the same.
pub open spec fn is_header(ls: Seq<LayerView>, i: int) -> bool {
    &&& 0 <= i < ls.len()
    &&& ls[i].meta.group is Some
    &&& (i + 1 >= ls.len() || ls[i + 1].meta.group != ls[i].meta.group)
}

/// How many layers from `i` downwards are in folder `name`, without a gap.
pub open spec fn run_below(ls: Seq<LayerView>, name: Seq<char>, i: int) -> nat
    decreases i + 1,
{
    if i < 0 || i >= ls.len() || ls[i].meta.group != Some(name) {
        0
    } else {
        1 + run_below(ls, name, i - 1)
    }
}

/// How many layers from `i` upwards are in folder `name`, without a gap.
pub open spec fn run_above(ls: Seq<LayerView>, name: Seq<char>, i: int) -> nat
    decreases ls.len() - i,
{
    if i < 0 || i >= ls.len() || ls[i].meta.group != Some(name) {
        0
    } else {
        1 + run_above(ls, name, i + 1)
    }
}

/// The layers of the folder whose header is `header`, from the header
/// down; none when the layer is in no folder.
pub open spec fn members_of(ls: Seq<LayerView>, header: int) -> Seq<nat> {
    if 0 <= header < ls.len() && ls[header].meta.group is Some {
        let name = ls[header].meta.group->0;
        Seq::new(1 + run_below(ls, name, header - 1), |k: int| (header - k) as nat)
    } else {
        Seq::empty()
    }
}

/// Layer `i` is listed in the layer panel: a layer inside a closed folder
/// is hidden.
pub open spec fn listed(ls: Seq<LayerView>, i: int) -> bool {
    if !(0 <= i < ls.len()) || ls[i].meta.group is None {
        true
    } else {
        let r = run_above(ls, ls[i].meta.group->0, i + 1);
        if r == 0 {
            true
        } else {
            ls[i + r].meta.group_open
        }
    }
}

/// `h` with the steps `st` recorded in order.
pub open spec fn push_all(h: HistoryView, st: Seq<StepView>) -> HistoryView
    decreases st.len(),
{
    if st.len() == 0 {
        h
    } else {
        spec_push(push_all(h, st.drop_last()), st.last())
    }
}

/// The editor after `toggle_group_visibility(header)`: the folder is shown
/// when all its layers are hidden, and hidden otherwise; each layer's
/// change is a history step of its own.
pub open spec fn spec_app_toggle_group_visibility(s: AppView, header: int) -> AppView {
    let ls = s.doc.layers;
    let ms = members_of(ls, header);
    if ms.len() == 0 {
        s
    } else {
        let want = !(exists|k: int| 0 <= k < ms.len() && (#[trigger] ls[ms[k] as int]).meta.visible);
        let low = header - (ms.len() - 1);
        AppView {
            doc: DocView {
                layers: Seq::new(
                    ls.len(),
                    |i: int|
                        if low <= i <= header {
                            LayerView { meta: MetaView { visible: want, ..ls[i].meta }, ..ls[i] }
                        } else {
                            ls[i]
                        },
                ),
                ..s.doc
            },
            history: push_all(
                s.history,
                Seq::new(
                    ms.len(),
                    |k: int|
                        StepView {
                            name: if want {
                                "Папка показана"@
                            } else {
                                "Папка скрыта"@
                            },
                            action: ActionView::LayerMeta {
                                index: ms[k],
                                before: ls[ms[k] as int].meta,
                                after: MetaView { visible: want, ..ls[ms[k] as int].meta },
                            },
                        },
                ),
            ),
            ..s
        }
    }
}

/// The history name of a change of layer settings.
pub open spec fn meta_change_name(before: MetaView, after: MetaView) -> Seq<char> {
    if after.visible != before.visible {
        "Видимость слоя"@
    } else if after.locked != before.locked {
        "Блокировка слоя"@
    } else if after.blend != before.blend {
        "Режим наложения"@
    } else {
        "Непрозрачность слоя"@
    }
}

/// The editor after `set_layer_meta(index, after)`.
pub open spec fn spec_app_set_layer_meta(s: AppView, index: int, after: MetaView) -> AppView {
    let before = s.doc.layers[index].meta;
    if before == after {
        s
    } else {
        AppView {
            doc: set_layer(s.doc, index, LayerView { meta: after, ..s.doc.layers[index] }),
            history: spec_push(
                s.history,
                StepView {
                    name: meta_change_name(before, after),
                    action: ActionView::LayerMeta { index: index as nat, before, after },
                },
            ),
            ..s
        }
    }
}

/// The editor after `finish_rename(save)`.
pub open spec fn spec_app_finish_rename(s: AppView, save: bool) -> AppView {
    match s.rename {
        None => s,
        Some(i) => {
            let name = trimmed(s.rename_buf);
            let s1 = AppView { rename: None, ..s };
            let s2 = if save && name.len() > 0 && i < s.doc.layers.len() {
                spec_app_set_layer_meta(s1, i as int, MetaView { name, ..s.doc.layers[i as int].meta })
            } else {
                s1
            };
            AppView { rename_buf: Seq::empty(), ..s2 }
        },
    }
}

proof fn lemma_run_below(ls: Seq<LayerView>, name: Seq<char>, i: int)
    ensures
        run_below(ls, name, i) <= if i < 0 {
            0
        } else {
            i + 1
        },
    decreases i + 1,
{
    if !(i < 0 || i >= ls.len() || ls[i].meta.group != Some(name)) {
        lemma_run_below(ls, name, i - 1);
    }
}

/// The members of a folder are the header and the layers just under it.
proof fn lemma_members(ls: Seq<LayerView>, header: int)
    ensures
        forall|j: int|
            0 <= j < members_of(ls, header).len() ==> #[trigger] members_of(ls, header)[j] == header - j && header - j
                >= 0 && header - j < ls.len(),
        members_of(ls, header).len() > 0 ==> 0 <= header < ls.len(),
{
    if 0 <= header < ls.len() && ls[header].meta.group is Some {
        lemma_run_below(ls, ls[header].meta.group->0, header - 1);
    }
}

fn same_group(g: &Option<String>, name: &String) -> (r: bool)
    ensures
        r == (crate::doc::opt_string_view(*g) == Some(name@)),
{
    match g {
        Some(x) => str_eq(x.as_str(), name.as_str()),
        None => false,
    }
}

fn same_opt(a: &Option<String>, b: &Option<String>) -> (r: bool)
    ensures
        r == (crate::doc::opt_string_view(*a) == crate::doc::opt_string_view(*b)),
{
    match (a, b) {
        (Some(x), Some(y)) => str_eq(x.as_str(), y.as_str()),
        (None, None) => true,
        _ => false,
    }
}

fn same_meta(a: &LayerMeta, b: &LayerMeta) -> (r: bool)
    ensures
        r == (a@ == b@),
{
    str_eq(a.name.as_str(), b.name.as_str()) && a.visible == b.visible && a.locked == b.locked && a.opacity
        == b.opacity && a.blend == b.blend && same_opt(&a.group, &b.group) && a.group_open == b.group_open
}

fn copy_text(s: &String) -> (r: String)
    ensures
        r@ == s@,
{
    s.clone()
}

impl App {
    /// Puts the active layer and every layer above it in a new folder (see
    /// `spec_app_make_group`).
    pub fn make_group(&mut self)
        requires
            old(self).wf(),
        ensures
            final(self).wf(),
            final(self)@.doc != old(self)@.doc ==> final(self).doc.rev != old(self).doc.rev,
            final(self)@ == spec_app_make_group(old(self)@),
    {
        self.end_stroke();
        let a = self.doc.active;
        let n = self.doc.layers.len();
        if a + 1 >= n {
            self.notify("Для папки нужен слой над активным");
            return;
        }
        let ghost s = self@;
        let ghost ls = s.doc.layers;
        let mut c: usize = 0;
        let mut i: usize = 0;
        let ghost r0 = self.doc.rev;
        while i < n
            invariant
            self.doc.rev == r0,
                n == self.doc.layers@.len(),
                ls == self@.doc.layers,
                i <= n,
                c == grouped_count(ls, i as int),
                c <= i,
            decreases n - i,
        {
            assert(ls[i as int] == self.doc.layers@[i as int]@);
            if self.doc.layers[i].meta.group.is_some() {
                c = c + 1;
            }
            i = i + 1;
        }
        let mut name = "Группа ".to_owned();
        name.append(decimal_string(c / 2 + 1).as_str());
        let ghost gname = name@;
        let mut j: usize = a;
        assert(self.doc@.layers =~= Seq::new(
            n as nat,
            |k: int|
                if a <= k < a {
                    LayerView { meta: MetaView { group: Some(gname), ..ls[k].meta }, ..ls[k] }
                } else {
                    ls[k]
                },
        ));
        while j < n
            invariant
            self.doc.rev == r0,
                a <= j <= n,
                n == ls.len(),
                n == self.doc.layers@.len(),
                name@ == gname,
                self.doc.wf(),
                self@ == (AppView {
                    doc: DocView {
                        layers: Seq::new(
                            n as nat,
                            |k: int|
                                if a <= k < j {
                                    LayerView { meta: MetaView { group: Some(gname), ..ls[k].meta }, ..ls[k] }
                                } else {
                                    ls[k]
                                },
                        ),
                        ..s.doc
                    },
                    ..s
                }),
            decreases n - j,
        {
            let ghost d = self.doc@;
            let mut l = self.doc.layers.remove(j);
            assert(l@ == d.layers[j as int]);
            l.meta.group = Some(copy_text(&name));
            self.doc.layers.insert(j, l);
            assert(self.doc@.layers =~= d.layers.update(
                j as int,
                LayerView { meta: MetaView { group: Some(gname), ..d.layers[j as int].meta }, ..d.layers[j as int] },
            ));
            assert(self.doc@.layers =~= Seq::new(
                n as nat,
                |k: int|
                    if a <= k < j + 1 {
                        LayerView { meta: MetaView { group: Some(gname), ..ls[k].meta }, ..ls[k] }
                    } else {
                        ls[k]
                    },
            ));
            j = j + 1;
        }
        self.history = History::new(40);
        self.doc.touch();
        let mut m = "Папка «".to_owned();
        m.append(name.as_str());
        m.append("» создана");
        self.notice = Some(m);
        assert(self.history@.steps =~= fresh_history().steps);
        assert(self.history@.undone =~= fresh_history().undone);
        assert(self.doc@.layers =~= spec_app_make_group(s).doc.layers);
    }

    /// Takes every layer out of its folder (see `spec_app_ungroup`).
    pub fn ungroup(&mut self)
        requires
            old(self).wf(),
        ensures
            final(self).wf(),
            final(self)@.doc != old(self)@.doc ==> final(self).doc.rev != old(self).doc.rev,
            final(self)@ == spec_app_ungroup(old(self)@),
    {
        self.end_stroke();
        let a = self.doc.active;
        let ghost s = self@;
        let ghost ls = s.doc.layers;
        assert(ls[a as int] == self.doc.layers@[a as int]@);
        if self.doc.layers[a].meta.group.is_none() {
            self.notify("Слой не в папке");
            return;
        }
        let n = self.doc.layers.len();
        let mut j: usize = 0;
        assert(self.doc@.layers =~= Seq::new(
            n as nat,
            |k: int|
                if k < 0 {
                    LayerView { meta: MetaView { group: None, group_open: true, ..ls[k].meta }, ..ls[k] }
                } else {
                    ls[k]
                },
        ));
        let ghost r0 = self.doc.rev;
        while j < n
            invariant
            self.doc.rev == r0,
                j <= n,
                n == ls.len(),
                n == self.doc.layers@.len(),
                self.doc.wf(),
                self@ == (AppView {
                    doc: DocView {
                        layers: Seq::new(
                            n as nat,
                            |k: int|
                                if k < j {
                                    LayerView { meta: MetaView { group: None, group_open: true, ..ls[k].meta }, ..ls[k] }
                                } else {
                                    ls[k]
                                },
                        ),
                        ..s.doc
                    },
                    ..s
                }),
            decreases n - j,
        {
            let ghost d = self.doc@;
            let mut l = self.doc.layers.remove(j);
            assert(l@ == d.layers[j as int]);
            l.meta.group = None;
            l.meta.group_open = true;
            self.doc.layers.insert(j, l);
            assert(self.doc@.layers =~= d.layers.update(
                j as int,
                LayerView { meta: MetaView { group: None, group_open: true, ..d.layers[j as int].meta }, ..d.layers[j as int] },
            ));
            assert(self.doc@.layers =~= Seq::new(
                n as nat,
                |k: int|
                    if k < j + 1 {
                        LayerView { meta: MetaView { group: None, group_open: true, ..ls[k].meta }, ..ls[k] }
                    } else {
                        ls[k]
                    },
            ));
            j = j + 1;
        }
        self.history = History::new(40);
        self.doc.touch();
        self.notify("Папка распущена");
        assert(self.history@.steps =~= fresh_history().steps);
        assert(self.history@.undone =~= fresh_history().undone);
        assert(self.doc@.layers =~= spec_app_ungroup(s).doc.layers);
        assert(self.doc@.layers.len() > 0);
    }

    /// Whether the folder headed by layer `index` is open (a missing layer
    /// counts as open).
    pub fn group_open(&self, index: usize) -> (r: bool)
        ensures
            r == if index < self@.doc.layers.len() {
                self@.doc.layers[index as int].meta.group_open
            } else {
                true
            },
    {
        if index < self.doc.layers.len() {
            assert(self@.doc.layers[index as int] == self.doc.layers@[index as int]@);
            self.doc.layers[index].meta.group_open
        } else {
            true
        }
    }

    /// Opens or closes the folder headed by layer `index`.
    pub fn toggle_group(&mut self, index: usize)
        requires
            old(self).wf(),
        ensures
            final(self).wf(),
            final(self)@ == if index < old(self)@.doc.layers.len() {
                let l = old(self)@.doc.layers[index as int];
                AppView {
                    doc: set_layer(
                        old(self)@.doc,
                        index as int,
                        LayerView { meta: MetaView { group_open: !l.meta.group_open, ..l.meta }, ..l },
                    ),
                    ..old(self)@
                }
            } else {
                old(self)@
            },
    {
        if index < self.doc.layers.len() {
            let ghost d = self.doc@;
            let mut l = self.doc.layers.remove(index);
            assert(l@ == d.layers[index as int]);
            l.meta.group_open = !l.meta.group_open;
            self.doc.layers.insert(index, l);
            assert(self.doc@.layers =~= d.layers.update(
                index as int,
                LayerView {
                    meta: MetaView { group_open: !d.layers[index as int].meta.group_open, ..d.layers[index as int].meta },
                    ..d.layers[index as int]
                },
            ));
        }
    }

    /// Whether layer `index` heads a folder (see `is_header`).
    pub fn is_group_header(&self, index: usize) -> (r: bool)
        ensures
            r == is_header(self@.doc.layers, index as int),
    {
        let n = self.doc.layers.len();
        if index >= n {
            return false;
        }
        assert(self@.doc.layers[index as int] == self.doc.layers@[index as int]@);
        match &self.doc.layers[index].meta.group {
            None => false,
            Some(name) => {
                if index + 1 >= n {
                    true
                } else {
                    assert(self@.doc.layers[index + 1] == self.doc.layers@[index + 1]@);
                    !same_group(&self.doc.layers[index + 1].meta.group, name)
                }
            },
        }
    }

    /// The layers of the folder headed by `header`, from the header down
    /// (see `members_of`).
    pub fn group_members(&self, header: usize) -> (r: Vec<usize>)
        ensures
            r@.len() == members_of(self@.doc.layers, header as int).len(),
            forall|k: int| 0 <= k < r@.len() ==> r@[k] == members_of(self@.doc.layers, header as int)[k],
    {
        let ghost ls = self@.doc.layers;
        let mut out: Vec<usize> = Vec::new();
        if header >= self.doc.layers.len() {
            return out;
        }
        assert(ls[header as int] == self.doc.layers@[header as int]@);
        match &self.doc.layers[header].meta.group {
            None => out,
            Some(name) => {
                out.push(header);
                let mut i = header;
                while i > 0 && same_group(&self.doc.layers[i - 1].meta.group, name)
                    invariant
                        i <= header < ls.len(),
                        ls == self@.doc.layers,
                        ls.len() == self.doc.layers@.len(),
                        ls[header as int].meta.group == Some(name@),
                        out@.len() == header - i + 1,
                        forall|k: int| 0 <= k < out@.len() ==> out@[k] == header - k,
                        run_below(ls, name@, header - 1) == (header - i) + run_below(ls, name@, i - 1),
                    decreases i,
                {
                    assert(ls[i - 1] == self.doc.layers@[i - 1]@);
                    assert(run_below(ls, name@, i - 1) == 1 + run_below(ls, name@, i - 2));
                    out.push(i - 1);
                    i = i - 1;
                }
                proof {
                    if i > 0 {
                        assert(ls[i - 1] == self.doc.layers@[i - 1]@);
                    }
                    assert(run_below(ls, name@, i - 1) == 0);
                }
                out
            },
        }
    }

    /// Whether layer `index` is listed in the layer panel (see `listed`).
    pub fn layer_visible_in_panel(&self, index: usize) -> (r: bool)
        ensures
            r == listed(self@.doc.layers, index as int),
    {
        let ghost ls = self@.doc.layers;
        let n = self.doc.layers.len();
        if index >= n {
            return true;
        }
        assert(ls[index as int] == self.doc.layers@[index as int]@);
        match &self.doc.layers[index].meta.group {
            None => true,
            Some(name) => {
                let mut h = index + 1;
                while h < n
                    invariant
                        index < h <= n,
                        n == ls.len(),
                        ls == self@.doc.layers,
                        ls.len() == self.doc.layers@.len(),
                        ls[index as int].meta.group == Some(name@),
                        run_above(ls, name@, index + 1) == (h - index - 1) + run_above(ls, name@, h as int),
                        h > index + 1 ==> ls[h - 1].meta.group == Some(name@) && !is_header(ls, h - 1),
                    decreases n - h,
                {
                    assert(ls[h as int] == self.doc.layers@[h as int]@);
                    if !same_group(&self.doc.layers[h].meta.group, name) {
                        assert(run_above(ls, name@, h as int) == 0);
                        return true;
                    }
                    assert(run_above(ls, name@, h as int) == 1 + run_above(ls, name@, h + 1));
                    if self.is_group_header(h) {
                        assert(run_above(ls, name@, h + 1) == 0);
                        return self.doc.layers[h].meta.group_open;
                    }
                    h = h + 1;
                }
                assert(run_above(ls, name@, h as int) == 0);
                true
            },
        }
    }

    /// Shows a folder whose layers are all hidden, and hides it otherwise
    /// (see `spec_app_toggle_group_visibility`).
    pub fn toggle_group_visibility(&mut self, header: usize)
        requires
            old(self).wf(),
        ensures
            final(self).wf(),
            final(self)@.doc != old(self)@.doc ==> final(self).doc.rev != old(self).doc.rev,
            final(self)@ == spec_app_toggle_group_visibility(old(self)@, header as int),
    {
        let members = self.group_members(header);
        if members.len() == 0 {
            return;
        }
        let ghost s = self@;
        let ghost ls = s.doc.layers;
        let ghost ms = members_of(ls, header as int);
        assert(members@.len() == ms.len());
        proof {
            lemma_members(ls, header as int);
        }
        let cnt = members.len();
        let mut any = false;
        let mut k: usize = 0;
        let ghost r0 = self.doc.rev;
        while k < cnt
            invariant
            self.doc.rev == r0,
                k <= cnt,
                cnt == members@.len(),
                members@.len() == ms.len(),
                forall|j: int| 0 <= j < members@.len() ==> members@[j] == ms[j],
                forall|j: int| 0 <= j < ms.len() ==> ms[j] < ls.len(),
                ls == self@.doc.layers,
                ls.len() == self.doc.layers@.len(),
                any == exists|j: int| 0 <= j < k && (#[trigger] ls[ms[j] as int]).meta.visible,
            decreases cnt - k,
        {
            let m = members[k];
            assert(members@[k as int] == ms[k as int]);
            assert(ms[k as int] < ls.len());
            assert(ls[m as int] == self.doc.layers@[m as int]@);
            if self.doc.layers[m].meta.visible {
                any = true;
            }
            k = k + 1;
        }
        let want = !any;
        let ghost low = header - (ms.len() - 1);
        let ghost name = if want {
            "Папка показана"@
        } else {
            "Папка скрыта"@
        };
        let ghost steps = Seq::new(
            ms.len(),
            |j: int|
                StepView {
                    name: name,
                    action: ActionView::LayerMeta {
                        index: ms[j],
                        before: ls[ms[j] as int].meta,
                        after: MetaView { visible: want, ..ls[ms[j] as int].meta },
                    },
                },
        );
        let mut k: usize = 0;
        assert(self.doc@.layers =~= Seq::new(
            ls.len(),
            |i: int|
                if header - 0 < i <= header {
                    LayerView { meta: MetaView { visible: want, ..ls[i].meta }, ..ls[i] }
                } else {
                    ls[i]
                },
        ));
        assert(steps.take(0) =~= Seq::<StepView>::empty());
        while k < cnt
            invariant
            self.doc.rev == r0,
                k <= cnt,
                cnt == members@.len(),
                members@.len() == ms.len(),
                ms.len() >= 1,
                steps == Seq::new(
                    ms.len(),
                    |j: int|
                        StepView {
                            name: name,
                            action: ActionView::LayerMeta {
                                index: ms[j],
                                before: ls[ms[j] as int].meta,
                                after: MetaView { visible: want, ..ls[ms[j] as int].meta },
                            },
                        },
                ),
                name == if want {
                    "Папка показана"@
                } else {
                    "Папка скрыта"@
                },
                forall|j: int| 0 <= j < members@.len() ==> members@[j] == ms[j],
                forall|j: int| 0 <= j < ms.len() ==> ms[j] == header - j,
                header < ls.len(),
                low == header - (ms.len() - 1),
                low >= 0,
                self.wf(),
                crate::editor::history_ok(self.history@),
                self@ == (AppView {
                    doc: DocView {
                        layers: Seq::new(
                            ls.len(),
                            |i: int|
                                if header - k < i <= header {
                                    LayerView { meta: MetaView { visible: want, ..ls[i].meta }, ..ls[i] }
                                } else {
                                    ls[i]
                                },
                        ),
                        ..s.doc
                    },
                    history: push_all(s.history, steps.take(k as int)),
                    ..s
                }),
            decreases cnt - k,
        {
            let m = members[k];
            assert(members@[k as int] == ms[k as int]);
            assert(m == header - k);
            let ghost d = self.doc@;
            let ghost h0 = self.history@;
            assert(d.layers[m as int] == ls[m as int]);
            assert(d.layers[m as int] == self.doc.layers@[m as int]@);
            let before = self.doc.layers[m].meta.copy();
            let mut after = before.copy();
            after.visible = want;
            put_meta(&mut self.doc, m, copy_meta(&after));
            let act = Action::LayerMeta { index: m, before, after };
            let label = if want {
                "Папка показана"
            } else {
                "Папка скрыта"
            };
            assert(before@ == ls[m as int].meta);
            assert(after@ == MetaView { visible: want, ..ls[m as int].meta });
            assert(ms[k as int] == m as nat);
            assert(steps[k as int].action == ActionView::LayerMeta {
                index: ms[k as int],
                before: ls[ms[k as int] as int].meta,
                after: MetaView { visible: want, ..ls[ms[k as int] as int].meta },
            });
            assert(act@ == steps[k as int].action);
            proof {
                lemma_ok_push(h0, StepView { name: label@, action: act@ });
            }
            self.history.push(label, act);
            assert(self.doc@.layers == d.layers.update(m as int, LayerView { meta: MetaView { visible: want, ..ls[m as int].meta }, ..d.layers[m as int] }));
            assert(steps.take(k + 1).drop_last() =~= steps.take(k as int));
            assert(self.doc@.layers =~= Seq::new(
                ls.len(),
                |i: int|
                    if header - (k + 1) < i <= header {
                        LayerView { meta: MetaView { visible: want, ..ls[i].meta }, ..ls[i] }
                    } else {
                        ls[i]
                    },
            ));
            k = k + 1;
        }
        assert(steps.take(cnt as int) =~= steps);
        self.doc.touch();
        proof {
            let spec_steps = Seq::new(
                ms.len(),
                |j: int|
                    StepView {
                        name: if want {
                            "Папка показана"@
                        } else {
                            "Папка скрыта"@
                        },
                        action: ActionView::LayerMeta {
                            index: ms[j],
                            before: ls[ms[j] as int].meta,
                            after: MetaView { visible: want, ..ls[ms[j] as int].meta },
                        },
                    },
            );
            assert(steps =~= spec_steps);
            assert(self.doc@.layers =~= spec_app_toggle_group_visibility(s, header as int).doc.layers);
        }
    }

    /// Gives layer `index` the settings `after`, as a history step named by
    /// what changed (see `spec_app_set_layer_meta`).
    pub fn set_layer_meta(&mut self, index: usize, after: LayerMeta)
        requires
            old(self).wf(),
            index < old(self)@.doc.layers.len(),
        ensures
            final(self).wf(),
            final(self)@.doc != old(self)@.doc ==> final(self).doc.rev != old(self).doc.rev,
            final(self)@ == spec_app_set_layer_meta(old(self)@, index as int, after@),
    {
        let ghost h = self.history@;
        assert(self@.doc.layers[index as int] == self.doc.layers@[index as int]@);
        let before = self.doc.layers[index].meta.copy();
        if same_meta(&before, &after) {
            return;
        }
        let name = if after.visible != before.visible {
            "Видимость слоя"
        } else if after.locked != before.locked {
            "Блокировка слоя"
        } else if after.blend != before.blend {
            "Режим наложения"
        } else {
            "Непрозрачность слоя"
        };
        put_meta(&mut self.doc, index, after.copy());
        self.doc.touch();
        let act = Action::LayerMeta { index, before, after };
        proof {
            lemma_ok_push(h, StepView { name: name@, action: act@ });
        }
        self.history.push(name, act);
    }

    /// Starts renaming the active layer in the panel, from the name it is
    /// shown with.
    pub fn begin_rename(&mut self)
        requires
            old(self).wf(),
        ensures
            final(self).wf(),
            final(self)@.doc != old(self)@.doc ==> final(self).doc.rev != old(self).doc.rev,
            final(self)@ == (AppView {
                rename: Some(old(self)@.doc.active),
                rename_buf: shown_name(old(self)@.doc.layers, old(self)@.doc.active as int),
                ..old(self)@
            }),
    {
        let i = self.doc.active;
        self.rename_buf = self.doc.layer_name(i);
        self.rename = Some(i);
    }

    /// Ends renaming: with `save`, the trimmed name is given to the layer
    /// unless it is empty (see `spec_app_finish_rename`).
    pub fn finish_rename(&mut self, save: bool)
        requires
            old(self).wf(),
        ensures
            final(self).wf(),
            final(self)@.doc != old(self)@.doc ==> final(self).doc.rev != old(self).doc.rev,
            final(self)@ == spec_app_finish_rename(old(self)@, save),
    {
        let i = match self.rename {
            None => {
                return;
            },
            Some(i) => i,
        };
        self.rename = None;
        if save {
            let v = chars_of(self.rename_buf.as_str());
            let (a, e) = trim_bounds(&v, 0, v.len());
            assert(v@.subrange(0, v@.len() as int) =~= v@);
            if a < e && i < self.doc.layers.len() {
                let mut part: Vec<char> = Vec::new();
                let mut k = a;
                while k < e
                    invariant
                        a <= k <= e <= v@.len(),
                        part@ == v@.subrange(a as int, k as int),
                    decreases e - k,
                {
                    part.push(v[k]);
                    k = k + 1;
                    assert(part@ =~= v@.subrange(a as int, k as int));
                }
                let name = string_from_chars(part.as_slice());
                assert(self@.doc.layers[i as int] == self.doc.layers@[i as int]@);
                let mut m = self.doc.layers[i].meta.copy();
                m.name = name;
                self.set_layer_meta(i, m);
            }
        }
        self.rename_buf = String::new();
    }
}

fn copy_meta(m: &LayerMeta) -> (r: LayerMeta)
    ensures
        r@ == m@,
{
    m.copy()
}

} // verus!
