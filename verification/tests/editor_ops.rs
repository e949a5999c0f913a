use tpaint::app::{App, CanvasOp, DialogMode, FileDialog};
use tpaint::editor_paint::StrokeStart;
use tpaint::raster::Shape;
use tpaint::tools::{BrushShape, Tool};

/// An editor on a transparent canvas of `w`×`h`, with the selection tool.
fn app_with_blank(w: usize, h: usize) -> App {
    let mut app = App::new();
    app.doc.resize(w, h);
    let a = app.doc.active;
    app.doc.layers[a].pixels.iter_mut().for_each(|v| *v = 0);
    app.tool = Tool::Select;
    app
}

#[test]
fn grouping_layers_creates_folder_over_them() {
    let mut app = app_with_blank(20, 20);
    app.add_layer();
    app.add_layer();
    assert_eq!(app.doc.layers.len(), 3);
    app.doc.active = 1;
    app.make_group();
    assert_eq!(app.doc.layers[2].meta.group.as_deref(), Some("Группа 1"), "слой 2 в папке");
    assert_eq!(app.doc.layers[1].meta.group.as_deref(), Some("Группа 1"), "слой 1 в папке");
    assert_eq!(app.doc.layers[0].meta.group, None, "нижний слой вне папки");
    assert!(app.is_group_header(2), "слой 2 — шапка папки");
    assert!(!app.is_group_header(1), "слой 1 — содержимое папки");
}

#[test]
fn collapsed_group_hides_children_in_panel_only() {
    let mut app = app_with_blank(20, 20);
    app.add_layer();
    app.add_layer();
    app.doc.active = 1;
    app.make_group();
    assert!(app.layer_visible_in_panel(1), "открытая папка показывает содержимое");
    app.toggle_group(2);
    assert!(!app.layer_visible_in_panel(1), "сворачивание прячет содержимое");
    assert!(app.layer_visible_in_panel(2), "шапка папки остаётся видна");
    app.toggle_group(2);
    assert!(app.layer_visible_in_panel(1), "разворачивание возвращает");
    assert_eq!(app.doc.layers[1].pixels.len(), 20 * 20 * 4);
}

#[test]
fn ungroup_removes_folder_membership() {
    let mut app = app_with_blank(20, 20);
    app.add_layer();
    app.doc.active = 1;
    app.make_group();
    app.ungroup();
    assert!(app.doc.layers.iter().all(|l| l.meta.group.is_none()), "папка распущена");
}

#[test]
fn group_visibility_toggles_all_members() {
    let mut app = app_with_blank(20, 20);
    app.add_layer();
    app.add_layer();
    app.doc.active = 1;
    app.make_group();
    let members = app.group_members(2);
    assert_eq!(members, vec![2, 1], "в папке шапка и слой под ней");
    app.toggle_group_visibility(2);
    for i in &members {
        assert!(!app.doc.layers[*i].meta.visible, "слой {} скрыт вместе с папкой", i);
    }
    app.toggle_group_visibility(2);
    for i in &members {
        assert!(app.doc.layers[*i].meta.visible, "слой {} снова виден", i);
    }
}

#[test]
fn mask_invert_flip_and_delete_with_history() {
    let mut app = app_with_blank(16, 16);
    app.add_mask_from_selection(Some((0, 0, 8, 16)));
    let m = app.doc.layers[0].mask.clone().unwrap();
    assert_eq!(m[0], 255, "левая половина открыта");
    assert_eq!(m[15], 0, "правая закрыта");
    app.invert_mask();
    let m = app.doc.layers[0].mask.clone().unwrap();
    assert_eq!(m[0], 0);
    assert_eq!(m[15], 255);
    app.delete_mask();
    assert!(app.doc.layers[0].mask.is_none(), "маска удалена");
    app.undo();
    assert!(app.doc.layers[0].mask.is_some(), "отмена вернула маску");
}

#[test]
fn invert_flips_selection_area() {
    let mut app = app_with_blank(20, 20);
    let frame = app.invert_selection(Some((0, 0, 10, 20)));
    assert_eq!(frame, Some((10, 0, 20, 20)));
    assert!(app.sel_cover(5, 5, frame) == 0, "левая половина больше не выделена");
    assert!(app.sel_cover(15, 5, frame) > 200, "правая половина выделена");
}

#[test]
fn rename_layer_applies_or_cancels() {
    let mut app = app_with_blank(16, 16);
    app.begin_rename();
    assert_eq!(app.rename, Some(0));
    app.rename_buf = "Небо".to_string();
    app.finish_rename(true);
    assert_eq!(app.doc.layers[0].meta.name, "Небо");
    app.begin_rename();
    app.rename_buf = "tmp".to_string();
    app.finish_rename(false);
    assert_eq!(app.doc.layers[0].meta.name, "Небо", "отмена не меняет имя");
}

#[test]
fn undo_of_duplicate_layer_removes_it() {
    let mut app = app_with_blank(32, 32);
    app.doc.layers[0].fill([1, 2, 3, 255]);
    app.duplicate_layer();
    assert_eq!(app.doc.layers.len(), 2);
    app.undo();
    assert_eq!(app.doc.layers.len(), 1, "отмена убирает копию, а не добавляет третью");
    app.redo();
    assert_eq!(app.doc.layers.len(), 2, "повтор возвращает копию");
}

#[test]
fn undo_of_merge_restores_both_layers() {
    let mut app = app_with_blank(16, 16);
    app.doc.layers[0].fill([10, 10, 10, 255]);
    app.add_layer();
    let a = app.doc.active;
    app.doc.layers[a].set(16, 4, 4, [200, 0, 0, 255]);
    app.merge_down();
    assert_eq!(app.doc.layers.len(), 1, "после объединения один слой");
    assert_eq!(app.doc.layers[0].get(16, 4, 4), [200, 0, 0, 255], "пиксель переехал вниз");
    app.undo();
    assert_eq!(app.doc.layers.len(), 2, "верхний слой вернулся");
    assert_eq!(app.doc.layers[0].get(16, 4, 4), [10, 10, 10, 255], "нижний слой откатан");
    app.redo();
    assert_eq!(app.doc.layers.len(), 1);
    assert_eq!(app.doc.layers[0].get(16, 4, 4), [200, 0, 0, 255], "повтор снова объединил");
}

#[test]
fn crop_to_selection_resizes_document() {
    let mut app = app_with_blank(100, 100);
    let a = app.doc.active;
    app.doc.layers[a].fill([9, 9, 9, 255]);
    app.crop_to_selection(Some((10, 20, 40, 40)));
    assert_eq!((app.doc.width, app.doc.height), (40, 40));
    assert!(app.dirty);
}

#[test]
fn crop_without_selection_does_nothing() {
    let mut app = app_with_blank(60, 60);
    app.crop_to_selection(None);
    assert_eq!((app.doc.width, app.doc.height), (60, 60), "холст не тронут");
}

#[test]
fn trim_canvas_cuts_empty_borders() {
    let mut app = app_with_blank(100, 100);
    let a = app.doc.active;
    app.doc.layers[a].pixels.iter_mut().for_each(|v| *v = 0);
    let w = 100;
    for y in 20..40 {
        for x in 30..60 {
            app.doc.layers[a].set(w, x, y, [255, 0, 0, 255]);
        }
    }
    app.trim_canvas();
    assert_eq!((app.doc.width, app.doc.height), (30, 20));
    assert_eq!(app.doc.active_layer().get(30, 0, 0), [255, 0, 0, 255]);
}

#[test]
fn flip_layer_is_undoable() {
    let mut app = app_with_blank(40, 20);
    let a = app.doc.active;
    app.doc.layers[a].set(40, 2, 10, [7, 7, 7, 255]);
    app.flip_layer(true);
    assert_eq!(app.doc.active_layer().get(40, 37, 10), [7, 7, 7, 255], "пиксель зеркален");
    app.undo();
    assert_eq!(app.doc.active_layer().get(40, 2, 10), [7, 7, 7, 255], "отмена вернула");
}

#[test]
fn copy_paste_and_commit_moves_pixels() {
    let mut app = app_with_blank(64, 64);
    let w = 64;
    let a = app.doc.active;
    for y in 0..10 {
        for x in 0..10 {
            app.doc.layers[a].set(w, x, y, [255, 255, 255, 255]);
        }
    }
    app.copy_selection(Some(Some((0, 0, 10, 10))));
    let clip = app.clipboard.take().expect("буфер заполнен");
    assert_eq!((clip.width(), clip.height()), (10, 10));
    assert_eq!(app.doc.active_layer().get(64, 35, 35)[3], 0);
    app.floating_commit(&clip, 30, 30);
    assert_eq!(app.doc.active_layer().get(64, 35, 35), [255, 255, 255, 255]);
}

#[test]
fn cut_and_delete_are_undoable() {
    let mut app = app_with_blank(32, 32);
    let w = 32;
    let a = app.doc.active;
    app.doc.layers[a].set(w, 5, 5, [1, 2, 3, 255]);
    app.cut_selection(Some(Some((0, 0, 10, 10))));
    assert_eq!(app.doc.active_layer().get(32, 5, 5)[3], 0, "вырезано");
    app.undo();
    assert_eq!(app.doc.active_layer().get(32, 5, 5), [1, 2, 3, 255], "отмена вернула пиксель");

    app.delete_selection(Some(Some((0, 0, 10, 10))));
    assert_eq!(app.doc.active_layer().get(32, 5, 5)[3], 0, "удалено");
    app.undo();
    assert_eq!(app.doc.active_layer().get(32, 5, 5), [1, 2, 3, 255], "отмена вернула удаление");
}

#[test]
fn fill_selection_paints_inside_only() {
    let mut app = app_with_blank(40, 40);
    app.primary = [255, 0, 0, 255];
    app.fill_selection(Some((10, 10, 30, 30)), 255);
    assert_eq!(app.doc.active_layer().get(40, 15, 15), [255, 0, 0, 255]);
    assert_eq!(app.doc.active_layer().get(40, 5, 5)[3], 0, "снаружи пусто");
}

#[test]
fn new_editor_is_white_and_clean() {
    let app = App::new();
    assert_eq!((app.doc.width, app.doc.height), (1600, 1000));
    assert_eq!(app.doc.layers.len(), 1);
    assert_eq!(app.doc.layers[0].meta.name, "Фон");
    assert_eq!(app.doc.layers[0].get(1600, 799, 499), [255, 255, 255, 255]);
    assert_eq!(app.color(), [0, 0, 0, 255]);
    assert!(!app.dirty);
    assert_eq!(app.history_labels(), vec!["Новый документ".to_string()]);
}

#[test]
fn added_layers_are_numbered_and_named_in_history() {
    let mut app = app_with_blank(8, 8);
    app.add_layer();
    app.add_layer();
    assert_eq!(app.doc.layers[1].meta.name, "Слой 2");
    assert_eq!(app.doc.layers[2].meta.name, "Слой 3");
    assert_eq!(app.doc.active, 2);
    assert_eq!(app.history_labels(), vec!["Новый документ", "Слой добавлен", "Слой добавлен"]);
    assert_eq!(app.notice.as_deref(), Some("Слой добавлен"));
}

#[test]
fn undo_after_clear_restores_and_redo_clears_again() {
    let mut app = app_with_blank(8, 8);
    app.doc.layers[0].fill([5, 6, 7, 255]);
    let before = app.doc.layers[0].pixels.clone();
    app.clear_layer();
    assert!(app.doc.layers[0].pixels.iter().all(|v| *v == 0));
    app.undo();
    assert_eq!(app.doc.layers[0].pixels, before);
    assert_eq!(app.notice.as_deref(), Some("Отменено: Слой очищен"));
    app.redo();
    assert!(app.doc.layers[0].pixels.iter().all(|v| *v == 0));
    assert_eq!(app.notice.as_deref(), Some("Повторено: Слой очищен"));
}

#[test]
fn editor_history_jump_replays_layer_steps() {
    let mut app = app_with_blank(8, 8);
    app.add_layer();
    app.add_layer();
    app.delete_layer();
    assert_eq!(app.doc.layers.len(), 2);
    app.history_goto(0);
    assert_eq!(app.doc.layers.len(), 1);
    assert_eq!(app.history.position(), 0);
    app.history_goto(3);
    assert_eq!(app.doc.layers.len(), 2);
    assert_eq!(app.history.position(), 3);
    assert_eq!(app.notice.as_deref(), Some("История: Слой удалён"));
}

#[test]
fn deleting_the_last_layer_is_refused() {
    let mut app = app_with_blank(8, 8);
    app.delete_layer();
    assert_eq!(app.doc.layers.len(), 1);
    assert_eq!(app.history.position(), 0);
}

#[test]
fn canvas_turn_is_undone_whole() {
    let mut app = app_with_blank(6, 4);
    app.doc.layers[0].set(6, 1, 0, [9, 9, 9, 255]);
    let before = app.doc.layers[0].pixels.clone();
    app.transform_canvas(CanvasOp::Rotate90);
    assert_eq!((app.doc.width, app.doc.height), (4, 6));
    app.undo();
    assert_eq!((app.doc.width, app.doc.height), (6, 4));
    assert_eq!(app.doc.layers[0].pixels, before);
}

#[test]
fn canvas_turn_keeps_two_earlier_steps() {
    let mut app = app_with_blank(4, 4);
    for _ in 0..4 {
        app.add_layer();
    }
    app.transform_canvas(CanvasOp::MirrorH);
    assert_eq!(app.history.position(), 3);
}

#[test]
fn fill_mask_paints_only_the_frame() {
    let mut app = app_with_blank(10, 10);
    app.fill_mask(false, Some((2, 2, 5, 5)));
    let m = app.doc.layers[0].mask.clone().unwrap();
    assert_eq!(m[3 * 10 + 3], 0);
    assert_eq!(m[0], 255);
    assert!(app.edit_mask);
}

#[test]
fn locked_layer_refuses_a_mask() {
    let mut app = app_with_blank(10, 10);
    app.doc.layers[0].meta.locked = true;
    app.add_mask_from_selection(None);
    assert!(app.doc.layers[0].mask.is_none());
    assert_eq!(app.notice.as_deref(), Some("Слой заблокирован"));
}

#[test]
fn toggle_and_edit_mask_need_a_mask() {
    let mut app = app_with_blank(10, 10);
    app.toggle_mask();
    assert_eq!(app.notice.as_deref(), Some("У слоя нет маски"));
    app.set_edit_mask(true);
    assert_eq!(app.notice.as_deref(), Some("Сначала добавьте маску"));
    app.add_mask_from_selection(None);
    app.toggle_mask();
    assert!(!app.doc.layers[0].mask_on);
    assert_eq!(app.notice.as_deref(), Some("Маска выключена"));
}

#[test]
fn layer_settings_change_is_one_step() {
    let mut app = app_with_blank(4, 4);
    let mut m = app.doc.layers[0].meta.clone();
    m.visible = false;
    app.set_layer_meta(0, m.clone());
    assert_eq!(app.history_labels(), vec!["Новый документ", "Видимость слоя"]);
    app.set_layer_meta(0, m);
    assert_eq!(app.history.position(), 1, "the same settings record nothing");
    app.undo();
    assert!(app.doc.layers[0].meta.visible);
}

#[test]
fn set_sel_mask_reports_the_frame() {
    let mut app = app_with_blank(4, 4);
    let mut m = vec![0u8; 16];
    m[1 * 4 + 2] = 255;
    assert_eq!(app.set_sel_mask(m), Some((2, 1, 3, 2)));
    assert!(app.has_sel_mask(true));
    assert_eq!(app.set_sel_mask(vec![0u8; 16]), None);
    assert!(app.sel_mask.is_none());
}

#[test]
fn make_group_needs_a_layer_above() {
    let mut app = app_with_blank(4, 4);
    app.make_group();
    assert_eq!(app.notice.as_deref(), Some("Для папки нужен слой над активным"));
    assert!(app.doc.layers[0].meta.group.is_none());
}

#[test]
fn new_document_starts_over() {
    let mut app = app_with_blank(4, 4);
    app.add_layer();
    app.new_document(30, 20);
    assert_eq!((app.doc.width, app.doc.height), (30, 20));
    assert_eq!(app.doc.layers.len(), 1);
    assert_eq!(app.history.position(), 0);
    assert_eq!(app.notice.as_deref(), Some("Новый документ"));
}

#[test]
fn resize_canvas_reports_the_size() {
    let mut app = app_with_blank(4, 4);
    app.resize_canvas(12, 7);
    assert_eq!(app.notice.as_deref(), Some("Размер холста: 12×7"));
}

#[test]
fn project_bytes_open_back_into_the_editor() {
    let mut app = app_with_blank(6, 5);
    app.doc.layers[0].set(6, 2, 3, [1, 2, 3, 255]);
    app.add_layer();
    let bytes = app.project_bytes().expect("project written");
    app.mark_saved("a.tpaint", tpaint::app::PathKind::Project);
    assert!(!app.dirty);
    let mut other = App::new();
    other.open_project("a.tpaint", &bytes).expect("project read");
    assert_eq!((other.doc.width, other.doc.height), (6, 5));
    assert_eq!(other.doc.layers.len(), 2);
    assert_eq!(other.doc.layers[0].get(6, 2, 3), [1, 2, 3, 255]);
    assert_eq!(other.notice.as_deref(), Some("Открыто слоёв: 2"));
    assert_eq!(other.path.as_deref(), Some("a.tpaint"));
    assert_eq!(other.history.position(), 0);
}

#[test]
fn open_project_refuses_other_bytes() {
    let mut app = app_with_blank(4, 4);
    let r = app.open_project("x.tpaint", b"not a project at all");
    assert_eq!(r, Err(tpaint::project::ProjectError::NotProject));
    assert_eq!((app.doc.width, app.doc.height), (4, 4));
}

#[test]
fn open_png_makes_one_background_layer() {
    let mut app = app_with_blank(4, 4);
    let rgba: Vec<u8> = (0..2 * 3 * 4).map(|v| v as u8).collect();
    app.open_png("p.png", 2, 3, rgba.clone());
    assert_eq!((app.doc.width, app.doc.height), (2, 3));
    assert_eq!(app.doc.layers.len(), 1);
    assert_eq!(app.doc.layers[0].meta.name, "Фон");
    assert_eq!(app.doc.layers[0].pixels, rgba);
    assert_eq!(app.path_kind, tpaint::app::PathKind::Image);
}

#[test]
fn imported_image_is_centred_and_named() {
    let mut app = app_with_blank(6, 6);
    let rgba = vec![200u8; 2 * 2 * 4];
    app.import_layer_named(Some("кот".to_string()), 2, 2, &rgba).expect("imported");
    assert_eq!(app.doc.layers.len(), 2);
    assert_eq!(app.doc.active, 1);
    let l = &app.doc.layers[1];
    assert_eq!(l.meta.name, "кот");
    assert_eq!(l.get(6, 2, 2), [200, 200, 200, 200]);
    assert_eq!(l.get(6, 3, 3), [200, 200, 200, 200]);
    assert_eq!(l.get(6, 1, 1), [0, 0, 0, 0]);
    assert_eq!(app.notice.as_deref(), Some("Импортирован слой 2×2"));
    app.undo();
    assert_eq!(app.doc.layers.len(), 1);
}

#[test]
fn import_of_a_larger_image_is_cut_and_unnamed_file_gets_default() {
    let mut app = app_with_blank(2, 2);
    let mut rgba = vec![0u8; 4 * 4 * 4];
    rgba[(1 * 4 + 1) * 4] = 77;
    app.import_layer_named(None, 4, 4, &rgba).expect("imported");
    assert_eq!(app.doc.layers[1].meta.name, "Слой");
    assert_eq!(app.doc.layers[1].pixels[0], 77);
    assert_eq!(app.import_layer_named(None, 0, 3, &[]), Err("пустое изображение".to_string()));
}

#[test]
fn import_layer_names_the_layer_after_the_file() {
    let mut app = app_with_blank(2, 2);
    let rgba = vec![9u8; 4];
    app.import_layer("/tmp/облако.png", 1, 1, &rgba).expect("imported");
    assert_eq!(app.doc.layers[1].meta.name, "облако");
}

#[test]
fn file_dialog_lists_folders_then_files() {
    let mut d = FileDialog::new(DialogMode::OpenProject, "/home/user", "/h");
    let listing = vec![
        ("b".to_string(), true),
        ("A".to_string(), true),
        (".hidden".to_string(), true),
        ("x.TPAINT".to_string(), false),
        ("y.png".to_string(), false),
        ("a.tpaint".to_string(), false),
    ];
    d.fill_entries(listing);
    let names: Vec<(&str, bool)> = d.entries.iter().map(|(n, b)| (n.as_str(), *b)).collect();
    assert_eq!(
        names,
        vec![("..", true), ("A", true), ("b", true), ("x.TPAINT", false), ("a.tpaint", false)]
    );
    assert_eq!(d.scroll, 0);
}

#[test]
fn file_dialog_at_a_short_root_has_no_way_up() {
    let mut d = FileDialog::new(DialogMode::ExportJpeg, "C:\\", "/h");
    d.fill_entries(vec![("p.JPEG".to_string(), false), ("q.png".to_string(), false)]);
    assert_eq!(d.entries, vec![("p.JPEG".to_string(), false)]);
}

#[test]
fn eyedropper_picks_active_layer_color() {
    let mut app = App::new();
    app.doc.resize(32, 32);
    let a = app.doc.active;
    app.doc.layers[a].set(32, 10, 10, [12, 34, 56, 255]);
    app.tool = Tool::Eyedropper;
    app.pick(10, 10);
    assert_eq!(app.primary, [12, 34, 56, 255]);
}

#[test]
fn eyedropper_on_transparent_takes_white_and_brush() {
    let mut app = app_with_blank(8, 8);
    app.tool = Tool::Eyedropper;
    app.pick(3, 3);
    assert_eq!(app.primary, [255, 255, 255, 255]);
    assert_eq!(app.tool, Tool::Brush);
    app.color_swapped = true;
    app.pick(-1, 3);
    assert_eq!(app.secondary, [255, 255, 255, 255], "вне холста — тоже белый");
}

#[test]
fn magic_wand_picks_one_region() {
    let mut app = app_with_blank(40, 40);
    // Левая половина красная, правая — синяя.
    let (w, h) = (40usize, 40usize);
    let a = app.doc.active;
    for y in 0..h {
        for x in 0..20 {
            app.doc.layers[a].set(w, x, y, [255, 0, 0, 255]);
        }
    }
    let frame = app.wand_select(10, 10, 8, true, false);
    assert!(app.has_sel_mask(frame.is_some()), "палочка должна дать маску");
    assert!(app.sel_cover(5, 5, frame) > 200, "красная область выделена");
    assert_eq!(app.sel_cover(30, 10, frame), 0, "синяя область не выделена");
    assert_eq!(frame, Some((0, 0, 20, 40)));
    assert_eq!(app.notice.as_deref(), Some("Выделено 20×40 пикселей"));
}

#[test]
fn magic_wand_adds_to_selection_and_ignores_off_canvas() {
    let mut app = app_with_blank(10, 10);
    let a = app.doc.active;
    app.doc.layers[a].set(10, 9, 9, [0, 255, 0, 255]);
    let first = app.wand_select(9, 9, 0, true, false);
    assert_eq!(first, Some((9, 9, 10, 10)));
    let both = app.wand_select(0, 0, 0, true, true);
    assert_eq!(both, Some((0, 0, 10, 10)), "прозрачное добавилось к зелёному");
    let rev = app.sel_mask_rev;
    assert_eq!(app.wand_select(10, 0, 0, true, false), None);
    assert_eq!(app.sel_mask_rev, rev, "щелчок мимо холста ничего не меняет");
}

#[test]
fn fill_tool_records_a_step_even_without_change() {
    let mut app = app_with_blank(6, 6);
    app.primary = [10, 20, 30, 0];
    assert_eq!(app.fill_color(false), [10, 20, 30, 255], "прозрачный цвет заливки становится плотным");
    app.fill_at(2, 2, false, 255, true, 0, true);
    let a = app.doc.active;
    assert_eq!(&app.doc.layers[a].pixels[0..4], &[10, 20, 30, 255]);
    assert_eq!(app.history_labels(), vec!["Новый документ".to_string(), "Заливка".to_string()]);
    app.fill_at(2, 2, false, 255, true, 0, true);
    assert_eq!(app.history_labels().len(), 3, "повторная заливка тоже шаг");
    app.undo();
    app.undo();
    assert!(app.doc.layers[a].pixels.iter().all(|v| *v == 0), "отмена вернула прозрачный слой");
}

#[test]
fn stroke_start_follows_lock_and_mask_rules() {
    let mut app = app_with_blank(4, 4);
    app.tool = Tool::Brush;
    assert_eq!(app.start_stroke(), StrokeStart::Pixels);
    assert!(app.drawing);
    app.end_stroke();
    app.edit_mask = true;
    assert_eq!(app.start_stroke(), StrokeStart::Refused);
    assert_eq!(app.notice.as_deref(), Some("У слоя нет маски"));
    assert!(!app.edit_mask);
    let a = app.doc.active;
    app.doc.layers[a].mask = Some(vec![255; 16]);
    app.edit_mask = true;
    app.tool = Tool::Eraser;
    assert_eq!(app.start_stroke(), StrokeStart::Mask(0));
    app.end_stroke();
    app.doc.layers[a].meta.locked = true;
    assert_eq!(app.start_stroke(), StrokeStart::Refused);
    assert_eq!(app.notice.as_deref(), Some("Слой заблокирован"));
}

#[test]
fn grow_and_shrink_change_area_size() {
    let mut app = app_with_blank(40, 40);
    let big = app.grow_selection(3, true, Some((10, 10, 30, 30)));
    assert_eq!(big, Some((7, 7, 33, 33)), "расширилось на 3 пикселя: {:?}", big);
    assert_eq!(app.notice.as_deref(), Some("Выделение расширено"));
    let back = app.grow_selection(3, false, big);
    assert_eq!(back, Some((10, 10, 30, 30)), "сужение вернуло исходный размер: {:?}", back);
    assert_eq!(app.notice.as_deref(), Some("Выделение сужено"));
}

#[test]
fn shrinking_everything_away_drops_the_selection() {
    let mut app = app_with_blank(6, 6);
    let r = app.grow_selection(2, false, Some((2, 2, 4, 4)));
    assert_eq!(r, None, "квадрат 2×2 сужением на 2 исчезает");
    assert!(app.sel_mask.is_none());
}

#[test]
fn stroke_color_and_brush_footprint() {
    let mut app = app_with_blank(4, 4);
    app.tool = Tool::Brush;
    app.primary = [1, 2, 3, 0];
    app.secondary = [9, 9, 9, 77];
    assert_eq!(app.stroke_color(false), [1, 2, 3, 255], "прозрачным не рисуют");
    assert_eq!(app.stroke_color(true), [9, 9, 9, 77]);
    app.color_swapped = true;
    assert_eq!(app.stroke_color(false), [9, 9, 9, 77]);
    app.tool = Tool::Eraser;
    assert_eq!(app.stroke_color(false), [0, 0, 0, 0], "ластик стирает до прозрачности");
    assert_eq!(app.brush_shape(BrushShape::Square), Shape::Square);
    app.tool = Tool::Pencil;
    assert_eq!(app.brush_shape(BrushShape::Square), Shape::Round, "карандаш всегда круглый");
}

#[test]
fn file_dialog_accept_joins_folder_and_name() {
    let mut d = FileDialog::new(DialogMode::SaveProject, "/tmp", "/h");
    d.file = "pic".to_string();
    d.scroll = 3;
    d.accept();
    assert_eq!(d.result, Some(("/tmp/pic.tpaint".to_string(), DialogMode::SaveProject)));
    assert_eq!(d.scroll, 3, "прокрутка не меняется");
    d.file = "pic.TPAINT".to_string();
    d.accept();
    assert_eq!(d.result.as_ref().unwrap().0, "/tmp/pic.TPAINT");
    let mut o = FileDialog::new(DialogMode::OpenProject, "/tmp", "/h");
    o.file = "pic".to_string();
    o.accept();
    assert_eq!(o.result.as_ref().unwrap().0, "/tmp/pic");
    let mut e = FileDialog::new(DialogMode::ExportPng, "/tmp", "/h");
    e.file = String::new();
    e.accept();
    assert_eq!(e.result.as_ref().unwrap().0, "/tmp/рисунок.png");
    e.close();
    assert_eq!(e.result, Some((String::new(), DialogMode::ExportPng)));
}

#[test]
fn file_dialog_enter_dir_moves_up_and_down() {
    let mut d = FileDialog::new(DialogMode::OpenProject, "/home/user", "/h");
    d.enter_dir("pics");
    assert_eq!(d.path, "/home/user/pics");
    d.enter_dir("..");
    assert_eq!(d.path, "/home/user");
    let mut r = FileDialog::new(DialogMode::OpenProject, "/", "/h");
    r.enter_dir("..");
    assert_eq!(r.path, "/", "у корня выше некуда");
}
