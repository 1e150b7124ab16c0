use imaglib::draw::{TextMetrics, TextScale};
use imaglib::gui::{Bounds, DrawCommand, Gui, GuiError, Widget, WidgetType, WeakNot};
use std::sync::Arc;

/// Metrics for text heights 12, 11 and 10.
fn metrics() -> TextScale {
    TextScale {
        top: 12,
        steps: vec![
            TextMetrics { advance: 6, line_height: 10 },
            TextMetrics { advance: 5, line_height: 8 },
            TextMetrics { advance: 4, line_height: 7 },
        ],
    }
}

fn sample() -> (Gui, Widget, Widget, Widget) {
    let mut g = Gui::new(0, 0, 200, 100, metrics());
    let root = g.get_root();
    let div = root.div(&mut g, true, "div".to_string()).unwrap();
    let text = div.text(&mut g, "hi".to_string(), "text".to_string()).unwrap();
    let button = root.button(&mut g, 7, "btn".to_string()).unwrap();
    (g, div, text, button)
}

fn geometry(g: &Gui, w: Widget) -> (i32, i32, i32, i32) {
    let d = w.get(g);
    let d = d.data();
    (d.x, d.y, d.w, d.h)
}

#[test]
fn new_gui_has_a_root_panel() {
    let g = Gui::new(1, 2, 30, 40, metrics());
    assert_eq!(g.widgets.len(), 1);
    assert_eq!(g.get_root(), Widget { id: 0 });
    let r = &g.widgets[0];
    assert_eq!(r.w_type, WidgetType::Div);
    assert!(!r.vertical);
    assert_eq!((r.x, r.y, r.w, r.h), (1, 2, 30, 40));
    assert_eq!((r.w_padding, r.h_padding, r.text_height), (2, 2, 12));
    assert_eq!(r.name, "root");
    assert!(r.children.is_empty());
    assert!(g.current_selected.is_none());
    assert!(g.destroy_queue.is_empty());
    assert!(g.input.events.is_empty());
}

#[test]
fn widgets_are_added_as_children() {
    let (g, div, text, button) = sample();
    assert_eq!(g.widgets.len(), 4);
    assert_eq!(g.widgets[0].children, vec![div, button]);
    assert_eq!(g.widgets[div.id].children, vec![text]);
    assert_eq!(g.widgets[text.id].w_type, WidgetType::Text);
    assert_eq!(g.widgets[text.id].text, "hi");
    assert_eq!(g.widgets[text.id].w_padding, 4);
    assert_eq!(g.widgets[button.id].on_update, Some(7));
    assert_eq!(g.widgets[div.id].w_type, WidgetType::Div);
    assert!(g.widgets[div.id].vertical);
}

#[test]
fn other_widget_kinds() {
    let mut g = Gui::new(0, 0, 50, 50, metrics());
    let root = g.get_root();
    let s = root.div_sized(&mut g, 20, 30, false, "sized".to_string()).unwrap();
    let i = root.image(&mut g, "cat".to_string(), 16, 8, "pic".to_string()).unwrap();
    let t = root.attach_text_input(&mut g, 3, "input".to_string()).unwrap();
    assert_eq!((g.widgets[s.id].w, g.widgets[s.id].h), (20, 30));
    assert!(!g.widgets[s.id].vertical);
    assert_eq!(g.widgets[i.id].w_type, WidgetType::Image);
    assert_eq!(g.widgets[i.id].text, "cat");
    assert_eq!((g.widgets[i.id].w, g.widgets[i.id].h), (16, 8));
    assert_eq!(g.widgets[t.id].w_type, WidgetType::TextInput);
    assert_eq!(g.widgets[t.id].on_update, Some(3));
}

#[test]
fn names_find_the_latest_widget() {
    let (mut g, div, text, _button) = sample();
    assert_eq!(g.get_widget("text"), text);
    assert_eq!(g.get_widget("root"), Widget { id: 0 });
    assert_eq!(g.find_widget("nothing"), None);
    let again = div.text(&mut g, "later".to_string(), "text".to_string()).unwrap();
    assert_eq!(g.get_widget("text"), again);
}

#[test]
fn minimum_bounds() {
    let (g, div, text, button) = sample();
    let max = Bounds { x: 0, y: 0, w: 200, h: 100 };
    let b = Widget { id: 0 }.get_bounds_min(&g, max);
    assert_eq!((b.x, b.y, b.w, b.h), (0, 0, 10, 4));
    let t = text.get_bounds_min(&g, max);
    assert_eq!((t.w, t.h), (8, 8));
    let bt = button.get_bounds_min(&g, max);
    assert_eq!((bt.w, bt.h), (8, 8));
    let d = div.get_bounds_min(&g, max);
    assert_eq!((d.w, d.h), (0, 0));
    let root_data = &g.widgets[0];
    let r = root_data.get_bounds_min(&g, max);
    assert_eq!((r.w, r.h), (10, 4));
}

#[test]
fn layout_places_the_tree() {
    let (mut g, div, text, button) = sample();
    assert_eq!(g.update_layout(), Ok(()));
    assert_eq!(geometry(&g, Widget { id: 0 }), (0, 0, 200, 100));
    assert_eq!(geometry(&g, div), (11, 4, 58, 92));
    assert_eq!(geometry(&g, text), (19, 16, 50, 38));
    assert_eq!(geometry(&g, button), (75, 4, 66, 100));
    assert_eq!(g.widgets[div.id].children, vec![text]);
}

#[test]
fn layout_reports_widgets_that_do_not_fit() {
    let mut g = Gui::new(0, 0, 10, 30, metrics());
    let root = g.get_root();
    let t = root.text(&mut g, "hi".to_string(), "t".to_string()).unwrap();
    let r = g.update_layout();
    assert_eq!(r, Err(GuiError::TooBig));
    assert_eq!(r.unwrap_err().message(), "error: created something bigger then its outer bounds");
    assert_eq!(geometry(&g, Widget { id: 0 }), (0, 0, 10, 30));
    assert_eq!(geometry(&g, t), (0, 0, 0, 0));
}

#[test]
fn widget_layout_within_given_bounds() {
    let (mut g, div, _text, _button) = sample();
    let r = div.update_layout(&mut g, Bounds { x: 3, y: 4, w: 40, h: 50 });
    assert_eq!(r, Ok(()));
    let (x, y, w, h) = geometry(&g, div);
    assert_eq!((x, y), (3, 4));
    assert!(w <= 40 && h <= 50);
}

#[test]
fn update_lists_handlers() {
    let (mut g, _div, _text, button) = sample();
    let hs = g.update().unwrap();
    assert_eq!(hs, vec![(button, 7)]);
}

#[test]
fn render_lists_draw_commands_depth_first() {
    let (mut g, _div, _text, _button) = sample();
    g.update_layout().unwrap();
    let cmds = g.render();
    assert_eq!(cmds.len(), 6);
    assert!(matches!(&cmds[0], DrawCommand::Rect { x: 0, y: 0, w: 200, h: 100, color } if color.r == 220));
    assert!(matches!(&cmds[1], DrawCommand::RectLines { x: 0, y: 0, w: 200, h: 100, color } if color.r == 0));
    assert!(matches!(&cmds[2], DrawCommand::Rect { x: 11, y: 4, w: 58, h: 92, .. }));
    assert!(matches!(&cmds[3], DrawCommand::RectLines { x: 11, y: 4, w: 58, h: 92, .. }));
    assert!(matches!(&cmds[4], DrawCommand::TextBox { x: 19, y: 16, w: 50, h: 38, text, .. } if text == "hi"));
    assert!(matches!(&cmds[5], DrawCommand::RectLines { x: 75, y: 4, w: 66, h: 100, .. }));
    let sub = Widget { id: 2 }.render(&g);
    assert_eq!(sub.len(), 1);
    let whole = g.widgets[0].render(&g);
    assert_eq!(whole.len(), 6);
}

#[test]
fn image_and_input_commands() {
    let mut g = Gui::new(0, 0, 50, 50, metrics());
    let root = g.get_root();
    let i = root.image(&mut g, "cat".to_string(), 16, 8, "pic".to_string()).unwrap();
    let t = root.attach_text_input(&mut g, 3, "input".to_string()).unwrap();
    let ci = i.render(&g);
    assert!(matches!(&ci[0], DrawCommand::RectImage { w: 16, h: 8, image, .. } if image == "cat"));
    let ct = t.render(&g);
    assert!(matches!(&ct[0], DrawCommand::TextBoxConservative { .. }));
}

#[test]
fn weak_handles_always_upgrade() {
    let a = Arc::new(5);
    let w = WeakNot::from(&a);
    assert_eq!(*w.upgrade().unwrap(), 5);
}

#[test]
fn only_handlers_that_their_name_finds_run() {
    let mut g = Gui::new(0, 0, 200, 100, metrics());
    let root = g.get_root();
    let _first = root.button(&mut g, 1, "b".to_string()).unwrap();
    let second = root.button(&mut g, 2, "b".to_string()).unwrap();
    let other = root.attach_text_input(&mut g, 3, "in".to_string()).unwrap();
    let hs = g.update().unwrap();
    assert_eq!(hs, vec![(second, 2), (other, 3)]);
}

#[test]
fn text_is_measured_at_its_own_height() {
    let (mut g, _div, text, _button) = sample();
    g.widgets[text.id].w_padding = 20;
    g.widgets[text.id].h_padding = 20;
    let max = Bounds { x: 0, y: 0, w: 200, h: 100 };
    let t = text.get_bounds_min(&g, max);
    assert_eq!((t.w, t.h), (18, 10));
    g.widgets[text.id].text_height = 10;
    let t = text.get_bounds_min(&g, max);
    assert_eq!((t.w, t.h), (12, 7));
}

#[test]
fn minimum_bounds_ignore_the_origin_offered() {
    let (g, div, _text, _button) = sample();
    let a = div.get_bounds_min(&g, Bounds { x: 0, y: 0, w: 200, h: 100 });
    let b = div.get_bounds_min(&g, Bounds { x: -50, y: 70, w: 200, h: 100 });
    assert_eq!((a.x, a.y, a.w, a.h), (b.x, b.y, b.w, b.h));
}

#[test]
fn root_keeps_its_place_and_childless_layout_is_stable() {
    let (mut g, _div, text, _button) = sample();
    assert_eq!(g.update_layout(), Ok(()));
    assert_eq!(geometry(&g, Widget { id: 0 }), (0, 0, 200, 100));
    let before = geometry(&g, text);
    let b = Bounds { x: before.0, y: before.1, w: before.2, h: before.3 };
    assert_eq!(text.update_layout(&mut g, b), Ok(()));
    assert_eq!(geometry(&g, text), before);
    assert_eq!(text.update_layout(&mut g, b), Ok(()));
    assert_eq!(geometry(&g, text), before);
}
