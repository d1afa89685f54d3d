use app_lib::grid::{renumber, resolve, LayoutType, Rect, Split};
use app_lib::input::{command_for, Command, KeyCode, KeyInput};
use app_lib::window::{Window, WindowType};
use app_lib::App;

fn key(code: KeyCode) -> KeyInput {
    KeyInput { code, shift: false, control: false, alt: false, other_modifiers: false }
}

fn ch(c: char) -> KeyInput {
    key(KeyCode::Char(c))
}

fn ctrl(c: char) -> KeyInput {
    KeyInput { control: true, ..ch(c) }
}

fn alt(c: char) -> KeyInput {
    KeyInput { alt: true, ..ch(c) }
}

fn split(layout: LayoutType, first: usize, second: usize) -> Split {
    Split { layout, first, second }
}

fn rect(x: u16, y: u16, width: u16, height: u16) -> Rect {
    Rect { x, y, width, height }
}

fn selected_flags(app: &App) -> Vec<bool> {
    app.windows().iter().map(|w| w.is_selected()).collect()
}

fn overlaps(a: &Rect, b: &Rect) -> bool {
    let xs = a.x.max(b.x) < (a.x + a.width).min(b.x + b.width);
    let ys = a.y.max(b.y) < (a.y + a.height).min(b.y + b.height);
    xs && ys
}

fn assert_tiles(area: Rect, rects: &[Rect]) {
    for i in 0..rects.len() {
        for k in 0..rects.len() {
            if i != k {
                assert!(!overlaps(&rects[i], &rects[k]), "{:?} and {:?} overlap", rects[i], rects[k]);
            }
        }
    }
    let total: u32 = rects.iter().map(|r| r.width as u32 * r.height as u32).sum();
    assert_eq!(total, area.width as u32 * area.height as u32);
    for r in rects {
        assert!(r.x >= area.x && r.x + r.width <= area.x + area.width);
        assert!(r.y >= area.y && r.y + r.height <= area.y + area.height);
    }
}

fn scenario_a() -> App {
    let mut app = App::new();
    app.on_key_event(ctrl('t'));
    app
}

#[test]
fn starts_with_one_selected_desktop_window() {
    let app = App::new();
    assert!(app.is_running());
    assert_eq!(app.windows().len(), 1);
    assert_eq!(app.windows()[0].title(), "Desktop");
    assert_eq!(app.windows()[0].window_type(), WindowType::Blank);
    assert!(app.windows()[0].is_selected());
    assert_eq!(app.selected_window(), 0);
    assert!(app.view_grid().is_empty());
}

#[test]
fn single_window_fills_the_area() {
    let app = App::new();
    let area = rect(3, 2, 50, 20);
    assert_eq!(app.layout(area), vec![area]);
}

#[test]
fn control_t_creates_horizontal_split() {
    let app = scenario_a();
    assert_eq!(app.windows().len(), 2);
    assert_eq!(app.view_grid().clone(), vec![split(LayoutType::Horizontal, 0, 1)]);
    assert_eq!(app.selected_window(), 0);
    assert_eq!(selected_flags(&app), vec![true, false]);
    assert_eq!(app.windows()[1].title(), "1");
    assert_eq!(app.windows()[1].window_type(), WindowType::Terminal);
}

#[test]
fn l_moves_selection_and_wraps() {
    let mut app = scenario_a();
    app.on_key_event(ch('l'));
    assert_eq!(app.selected_window(), 1);
    assert_eq!(selected_flags(&app), vec![false, true]);
    app.on_key_event(ch('l'));
    assert_eq!(app.selected_window(), 0);
    assert_eq!(selected_flags(&app), vec![true, false]);
}

#[test]
fn second_control_t_renumbers_and_nests() {
    let mut app = scenario_a();
    app.on_key_event(ctrl('t'));
    assert_eq!(app.windows().len(), 3);
    assert_eq!(
        app.view_grid().clone(),
        vec![split(LayoutType::Horizontal, 0, 2), split(LayoutType::Horizontal, 0, 1)]
    );
    assert_eq!(app.windows()[1].title(), "2");
    assert_eq!(app.windows()[2].title(), "1");
    let area = rect(0, 0, 80, 24);
    let rects = app.layout(area);
    assert_eq!(rects, vec![rect(0, 0, 20, 24), rect(20, 0, 20, 24), rect(40, 0, 40, 24)]);
    assert_tiles(area, &rects);
}

#[test]
fn alt_t_creates_vertical_split() {
    let mut app = App::new();
    app.on_key_event(alt('T'));
    assert_eq!(app.view_grid().clone(), vec![split(LayoutType::Vertical, 0, 1)]);
    let rects = app.layout(rect(0, 0, 10, 10));
    assert_eq!(rects, vec![rect(0, 0, 10, 5), rect(0, 5, 10, 5)]);
}

#[test]
fn h_wraps_from_first_to_last() {
    let mut app = scenario_a();
    app.on_key_event(ctrl('t'));
    app.on_key_event(ch('h'));
    assert_eq!(app.selected_window(), 2);
    assert_eq!(selected_flags(&app), vec![false, false, true]);
    app.on_key_event(ch('H'));
    assert_eq!(app.selected_window(), 1);
    assert_eq!(selected_flags(&app), vec![false, true, false]);
}

#[test]
fn navigation_on_a_single_window_stays() {
    let mut app = App::new();
    app.on_key_event(ch('l'));
    assert_eq!(app.selected_window(), 0);
    app.on_key_event(ch('h'));
    assert_eq!(app.selected_window(), 0);
    assert_eq!(selected_flags(&app), vec![true]);
}

#[test]
fn exactly_one_selected_after_mixed_operations() {
    let mut app = App::new();
    let keys = [ctrl('t'), ch('l'), alt('t'), ch('l'), ctrl('T'), ch('h'), ch('h'), alt('t'), ch('L')];
    for k in keys {
        app.on_key_event(k);
        let flags = selected_flags(&app);
        assert_eq!(flags.iter().filter(|f| **f).count(), 1);
        assert!(flags[app.selected_window()]);
    }
    assert_eq!(app.windows().len(), 5);
}

#[test]
fn layout_covers_every_window_after_mixed_operations() {
    let mut app = App::new();
    let keys = [ctrl('t'), ch('l'), alt('t'), ch('l'), ctrl('T'), ch('h'), ch('h'), alt('t'), ch('l'), ctrl('t')];
    for k in keys {
        app.on_key_event(k);
        for area in [rect(0, 0, 80, 24), rect(5, 3, 37, 19), rect(0, 0, 1, 1)] {
            let rects = app.layout(area);
            assert_eq!(rects.len(), app.windows().len());
            assert_tiles(area, &rects);
        }
    }
}

#[test]
fn quit_keys_stop_the_loop() {
    for k in [key(KeyCode::Esc), ch('q'), ch('Q'), ctrl('c'), ctrl('C'), KeyInput { alt: true, ..ch('q') }] {
        let mut app = scenario_a();
        app.on_key_event(k);
        assert!(!app.is_running());
        assert_eq!(app.windows().len(), 2);
    }
}

#[test]
fn other_keys_are_ignored() {
    for k in [ch('x'), key(KeyCode::Other), ch('t'), ch('c'), KeyInput { shift: true, ..ctrl('t') }] {
        let mut app = scenario_a();
        app.on_key_event(k);
        assert!(app.is_running());
        assert_eq!(app.windows().len(), 2);
        assert_eq!(app.view_grid().len(), 1);
        assert_eq!(app.selected_window(), 0);
    }
}

#[test]
fn end_of_input_quits() {
    let mut app = App::new();
    app.on_input(Some(ctrl('t')));
    assert!(app.is_running());
    assert_eq!(app.windows().len(), 2);
    app.on_input(None);
    assert!(!app.is_running());
}

#[test]
fn key_bindings() {
    assert_eq!(command_for(&key(KeyCode::Esc)), Command::Quit);
    assert_eq!(command_for(&ctrl('q')), Command::Quit);
    assert_eq!(command_for(&ctrl('c')), Command::Quit);
    assert_eq!(command_for(&ch('c')), Command::Ignore);
    assert_eq!(command_for(&ctrl('t')), Command::CreateWindow(LayoutType::Horizontal));
    assert_eq!(command_for(&alt('t')), Command::CreateWindow(LayoutType::Vertical));
    assert_eq!(command_for(&ctrl('h')), Command::SelectPrevious);
    assert_eq!(command_for(&alt('L')), Command::SelectNext);
    assert_eq!(command_for(&ch('z')), Command::Ignore);
}

#[test]
fn renumber_shifts_only_slots_above_the_anchor() {
    let mut grid = vec![
        split(LayoutType::Horizontal, 0, 3),
        split(LayoutType::Vertical, 0, 1),
        split(LayoutType::Horizontal, 3, 4),
        split(LayoutType::Vertical, 1, 2),
    ];
    renumber(&mut grid, 1);
    assert_eq!(
        grid,
        vec![
            split(LayoutType::Horizontal, 0, 4),
            split(LayoutType::Vertical, 0, 1),
            split(LayoutType::Horizontal, 4, 5),
            split(LayoutType::Vertical, 1, 3),
        ]
    );
}

#[test]
fn create_after_middle_window_renumbers() {
    let mut app = scenario_a();
    app.on_key_event(ctrl('t'));
    app.on_key_event(ch('l'));
    app.on_key_event(alt('t'));
    assert_eq!(app.selected_window(), 1);
    assert_eq!(
        app.view_grid().clone(),
        vec![
            split(LayoutType::Horizontal, 0, 3),
            split(LayoutType::Horizontal, 0, 1),
            split(LayoutType::Vertical, 1, 2),
        ]
    );
    assert_eq!(app.windows()[2].title(), "3");
    let rects = app.layout(rect(0, 0, 80, 24));
    assert_eq!(rects, vec![rect(0, 0, 20, 24), rect(20, 0, 20, 12), rect(20, 12, 20, 12), rect(40, 0, 40, 24)]);
}

#[test]
fn resolve_places_each_window_once() {
    let grid = vec![split(LayoutType::Horizontal, 0, 1), split(LayoutType::Vertical, 1, 2)];
    let placed = resolve(&grid, rect(0, 0, 7, 5), 3);
    assert_eq!(placed.len(), 3);
    let rects: Vec<Rect> = placed.into_iter().map(|r| r.unwrap()).collect();
    assert_tiles(rect(0, 0, 7, 5), &rects);
}

#[test]
fn window_new_and_selection() {
    let mut w = Window::new("pane".to_string(), false, WindowType::Terminal);
    assert_eq!(w.title(), "pane");
    assert!(!w.is_selected());
    w.selection(true);
    assert!(w.is_selected());
    assert_eq!(w.window_type(), WindowType::Terminal);
    assert_eq!(WindowType::default(), WindowType::Blank);
}

#[test]
fn input_key_press_acts_as_on_key_event() {
    let mut app = App::default();
    assert_eq!(app.windows()[0].title(), "Desktop");
    app.on_input(Some(alt('t')));
    assert_eq!(app.view_grid().clone(), vec![split(LayoutType::Vertical, 0, 1)]);
    app.on_input(Some(ch('l')));
    assert_eq!(app.selected_window(), 1);
    assert_eq!(selected_flags(&app), vec![false, true]);
    app.on_input(Some(ch('x')));
    assert_eq!(app.selected_window(), 1);
    assert!(app.is_running());
    app.on_input(Some(ch('q')));
    assert!(!app.is_running());
}

#[test]
fn later_regions_lie_within_earlier_ones() {
    let area = rect(0, 0, 81, 25);
    let mut app = App::new();
    app.on_key_event(ctrl('t'));
    let first = app.layout(area)[0];
    app.on_key_event(alt('t'));
    let second = app.layout(area)[0];
    app.on_key_event(ctrl('t'));
    let third = app.layout(area)[0];
    for (inner, outer) in [(second, first), (third, second)] {
        assert!(inner.x >= outer.x && inner.x + inner.width <= outer.x + outer.width);
        assert!(inner.y >= outer.y && inner.y + inner.height <= outer.y + outer.height);
    }
    assert_tiles(area, &app.layout(area));
}

#[test]
fn odd_sizes_give_the_extra_cell_to_the_first_half() {
    let mut app = App::new();
    app.on_key_event(ctrl('t'));
    assert_eq!(app.layout(rect(2, 1, 81, 25)), vec![rect(2, 1, 41, 25), rect(43, 1, 40, 25)]);
    let mut app = App::new();
    app.on_key_event(alt('t'));
    assert_eq!(app.layout(rect(0, 3, 10, 7)), vec![rect(0, 3, 10, 4), rect(0, 7, 10, 3)]);
    assert_eq!(app.layout(rect(0, 0, 1, 1)), vec![rect(0, 0, 1, 1), rect(0, 1, 1, 0)]);
}
