pub mod grid;
pub mod input;
pub mod window;

use vstd::prelude::*;
use crate::grid::{
    cuts_tile_upto, grid_wf, total_area, lemma_insert_keeps_wf, nested_upto, renumber, resolve, resolved, shift_all, LayoutType, Rect,
    Split,
};
use crate::input::{command_for, command_of, Command, KeyInput};
use crate::window::{decimal, decimal_string, Window, WindowType};

verus! {

/// The window manager: the registry of windows, the view grid that lays them
/// out, and the selected window.
pub struct App {
    running: bool,
    windows: Vec<Window>,
    view_grid: Vec<Split>,
    selected_window: usize,
}

/// The window before `s` among `n`, wrapping from the first to the last.
pub open spec fn previous_index(s: nat, n: nat) -> nat {
    if s == 0 {
        (n - 1) as nat
    } else {
        (s - 1) as nat
    }
}

/// The window after `s` among `n`, wrapping from the last to the first.
pub open spec fn next_index(s: nat, n: nat) -> nat {
    if s + 1 == n {
        0
    } else {
        s + 1
    }
}

impl App {
    pub closed spec fn spec_running(&self) -> bool {
        self.running
    }

    pub closed spec fn spec_windows(&self) -> Seq<Window> {
        self.windows@
    }

    pub closed spec fn spec_grid(&self) -> Seq<Split> {
        self.view_grid@
    }

    pub closed spec fn spec_selected(&self) -> nat {
        self.selected_window as nat
    }

    /// At least one window, exactly one of them selected (the cursor's), and a
    /// view grid that places every window.
    pub open spec fn wf(&self) -> bool {
        let w = self.spec_windows();
        &&& 1 <= w.len() < usize::MAX
        &&& self.spec_selected() < w.len()
        &&& forall|i: int| 0 <= i < w.len() ==> (#[trigger] w[i].is_selected <==> i == self.spec_selected())
        &&& grid_wf(self.spec_grid(), w.len())
    }

    /// A well-formed manager has exactly one selected window: the cursor's.
    pub proof fn lemma_one_selected(&self)
        requires
            self.wf(),
        ensures
            self.spec_windows()[self.spec_selected() as int].is_selected,
            forall|i: int, k: int| 0 <= i < self.spec_windows().len() && 0 <= k < self.spec_windows().len()
                && (#[trigger] self.spec_windows()[i]).is_selected && (#[trigger] self.spec_windows()[k]).is_selected ==> i == k,
    {
    }

    /// `self` is `old` with the selection moved to `target`.
    pub open spec fn selected_moved(&self, old: App, target: nat) -> bool {
        let (w, v) = (old.spec_windows(), self.spec_windows());
        &&& v.len() == w.len()
        &&& forall|i: int| 0 <= i < w.len() ==> (#[trigger] v[i]).title == w[i].title
            && v[i].window_type == w[i].window_type && (v[i].is_selected <==> i == target)
        &&& self.spec_selected() == target
        &&& self.spec_grid() == old.spec_grid()
        &&& self.spec_running() == old.spec_running()
    }

    /// `self` is `old` with a window of `window_type` inserted right after the
    /// selected one, titled with the number of windows before, its region cut
    /// from the selected window's by `layout_type`; the selection stays.
    pub open spec fn window_created(&self, old: App, window_type: WindowType, layout_type: LayoutType) -> bool {
        let (w, v) = (old.spec_windows(), self.spec_windows());
        let s = old.spec_selected() as int;
        &&& v.len() == w.len() + 1
        &&& forall|i: int| 0 <= i <= s ==> #[trigger] v[i] == w[i]
        &&& forall|i: int| s + 1 < i < v.len() ==> #[trigger] v[i] == w[i - 1]
        &&& v[s + 1].title@ == decimal(w.len())
        &&& v[s + 1].window_type == window_type
        &&& !v[s + 1].is_selected
        &&& self.spec_grid() == shift_all(old.spec_grid(), s as usize).push(
            Split { layout: layout_type, first: s as usize, second: (s + 1) as usize },
        )
        &&& self.spec_selected() == s
        &&& self.spec_running() == old.spec_running()
    }

    /// `self` is `old` after the key press `key`: quit, a window created or the
    /// selection moved as `command_of` says, and nothing changed for any other
    /// key.
    pub open spec fn key_handled(&self, old: App, key: KeyInput) -> bool {
        match command_of(key) {
            Command::Quit => {
                &&& !self.spec_running()
                &&& self.spec_windows() == old.spec_windows()
                &&& self.spec_grid() == old.spec_grid()
                &&& self.spec_selected() == old.spec_selected()
            },
            Command::CreateWindow(layout) => self.window_created(old, WindowType::Terminal, layout),
            Command::SelectPrevious => self.selected_moved(
                old,
                previous_index(old.spec_selected(), old.spec_windows().len()),
            ),
            Command::SelectNext => self.selected_moved(
                old,
                next_index(old.spec_selected(), old.spec_windows().len()),
            ),
            Command::Ignore => *self == old,
        }
    }

    /// A running manager with one window, "Desktop", selected and filling
    /// the screen.
    pub fn new() -> (app: App)
        ensures
            app.wf(),
            app.spec_running(),
            app.spec_windows().len() == 1,
            app.spec_windows()[0].title@ == "Desktop"@,
            app.spec_windows()[0].window_type == WindowType::Blank,
            app.spec_selected() == 0,
            app.spec_grid().len() == 0,
    {
        let mut windows: Vec<Window> = Vec::new();
        windows.push(Window::new("Desktop".to_string(), true, WindowType::Blank));
        App { running: true, windows, view_grid: Vec::new(), selected_window: 0 }
    }

    pub fn is_running(&self) -> (r: bool)
        ensures
            r == self.spec_running(),
    {
        self.running
    }

    pub fn windows(&self) -> (r: &Vec<Window>)
        ensures
            r@ == self.spec_windows(),
    {
        &self.windows
    }

    pub fn view_grid(&self) -> (r: &Vec<Split>)
        ensures
            r@ == self.spec_grid(),
    {
        &self.view_grid
    }

    pub fn selected_window(&self) -> (r: usize)
        ensures
            r == self.spec_selected(),
    {
        self.selected_window
    }

    pub fn quit(&mut self)
        ensures
            !final(self).spec_running(),
            final(self).spec_windows() == old(self).spec_windows(),
            final(self).spec_grid() == old(self).spec_grid(),
            final(self).spec_selected() == old(self).spec_selected(),
    {
        self.running = false;
    }

    fn mark(&mut self, i: usize, is_selected: bool)
        requires
            i < old(self).windows.len(),
        ensures
            final(self).windows@ == old(self).windows@.update(
                i as int,
                Window { is_selected, ..old(self).windows@[i as int] },
            ),
            final(self).view_grid == old(self).view_grid,
            final(self).selected_window == old(self).selected_window,
            final(self).running == old(self).running,
    {
        let mut w = self.windows.remove(i);
        w.selection(is_selected);
        self.windows.insert(i, w);
        assert(self.windows@ =~= old(self).windows@.update(
            i as int,
            Window { is_selected, ..old(self).windows@[i as int] },
        ));
    }

    fn select(&mut self, target: usize)
        requires
            old(self).wf(),
            target < old(self).windows.len(),
        ensures
            final(self).wf(),
            final(self).selected_moved(*old(self), target as nat),
    {
        let s = self.selected_window;
        self.mark(s, false);
        self.mark(target, true);
        self.selected_window = target;
    }

    /// Moves the selection to the previous window, from the first to the last.
    pub fn select_previous(&mut self)
        requires
            old(self).wf(),
        ensures
            final(self).wf(),
            final(self).selected_moved(
                *old(self),
                previous_index(old(self).spec_selected(), old(self).spec_windows().len()),
            ),
    {
        let target = if self.selected_window == 0 {
            self.windows.len() - 1
        } else {
            self.selected_window - 1
        };
        self.select(target);
    }

    /// Moves the selection to the next window, from the last to the first.
    pub fn select_next(&mut self)
        requires
            old(self).wf(),
        ensures
            final(self).wf(),
            final(self).selected_moved(
                *old(self),
                next_index(old(self).spec_selected(), old(self).spec_windows().len()),
            ),
    {
        let target = if self.selected_window + 1 == self.windows.len() {
            0
        } else {
            self.selected_window + 1
        };
        self.select(target);
    }

    /// Inserts a window right after the selected one and cuts the selected
    /// window's region in two for it.
    pub fn create_window(&mut self, window_type: WindowType, layout_type: LayoutType)
        requires
            old(self).wf(),
            old(self).spec_windows().len() + 1 < usize::MAX,
        ensures
            final(self).wf(),
            final(self).window_created(*old(self), window_type, layout_type),
    {
        let ghost before = *self;
        let s = self.selected_window;
        let n = self.windows.len();
        let title = decimal_string(n);
        let w = Window::new(title, false, window_type);
        self.windows.insert(s + 1, w);
        proof {
            assert forall|k: int| 0 <= k < self.view_grid.len() implies #[trigger] self.view_grid@[k].first < usize::MAX
                && self.view_grid@[k].second < usize::MAX by {
                assert(self.view_grid@[k].first < n && self.view_grid@[k].second < n);
            }
            lemma_insert_keeps_wf(self.view_grid@, n as nat, s, layout_type);
        }
        renumber(&mut self.view_grid, s);
        self.view_grid.push(Split { layout: layout_type, first: s, second: s + 1 });
        proof {
            let v = self.windows@;
            let w0 = before.windows@;
            assert forall|i: int| 0 <= i < v.len() implies (#[trigger] v[i].is_selected <==> i == s) by {
                if i > s + 1 {
                    assert(v[i] == w0[i - 1]);
                }
            }
        }
    }

    /// Reacts to one key press: quits, creates a window or moves the
    /// selection as the key bindings say, and ignores any other key.
    pub fn on_key_event(&mut self, key: KeyInput)
        requires
            old(self).wf(),
            old(self).spec_windows().len() + 1 < usize::MAX,
        ensures
            final(self).wf(),
            final(self).key_handled(*old(self), key),
    {
        match command_for(&key) {
            Command::Quit => self.quit(),
            Command::CreateWindow(layout) => self.create_window(WindowType::Terminal, layout),
            Command::SelectPrevious => self.select_previous(),
            Command::SelectNext => self.select_next(),
            Command::Ignore => {},
        }
    }

    /// Reacts to what the input stream delivered: a key press, or `None` once
    /// the stream has ended, which quits.
    pub fn on_input(&mut self, event: Option<KeyInput>)
        requires
            old(self).wf(),
            old(self).spec_windows().len() + 1 < usize::MAX,
        ensures
            final(self).wf(),
            event is None ==> !final(self).spec_running()
                && final(self).spec_windows() == old(self).spec_windows()
                && final(self).spec_grid() == old(self).spec_grid()
                && final(self).spec_selected() == old(self).spec_selected(),
            event is Some ==> final(self).key_handled(*old(self), event->Some_0),
    {
        match event {
            Some(key) => self.on_key_event(key),
            None => self.quit(),
        }
    }

    /// The region of each window within `area`, by index: every window has
    /// one, no two share a cell, and together they cover `area`. Replaying the
    /// view grid, each cut tiles the region it cuts, and a window's region only
    /// ever shrinks from one entry to the next; the regions' cells add up to
    /// the area's.
    pub fn layout(&self, area: Rect) -> (r: Vec<Rect>)
        requires
            self.wf(),
            area.fits(),
        ensures
            r.len() == self.spec_windows().len(),
            forall|i: int| 0 <= i < r.len() ==> Some(#[trigger] r[i]) == resolved(self.spec_grid(), area, r.len() as nat)[i],
            nested_upto(self.spec_grid(), area, r.len() as nat, self.spec_grid().len()),
            cuts_tile_upto(self.spec_grid(), area, r.len() as nat, self.spec_grid().len()),
            total_area(resolved(self.spec_grid(), area, r.len() as nat)) == area.area(),
            forall|i: int, k: int| 0 <= i < r.len() && 0 <= k < r.len() && i != k ==> !(#[trigger] r[i]).overlaps(#[trigger] r[k]),
            forall|cx: int, cy: int| #[trigger] area.contains(cx, cy) <==> exists|i: int| 0 <= i < r.len() && (#[trigger] r[i]).contains(cx, cy),
    {
        let n = self.windows.len();
        let placed = resolve(&self.view_grid, area, n);
        let mut rects: Vec<Rect> = Vec::new();
        let mut i: usize = 0;
        while i < n
            invariant
                i <= n,
                n == placed.len(),
                rects.len() == i,
                forall|k: int| 0 <= k < n ==> #[trigger] placed[k] is Some,
                forall|k: int| 0 <= k < i ==> Some(#[trigger] rects[k]) == placed[k],
            decreases n - i,
        {
            match placed[i] {
                Some(r) => rects.push(r),
                None => {},
            }
            i += 1;
        }
        proof {
            assert forall|cx: int, cy: int| #[trigger] area.contains(cx, cy) implies
                exists|i: int| 0 <= i < rects.len() && (#[trigger] rects[i]).contains(cx, cy) by {
                let w = choose|i: int| 0 <= i < n && (#[trigger] placed[i]->Some_0).contains(cx, cy);
                assert(rects[w].contains(cx, cy));
            }
            assert forall|cx: int, cy: int| (exists|i: int| 0 <= i < rects.len() && (#[trigger] rects[i]).contains(cx, cy))
                implies #[trigger] area.contains(cx, cy) by {
                let w = choose|i: int| 0 <= i < rects.len() && (#[trigger] rects[i]).contains(cx, cy);
                assert(placed[w]->Some_0.contains(cx, cy));
            }
            assert forall|i: int, k: int| 0 <= i < rects.len() && 0 <= k < rects.len() && i != k
                implies !(#[trigger] rects[i]).overlaps(#[trigger] rects[k]) by {
                assert(!placed[i]->Some_0.overlaps(placed[k]->Some_0));
            }
        }
        rects
    }
}

impl Default for App {
    /// The same as `App::new`.
    fn default() -> (app: App)
        ensures
            app.wf(),
            app.spec_running(),
            app.spec_windows().len() == 1,
            app.spec_windows()[0].title@ == "Desktop"@,
            app.spec_windows()[0].window_type == WindowType::Blank,
            app.spec_selected() == 0,
            app.spec_grid().len() == 0,
    {
        App::new()
    }
}

} // verus!
