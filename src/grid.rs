use vstd::prelude::*;

verus! {

/// A rectangle of character cells on the screen.
#[derive(Clone, Copy, Debug, PartialEq, Eq, Structural)]
pub struct Rect {
    pub x: u16,
    pub y: u16,
    pub width: u16,
    pub height: u16,
}

impl Rect {
    /// Both far edges stay within the coordinate range.
    pub open spec fn fits(self) -> bool {
        self.x + self.width <= u16::MAX && self.y + self.height <= u16::MAX
    }

    /// The cell at column `cx`, row `cy` lies inside the rectangle.
    pub open spec fn contains(self, cx: int, cy: int) -> bool {
        self.x <= cx < self.x + self.width && self.y <= cy < self.y + self.height
    }

    /// The number of cells.
    pub open spec fn area(self) -> int {
        self.width * self.height
    }

    /// Every edge of `self` lies on or inside `outer`'s.
    pub open spec fn lies_within(self, outer: Rect) -> bool {
        &&& outer.x <= self.x && self.x + self.width <= outer.x + outer.width
        &&& outer.y <= self.y && self.y + self.height <= outer.y + outer.height
    }

    /// The two rectangles share at least one cell.
    pub open spec fn overlaps(self, other: Rect) -> bool {
        exists|cx: int, cy: int| #[trigger] self.contains(cx, cy) && #[trigger] other.contains(cx, cy)
    }
}

/// The direction in which a region is cut into two equal halves.
#[derive(Clone, Copy, Debug, PartialEq, Eq, Structural)]
pub enum LayoutType {
    /// Side by side: the first half on the left.
    Horizontal,
    /// Stacked: the first half on top.
    Vertical,
}

/// One entry of the view grid: the region of `first` is cut in two, `first`
/// keeping one half and `second` taking the other.
#[derive(Clone, Copy, Debug, PartialEq, Eq, Structural)]
pub struct Split {
    pub layout: LayoutType,
    pub first: usize,
    pub second: usize,
}

/// The two halves that the layout solver gives for `area`.
pub uninterp spec fn halves(layout: LayoutType, area: Rect) -> (Rect, Rect);

/// `first` and `second` lie next to each other in `layout`'s direction and
/// together fill `area` exactly.
pub open spec fn tiles(layout: LayoutType, area: Rect, first: Rect, second: Rect) -> bool {
    match layout {
        LayoutType::Horizontal => {
            &&& first.x == area.x && first.y == area.y && first.height == area.height
            &&& second.y == area.y && second.height == area.height
            &&& second.x == area.x + first.width
            &&& first.width + second.width == area.width
        },
        LayoutType::Vertical => {
            &&& first.x == area.x && first.y == area.y && first.width == area.width
            &&& second.x == area.x && second.width == area.width
            &&& second.y == area.y + first.height
            &&& first.height + second.height == area.height
        },
    }
}

/// Relies on ratatui's `Layout::split` with two `Percentage(50)` constraints,
/// the default `Flex::Start`, no margin and no spacing: the solver pins the
/// outer edges to the area, keeps the first spacer empty and the middle one at
/// the zero spacing, and the percentages outweigh the last spacer's growth, so
/// the two segments meet and together fill the area. Both edges are rounded
/// half away from zero, so the first segment takes the extra cell of an odd
/// size.
#[verifier::external_body]
fn split_in_half(layout: LayoutType, area: Rect) -> (r: (Rect, Rect))
    requires
        area.fits(),
    ensures
        r == halves(layout, area),
        tiles(layout, area, r.0, r.1),
        layout == LayoutType::Horizontal ==> r.0.width == (area.width + 1) / 2,
        layout == LayoutType::Vertical ==> r.0.height == (area.height + 1) / 2,
{
    let constraints = [ratatui::layout::Constraint::Percentage(50); 2];
    let parts = match layout {
        LayoutType::Horizontal => ratatui::layout::Layout::horizontal(constraints),
        LayoutType::Vertical => ratatui::layout::Layout::vertical(constraints),
    }.split(ratatui::layout::Rect { x: area.x, y: area.y, width: area.width, height: area.height });
    let (a, b) = (parts[0], parts[1]);
    (Rect { x: a.x, y: a.y, width: a.width, height: a.height },
     Rect { x: b.x, y: b.y, width: b.width, height: b.height })
}

/// The region that `entry` cuts in two: the one already held by one of the two
/// slots (the first slot is looked at first), or the whole area when neither
/// holds one yet.
pub open spec fn cut_region(placed: Seq<Option<Rect>>, entry: Split, area: Rect) -> Rect {
    if placed[entry.first as int] is Some {
        placed[entry.first as int]->Some_0
    } else if placed[entry.second as int] is Some {
        placed[entry.second as int]->Some_0
    } else {
        area
    }
}

/// Replays one entry: the region cut in two is the one already held by one of
/// the two slots (the first slot is looked at first), or the whole area when
/// neither holds one yet; the first slot gets the first half.
pub open spec fn apply_split(placed: Seq<Option<Rect>>, entry: Split, area: Rect) -> Seq<Option<Rect>> {
    let (a, b) = halves(entry.layout, cut_region(placed, entry, area));
    placed.update(entry.first as int, Some(a)).update(entry.second as int, Some(b))
}

/// The regions of `n` windows after replaying the first `j` entries of `grid`.
pub open spec fn placed_after(grid: Seq<Split>, area: Rect, n: nat, j: nat) -> Seq<Option<Rect>>
    decreases j,
{
    if j == 0 {
        Seq::new(n, |i: int| None)
    } else {
        apply_split(placed_after(grid, area, n, (j - 1) as nat), grid[j - 1], area)
    }
}

/// The region of each of `n` windows: with no entry the single window has the
/// whole area.
pub open spec fn resolved(grid: Seq<Split>, area: Rect, n: nat) -> Seq<Option<Rect>> {
    if grid.len() == 0 {
        Seq::new(n, |i: int| if i == 0 { Some(area) } else { None })
    } else {
        placed_after(grid, area, n, grid.len())
    }
}

#[verifier::opaque]
/// Among the first `j` entries, a window's region only ever shrinks: once a
/// window is placed, each later region it gets lies within each earlier one.
pub open spec fn nested_upto(grid: Seq<Split>, area: Rect, n: nat, j: nat) -> bool {
    forall|j1: nat, j2: nat, i: int|
        j1 <= j2 <= j && 0 <= i < n && (#[trigger] placed_after(grid, area, n, j1)[i]) is Some ==> {
            let later = #[trigger] placed_after(grid, area, n, j2)[i];
            later is Some && later->Some_0.lies_within(placed_after(grid, area, n, j1)[i]->Some_0)
        }
}

#[verifier::opaque]
/// Each of the first `j` entries cut its region into two halves that tile it,
/// and whose cell counts add up to the region's.
pub open spec fn cuts_tile_upto(grid: Seq<Split>, area: Rect, n: nat, j: nat) -> bool {
    forall|k: nat| #![trigger grid[k as int]] k < j ==> {
        let e = grid[k as int];
        let after = placed_after(grid, area, n, k + 1);
        let cut = cut_region(placed_after(grid, area, n, k), e, area);
        &&& tiles(e.layout, cut, after[e.first as int]->Some_0, after[e.second as int]->Some_0)
        &&& after[e.first as int]->Some_0.area() + after[e.second as int]->Some_0.area() == cut.area()
    }
}

proof fn lemma_nothing_cut_yet(grid: Seq<Split>, area: Rect, n: nat)
    ensures
        nested_upto(grid, area, n, 0),
        cuts_tile_upto(grid, area, n, 0),
{
    reveal(nested_upto);
    reveal(cuts_tile_upto);
    assert forall|i: int| 0 <= i < n implies #[trigger] placed_after(grid, area, n, 0)[i] is None by {}
}

proof fn lemma_step_keeps_nesting(grid: Seq<Split>, area: Rect, n: nat, j: nat)
    requires
        j < grid.len(),
        grid[j as int].first < n,
        grid[j as int].second < n,
        grid[j as int].first != grid[j as int].second,
        placed_after(grid, area, n, j).len() == n,
        j > 0 ==> placed_after(grid, area, n, j)[grid[j as int].first as int] is Some
            && placed_after(grid, area, n, j)[grid[j as int].second as int] is None,
        ({
            let e = grid[j as int];
            let parent = cut_region(placed_after(grid, area, n, j), e, area);
            tiles(e.layout, parent, halves(e.layout, parent).0, halves(e.layout, parent).1)
        }),
        nested_upto(grid, area, n, j),
        cuts_tile_upto(grid, area, n, j),
    ensures
        nested_upto(grid, area, n, j + 1),
        cuts_tile_upto(grid, area, n, j + 1),
{
    reveal(nested_upto);
    reveal(cuts_tile_upto);
    let e = grid[j as int];
    let f = e.first as int;
    let s = e.second as int;
    let before = placed_after(grid, area, n, j);
    let after = placed_after(grid, area, n, j + 1);
    let parent = cut_region(before, e, area);
    let (a, b) = halves(e.layout, parent);
    assert(after == apply_split(before, e, area));
    assert(after[f] == Some(a));
    assert(after[s] == Some(b));
    assert forall|k: nat| #![trigger grid[k as int]] k < j + 1 implies {
        let e = grid[k as int];
        let after = placed_after(grid, area, n, k + 1);
        let cut = cut_region(placed_after(grid, area, n, k), e, area);
        &&& tiles(e.layout, cut, after[e.first as int]->Some_0, after[e.second as int]->Some_0)
        &&& after[e.first as int]->Some_0.area() + after[e.second as int]->Some_0.area() == cut.area()
    } by {
        if k == j {
            lemma_tiles_area(e.layout, parent, a, b);
        }
    }
    assert forall|j1: nat, j2: nat, i: int|
        j1 <= j2 <= j + 1 && 0 <= i < n && (#[trigger] placed_after(grid, area, n, j1)[i]) is Some implies {
            let later = #[trigger] placed_after(grid, area, n, j2)[i];
            later is Some && later->Some_0.lies_within(placed_after(grid, area, n, j1)[i]->Some_0)
        } by {
        if j2 == j + 1 && j1 < j + 1 {
            let earlier = placed_after(grid, area, n, j1)[i];
            if j == 0 {
                assert(placed_after(grid, area, n, 0)[i] is None);
            } else {
                assert(before[i] is Some);
                assert(before[i]->Some_0.lies_within(earlier->Some_0));
                if i != f && i != s {
                    assert(after[i] == before[i]);
                }
            }
        }
    }
}

/// The cells of a placed region; none for a window not placed.
pub open spec fn area_of(r: Option<Rect>) -> int {
    match r {
        Some(x) => x.area(),
        None => 0,
    }
}

/// The cells of all placed regions, added up.
pub open spec fn total_area(placed: Seq<Option<Rect>>) -> int
    decreases placed.len(),
{
    if placed.len() == 0 {
        0
    } else {
        total_area(placed.drop_last()) + area_of(placed.last())
    }
}

proof fn lemma_total_area_update(placed: Seq<Option<Rect>>, i: int, v: Option<Rect>)
    requires
        0 <= i < placed.len(),
    ensures
        total_area(placed.update(i, v)) == total_area(placed) - area_of(placed[i]) + area_of(v),
    decreases placed.len(),
{
    if i == placed.len() - 1 {
        assert(placed.update(i, v).drop_last() =~= placed.drop_last());
    } else {
        lemma_total_area_update(placed.drop_last(), i, v);
        assert(placed.update(i, v).drop_last() =~= placed.drop_last().update(i, v));
    }
}

proof fn lemma_total_area_none(n: nat)
    ensures
        total_area(Seq::new(n, |i: int| None::<Rect>)) == 0,
    decreases n,
{
    if n > 0 {
        lemma_total_area_none((n - 1) as nat);
        assert(Seq::new(n, |i: int| None::<Rect>).drop_last() =~= Seq::new((n - 1) as nat, |i: int| None::<Rect>));
    }
}

/// Two halves that tile a region have, together, as many cells as it.
pub proof fn lemma_tiles_area(layout: LayoutType, parent: Rect, a: Rect, b: Rect)
    requires
        tiles(layout, parent, a, b),
    ensures
        a.area() + b.area() == parent.area(),
{
    match layout {
        LayoutType::Horizontal => {
            assert(a.width * parent.height + b.width * parent.height == (a.width + b.width) * parent.height)
                by (nonlinear_arith);
        },
        LayoutType::Vertical => {
            assert(parent.width * a.height + parent.width * b.height == parent.width * (a.height + b.height))
                by (nonlinear_arith);
        },
    }
}

/// The window indices named by the first `j` entries.
pub open spec fn slots_before(grid: Seq<Split>, j: nat) -> Set<usize>
    decreases j,
{
    if j == 0 {
        Set::empty()
    } else {
        slots_before(grid, (j - 1) as nat).insert(grid[j - 1].first).insert(grid[j - 1].second)
    }
}

/// A view grid for `n` windows (an index of each fits in `usize`): one entry per window beyond the first, every
/// slot a valid index, each entry after the first cutting a region that is
/// already placed to make room for a window that is not, and every window
/// placed once there is an entry.
pub open spec fn grid_wf(grid: Seq<Split>, n: nat) -> bool {
    &&& 1 <= n <= usize::MAX
    &&& grid.len() + 1 == n
    &&& forall|k: int| 0 <= k < grid.len() ==> #[trigger] grid[k].first < n && grid[k].second < n
        && grid[k].first != grid[k].second
    &&& forall|k: int| 0 < k < grid.len() ==> slots_before(grid, k as nat).contains(#[trigger] grid[k].first)
        && !slots_before(grid, k as nat).contains(grid[k].second)
    &&& forall|i: usize| i < n && n >= 2 ==> #[trigger] slots_before(grid, grid.len()).contains(i)
}


/// Cutting a region in half loses no cell and gives no cell to both halves.
proof fn lemma_halves_cells(layout: LayoutType, parent: Rect, a: Rect, b: Rect)
    requires
        tiles(layout, parent, a, b),
    ensures
        forall|cx: int, cy: int| #[trigger] parent.contains(cx, cy) <==> (a.contains(cx, cy) || b.contains(cx, cy)),
        forall|cx: int, cy: int| !(#[trigger] a.contains(cx, cy) && #[trigger] b.contains(cx, cy)),
        parent.fits() ==> a.fits() && b.fits(),
{
}

/// The region of every window of `grid`: each window gets exactly one, no two
/// share a cell, and together they cover `area` cell for cell, their cells
/// adding up to the area's. Along the way every cut tiles the region it cuts,
/// and a window's region only ever shrinks.
pub fn resolve(grid: &Vec<Split>, area: Rect, n: usize) -> (r: Vec<Option<Rect>>)
    requires
        grid_wf(grid@, n as nat),
        area.fits(),
    ensures
        r@ == resolved(grid@, area, n as nat),
        r.len() == n,
        nested_upto(grid@, area, n as nat, grid.len() as nat),
        cuts_tile_upto(grid@, area, n as nat, grid.len() as nat),
        total_area(r@) == area.area(),
        forall|i: int| 0 <= i < n ==> #[trigger] r[i] is Some,
        forall|i: int, k: int|
            0 <= i < n && 0 <= k < n && i != k ==> !(#[trigger] r[i]->Some_0).overlaps(#[trigger] r[k]->Some_0),
        forall|cx: int, cy: int|
            #[trigger] area.contains(cx, cy) <==> exists|i: int| 0 <= i < n && (#[trigger] r[i]->Some_0).contains(cx, cy),
{
    let mut placed: Vec<Option<Rect>> = Vec::new();
    if grid.len() == 0 {
        placed.push(Some(area));
        assert(placed@ =~= resolved(grid@, area, n as nat));
        proof {
            lemma_nothing_cut_yet(grid@, area, n as nat);
            assert(placed@.drop_last() =~= Seq::<Option<Rect>>::empty());
            assert(total_area(placed@.drop_last()) == 0);
            assert(placed@.last() == Some(area));
        }
        assert forall|cx: int, cy: int| #[trigger] area.contains(cx, cy) implies
            exists|i: int| 0 <= i < n && (#[trigger] placed[i]->Some_0).contains(cx, cy) by {
            assert(placed[0]->Some_0.contains(cx, cy));
        }
        return placed;
    }
    let mut i: usize = 0;
    while i < n
        invariant
            i <= n,
            placed@ =~= Seq::new(i as nat, |k: int| None::<Rect>),
        decreases n - i,
    {
        placed.push(None);
        i += 1;
    }
    assert(placed@ =~= placed_after(grid@, area, n as nat, 0));
    proof {
        lemma_nothing_cut_yet(grid@, area, n as nat);
    }
    let mut j: usize = 0;
    while j < grid.len()
        invariant
            grid_wf(grid@, n as nat),
            area.fits(),
            0 <= j <= grid.len(),
            placed@ == placed_after(grid@, area, n as nat, j as nat),
            placed.len() == n,
            nested_upto(grid@, area, n as nat, j as nat),
            cuts_tile_upto(grid@, area, n as nat, j as nat),
            j > 0 ==> total_area(placed@) == area.area(),
            forall|i: int| 0 <= i < n ==> (#[trigger] placed[i] is Some <==> slots_before(grid@, j as nat).contains(i as usize)),
            forall|i: int| 0 <= i < n && #[trigger] placed[i] is Some ==> placed[i]->Some_0.fits(),
            forall|i: int, k: int|
                0 <= i < n && 0 <= k < n && i != k && placed[i] is Some && placed[k] is Some
                    ==> !(#[trigger] placed[i]->Some_0).overlaps(#[trigger] placed[k]->Some_0),
            j > 0 ==> forall|cx: int, cy: int| #[trigger] area.contains(cx, cy) <==>
                exists|i: int| 0 <= i < n && placed[i] is Some && (#[trigger] placed[i]->Some_0).contains(cx, cy),
        decreases grid.len() - j,
    {
        let entry = grid[j];
        assert(grid@[j as int] == entry);
        let ghost old_placed = placed@;
        let parent = match placed[entry.first] {
            Some(p) => p,
            None => match placed[entry.second] {
                Some(p) => p,
                None => area,
            },
        };
        let (a, b) = split_in_half(entry.layout, parent);
        proof {
            lemma_halves_cells(entry.layout, parent, a, b);
        }
        placed.set(entry.first, Some(a));
        placed.set(entry.second, Some(b));
        proof {
            let f = entry.first as int;
            let s = entry.second as int;
            assert(placed@ == apply_split(old_placed, entry, area));
            assert(slots_before(grid@, (j + 1) as nat) == slots_before(grid@, j as nat).insert(entry.first).insert(entry.second));
            if j == 0 {
                assert(parent == area);
            } else {
                assert(old_placed[f] is Some);
                assert(old_placed[s] is None);
                assert(parent == old_placed[f]->Some_0);
            }
            assert forall|i: int, k: int|
                0 <= i < n && 0 <= k < n && i != k && placed[i] is Some && placed[k] is Some
                    implies !(#[trigger] placed[i]->Some_0).overlaps(#[trigger] placed[k]->Some_0) by {
                if placed[i]->Some_0.overlaps(placed[k]->Some_0) {
                    let (cx, cy) = choose|cx: int, cy: int| #[trigger] placed[i]->Some_0.contains(cx, cy)
                        && #[trigger] placed[k]->Some_0.contains(cx, cy);
                    assert(placed[i]->Some_0.contains(cx, cy) && placed[k]->Some_0.contains(cx, cy));
                    if (i == f || i == s) && (k == f || k == s) {
                    } else if i == f || i == s {
                        assert(parent.contains(cx, cy));
                        assert(old_placed[k]->Some_0.contains(cx, cy));
                        if j == 0 {
                        } else {
                            assert(old_placed[f]->Some_0.overlaps(old_placed[k]->Some_0));
                        }
                    } else if k == f || k == s {
                        assert(parent.contains(cx, cy));
                        assert(old_placed[i]->Some_0.contains(cx, cy));
                        if j == 0 {
                        } else {
                            assert(old_placed[f]->Some_0.overlaps(old_placed[i]->Some_0));
                        }
                    } else {
                        assert(old_placed[i]->Some_0.overlaps(old_placed[k]->Some_0));
                    }
                }
            }
            assert forall|cx: int, cy: int| #[trigger] area.contains(cx, cy) <==>
                exists|i: int| 0 <= i < n && placed[i] is Some && (#[trigger] placed[i]->Some_0).contains(cx, cy) by {
                if area.contains(cx, cy) {
                    let w = if j == 0 {
                        f
                    } else {
                        choose|i: int| 0 <= i < n && old_placed[i] is Some && (#[trigger] old_placed[i]->Some_0).contains(cx, cy)
                    };
                    if w == f {
                        if a.contains(cx, cy) {
                            assert(placed[f]->Some_0.contains(cx, cy));
                        } else {
                            assert(placed[s]->Some_0.contains(cx, cy));
                        }
                    } else {
                        assert(placed[w]->Some_0.contains(cx, cy));
                    }
                }
                if exists|i: int| 0 <= i < n && placed[i] is Some && (#[trigger] placed[i]->Some_0).contains(cx, cy) {
                    let w = choose|i: int| 0 <= i < n && placed[i] is Some && (#[trigger] placed[i]->Some_0).contains(cx, cy);
                    if w == f || w == s {
                        assert(parent.contains(cx, cy));
                        if j > 0 {
                            assert(old_placed[f]->Some_0.contains(cx, cy));
                        }
                    } else {
                        assert(old_placed[w]->Some_0.contains(cx, cy));
                    }
                }
            }
        }
        proof {
            assert(parent == cut_region(old_placed, entry, area));
            lemma_step_keeps_nesting(grid@, area, n as nat, j as nat);
            let mid = old_placed.update(entry.first as int, Some(a));
            lemma_total_area_update(old_placed, entry.first as int, Some(a));
            lemma_total_area_update(mid, entry.second as int, Some(b));
            assert(placed@ == mid.update(entry.second as int, Some(b)));
            lemma_tiles_area(entry.layout, parent, a, b);
            if j == 0 {
                lemma_total_area_none(n as nat);
                assert(old_placed =~= Seq::new(n as nat, |i: int| None::<Rect>));
            }
        }
        j += 1;
    }
    proof {
        assert forall|i: int| 0 <= i < n implies #[trigger] placed[i] is Some by {
            assert(slots_before(grid@, grid@.len()).contains(i as usize));
        }
    }
    placed
}


/// Where a window index ends up once a window is inserted right after `anchor`.
pub open spec fn shifted(v: usize, anchor: usize) -> usize {
    if v > anchor {
        (v + 1) as usize
    } else {
        v
    }
}

/// Every entry of `grid` with its slots moved as `shifted` says.
pub open spec fn shift_all(grid: Seq<Split>, anchor: usize) -> Seq<Split> {
    Seq::new(
        grid.len(),
        |k: int| Split {
            layout: grid[k].layout,
            first: shifted(grid[k].first, anchor),
            second: shifted(grid[k].second, anchor),
        },
    )
}

/// Moves the slots of every entry to make room for a window inserted right
/// after `anchor`: a slot below or at `anchor` stays, a slot above it grows by
/// one.
pub fn renumber(grid: &mut Vec<Split>, anchor: usize)
    requires
        forall|k: int| 0 <= k < old(grid).len() ==> #[trigger] old(grid)[k].first < usize::MAX
            && old(grid)[k].second < usize::MAX,
    ensures
        final(grid)@ == shift_all(old(grid)@, anchor),
        final(grid).len() == old(grid).len(),
        forall|k: int| 0 <= k < old(grid).len() ==> {
            let (e, f) = (#[trigger] old(grid)[k], final(grid)[k]);
            &&& f.layout == e.layout
            &&& e.first <= anchor ==> f.first == e.first
            &&& e.first > anchor ==> f.first == e.first + 1
            &&& e.second <= anchor ==> f.second == e.second
            &&& e.second > anchor ==> f.second == e.second + 1
        },
{
    let ghost before = grid@;
    let mut k: usize = 0;
    while k < grid.len()
        invariant
            0 <= k <= grid.len(),
            grid.len() == before.len(),
            forall|i: int| 0 <= i < before.len() ==> #[trigger] before[i].first < usize::MAX
                && before[i].second < usize::MAX,
            forall|i: int| 0 <= i < k ==> #[trigger] grid@[i] == shift_all(before, anchor)[i],
            forall|i: int| k <= i < before.len() ==> #[trigger] grid@[i] == before[i],
        decreases grid.len() - k,
    {
        let e = grid[k];
        let first = if e.first > anchor { e.first + 1 } else { e.first };
        let second = if e.second > anchor { e.second + 1 } else { e.second };
        grid.set(k, Split { layout: e.layout, first, second });
        k += 1;
    }
    assert(grid@ =~= shift_all(before, anchor));
}

proof fn lemma_slots_prefix(grid: Seq<Split>, e: Split, j: nat)
    requires
        j <= grid.len(),
    ensures
        slots_before(grid.push(e), j) == slots_before(grid, j),
    decreases j,
{
    if j > 0 {
        lemma_slots_prefix(grid, e, (j - 1) as nat);
        assert(grid.push(e)[j - 1] == grid[j - 1]);
    }
}

proof fn lemma_slots_shifted(grid: Seq<Split>, n: nat, anchor: usize, j: nat)
    requires
        j <= grid.len(),
        anchor < n < usize::MAX,
        forall|k: int| 0 <= k < grid.len() ==> #[trigger] grid[k].first < n && grid[k].second < n,
    ensures
        forall|u: usize| u < n ==> (#[trigger] slots_before(shift_all(grid, anchor), j).contains(shifted(u, anchor))
            <==> slots_before(grid, j).contains(u)),
        !slots_before(shift_all(grid, anchor), j).contains((anchor + 1) as usize),
        forall|v: usize| #[trigger] slots_before(shift_all(grid, anchor), j).contains(v) ==> v < n + 1,
    decreases j,
{
    if j > 0 {
        lemma_slots_shifted(grid, n, anchor, (j - 1) as nat);
        let e = grid[j - 1];
        assert(e.first < n && e.second < n);
        assert(shift_all(grid, anchor)[j - 1].first == shifted(e.first, anchor));
        assert(shift_all(grid, anchor)[j - 1].second == shifted(e.second, anchor));
    }
}

/// Inserting a window right after `anchor`, moving the slots and appending the
/// entry that cuts `anchor`'s region for the new window keeps the grid well
/// formed, now for one window more.
pub proof fn lemma_insert_keeps_wf(grid: Seq<Split>, n: nat, anchor: usize, layout: LayoutType)
    requires
        grid_wf(grid, n),
        anchor < n < usize::MAX,
    ensures
        grid_wf(shift_all(grid, anchor).push(Split { layout, first: anchor, second: (anchor + 1) as usize }), n + 1),
{
    let e = Split { layout, first: anchor, second: (anchor + 1) as usize };
    let sh = shift_all(grid, anchor);
    let g2 = sh.push(e);
    let m = grid.len();
    assert forall|k: int| 0 <= k < m implies #[trigger] grid[k].first < n && grid[k].second < n by {}
    assert forall|k: nat| k <= m implies #[trigger] slots_before(g2, k) == slots_before(sh, k) by {
        lemma_slots_prefix(sh, e, k);
    }
    assert forall|k: int| 0 <= k < g2.len() implies #[trigger] g2[k].first < n + 1 && g2[k].second < n + 1
        && g2[k].first != g2[k].second by {
        if k < m {
            assert(g2[k] == sh[k]);
        }
    }
    assert forall|k: int| 0 < k < g2.len() implies slots_before(g2, k as nat).contains(#[trigger] g2[k].first)
        && !slots_before(g2, k as nat).contains(g2[k].second) by {
        lemma_slots_shifted(grid, n, anchor, k as nat);
        if k < m {
            assert(g2[k] == sh[k]);
            assert(grid[k].first < n && grid[k].second < n);
        } else {
            assert(n >= 2);
            assert(slots_before(grid, m).contains(anchor));
            assert(shifted(anchor, anchor) == anchor);
        }
    }
    assert forall|i: usize| i < n + 1 && n + 1 >= 2 implies #[trigger] slots_before(g2, g2.len()).contains(i) by {
        lemma_slots_shifted(grid, n, anchor, m);
        assert(g2[m as int] == e);
        assert(slots_before(g2, g2.len()) == slots_before(g2, m).insert(anchor).insert((anchor + 1) as usize));
        if i <= anchor {
            if i != anchor {
                assert(slots_before(grid, m).contains(i));
                assert(shifted(i, anchor) == i);
            }
        } else if i > anchor + 1 {
            let u = (i - 1) as usize;
            assert(slots_before(grid, m).contains(u));
            assert(shifted(u, anchor) == i);
        }
    }
}


proof fn lemma_placed_slots(grid: Seq<Split>, area: Rect, n: nat, j: nat)
    requires
        j <= grid.len(),
        forall|k: int| 0 <= k < grid.len() ==> #[trigger] grid[k].first < n && grid[k].second < n,
    ensures
        placed_after(grid, area, n, j).len() == n,
        forall|i: usize| i < n ==> (#[trigger] placed_after(grid, area, n, j)[i as int] is Some
            <==> slots_before(grid, j).contains(i)),
    decreases j,
{
    if j > 0 {
        lemma_placed_slots(grid, area, n, (j - 1) as nat);
        assert(grid[j - 1].first < n && grid[j - 1].second < n);
    }
}

/// Whatever the cuts were, resolving a well-formed view grid gives exactly one
/// region to each window.
pub proof fn lemma_every_window_placed(grid: Seq<Split>, area: Rect, n: nat)
    requires
        grid_wf(grid, n),
    ensures
        resolved(grid, area, n).len() == n,
        forall|i: int| 0 <= i < n ==> #[trigger] resolved(grid, area, n)[i] is Some,
{
    let m = grid.len();
    if m > 0 {
        assert forall|k: int| 0 <= k < m implies #[trigger] grid[k].first < n && grid[k].second < n by {}
        lemma_placed_slots(grid, area, n, m);
        let r = placed_after(grid, area, n, m);
        assert(resolved(grid, area, n) == r);
        assert forall|i: int| 0 <= i < n implies #[trigger] r[i] is Some by {
            let u = i as usize;
            assert(slots_before(grid, m).contains(u));
            assert(r[u as int] is Some);
        }
    } else {
        assert(n == 1);
    }
}

} // verus!
