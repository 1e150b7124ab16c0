//! A retained widget tree: widgets live in one arena owned by the `Gui`,
//! each addressed by its position; a parent lists its children by position,
//! and every child sits after its parent. The layout pass sizes and places
//! the widgets; rendering turns the tree into a list of drawing commands.
use std::sync::Arc;
use vstd::prelude::*;
use vstd::string::StringExecFns;
use crate::draw::Color;
use crate::draw::colors;
use crate::draw::text_bounds_spec;
use crate::draw::scale_at;
use crate::draw::TextScale;
use crate::draw::Image;
use crate::math::fits_i32;
use crate::math::trunc_div;
use crate::math::div_trunc;

verus! {

#[derive(Clone, Copy, Debug, PartialEq, Eq, Structural)]
pub enum WidgetType {
    Empty,
    Button,
    Text,
    Div,
    TextInput,
    Image,
}

#[derive(Debug, Clone, Copy)]
pub struct Bounds {
    pub x: i32,
    pub y: i32,
    pub w: i32,
    pub h: i32,
}

/// A shared handle that always upgrades: it keeps its target alive.
pub struct WeakNot<T> {
    v: Arc<T>,
}

impl<T> WeakNot<T> {
    /// The handle's target.
    pub closed spec fn target(&self) -> T {
        *self.v
    }

    pub fn from(tmp: &Arc<T>) -> (r: Self)
        ensures
            r.target() == **tmp,
    {
        Self { v: tmp.clone() }
    }

    pub fn upgrade(&self) -> (r: Option<Arc<T>>)
        ensures
            r matches Some(a) && *a == self.target(),
    {
        Some(self.v.clone())
    }
}

/// A handle on one widget of a `Gui`: its position in the widget arena.
#[derive(Clone, Copy, Debug, PartialEq, Eq, Structural)]
pub struct Widget {
    pub id: usize,
}

/// One widget: its kind, layout direction, geometry, padding, children,
/// text (or image name), name and the handler that `Gui::update` reports.
pub struct WidgetData {
    pub w_type: WidgetType,
    pub vertical: bool,
    pub x: i32,
    pub y: i32,
    pub w: i32,
    pub h: i32,
    pub h_padding: i32,
    pub w_padding: i32,
    pub text_height: i32,
    pub children: Vec<Widget>,
    pub text: String,
    pub name: String,
    pub on_update: Option<usize>,
}

pub enum GuiEvent {
    KeyBoardInput { key: char },
    Pressed,
    Released,
    Nothing,
}

pub struct GuiInput {
    pub events: Vec<GuiEvent>,
    pub mouse_x: i32,
    pub mouse_y: i32,
    pub is_mouse_down: bool,
}

/// The widget arena with its root, input state and the text metrics of
/// each text height.
pub struct Gui {
    pub widgets: Vec<WidgetData>,
    pub current_selected: Option<String>,
    pub input: GuiInput,
    pub destroy_queue: Vec<String>,
    pub root: Widget,
    pub metrics: TextScale,
}

/// Why a layout pass stopped.
#[derive(Clone, Copy, Debug, PartialEq, Eq, Structural)]
pub enum GuiError {
    /// A widget needs more room than the bounds it was given.
    TooBig,
}

impl GuiError {
    pub fn message(&self) -> (s: &'static str)
        ensures
            s@ == "error: created something bigger then its outer bounds"@,
    {
        "error: created something bigger then its outer bounds"
    }
}

/// Every child of `node` sits after position `lo` and inside the arena.
pub open spec fn children_after(nodes: Seq<WidgetData>, node: WidgetData, lo: int) -> bool {
    forall|k: int|
        0 <= k < node.children@.len() ==> lo < (#[trigger] node.children@[k]).id < nodes.len()
}

/// Every widget's children sit after it and inside the arena, so the
/// parent links form a forest.
pub open spec fn tree_wf(nodes: Seq<WidgetData>) -> bool {
    forall|i: int| 0 <= i < nodes.len() ==> children_after(nodes, #[trigger] nodes[i], i)
}

impl Gui {
    pub open spec fn wf(&self) -> bool {
        &&& tree_wf(self.widgets@)
        &&& self.root.id < self.widgets@.len()
    }
}

/// The size a widget asks for by itself: nothing, a 10 x 10 button, the
/// text laid out with the metrics of the widget's own text height (`None`
/// where the scale does not cover that height), or its set size.
pub open spec fn base_size(node: WidgetData, m: TextScale, mb: Bounds) -> Option<(int, int)> {
    match node.w_type {
        WidgetType::Empty => Some((0, 0)),
        WidgetType::Button => Some((10, 10)),
        WidgetType::Text => match scale_at(m, node.text_height as int) {
            None => None,
            Some(tm) => text_bounds_spec(tm.advance as int, tm.line_height as int, mb.w as int, node.text@),
        },
        _ => Some((node.w as int, node.h as int)),
    }
}

/// The bounds handed to the children: `mb`, narrowed to the widget's own
/// set width and height where those are set and smaller.
pub open spec fn inner_bounds(node: WidgetData, mb: Bounds) -> Bounds {
    Bounds {
        x: mb.x,
        y: mb.y,
        w: if node.w != 0 && node.w < mb.w { node.w } else { mb.w },
        h: if node.h != 0 && node.h < mb.h { node.h } else { mb.h },
    }
}

/// The minimum bounds of `node` within `mb`: its children stacked along the
/// layout direction with padding, capped by the widget's own base size.
/// `None` where the arithmetic would leave `i32`.
pub open spec fn bounds_min(nodes: Seq<WidgetData>, m: TextScale, node: WidgetData, mb: Bounds, lo: int) -> Option<Bounds>
    decreases nodes.len() - lo, node.children@.len() + 1,
{
    match base_size(node, m, mb) {
        None => None,
        Some((base_w, base_h)) => match children_min(
            nodes,
            m,
            node,
            inner_bounds(node, mb),
            0,
            node.w_padding as int,
            node.h_padding as int,
            lo,
        ) {
            None => None,
            Some((bw, bh)) => if fits_i32(bw + node.w_padding) && fits_i32(bh + node.h_padding) {
                let bw2 = bw + node.w_padding;
                let bh2 = bh + node.h_padding;
                Some(
                    Bounds {
                        x: 0,
                        y: 0,
                        w: (if bw2 > base_w { base_w } else { bw2 }) as i32,
                        h: (if bh2 > base_h { base_h } else { bh2 }) as i32,
                    },
                )
            } else {
                None
            },
        },
    }
}

/// The running (width, height) after folding the minimum bounds of the
/// children from position `k` on into (`bw`, `bh`).
pub open spec fn children_min(
    nodes: Seq<WidgetData>,
    m: TextScale,
    node: WidgetData,
    inner: Bounds,
    k: int,
    bw: int,
    bh: int,
    lo: int,
) -> Option<(int, int)>
    decreases nodes.len() - lo, node.children@.len() - k,
{
    if k < 0 || k >= node.children@.len() {
        Some((bw, bh))
    } else {
        let c = node.children@[k].id as int;
        if !(lo < c < nodes.len()) {
            None
        } else {
            match bounds_min(nodes, m, nodes[c], inner, c) {
                None => None,
                Some(b) => if node.vertical {
                    if !fits_i32(b.h + node.h_padding) || !fits_i32(bh + b.h + node.h_padding) {
                        None
                    } else {
                        children_min(
                            nodes,
                            m,
                            node,
                            inner,
                            k + 1,
                            if bw < b.w { b.w as int } else { bw },
                            bh + b.h + node.h_padding,
                            lo,
                        )
                    }
                } else {
                    if !fits_i32(b.w + node.w_padding) || !fits_i32(bw + b.w + node.w_padding) {
                        None
                    } else {
                        children_min(
                            nodes,
                            m,
                            node,
                            inner,
                            k + 1,
                            if bh < b.h { b.h as int } else { bw + b.w + node.w_padding },
                            bh,
                            lo,
                        )
                    }
                },
            }
        }
    }
}

fn bounds_min_exec(gui: &Gui, node: &WidgetData, mb: Bounds, Ghost(lo): Ghost<int>) -> (r: Bounds)
    requires
        tree_wf(gui.widgets@),
        -1 <= lo < gui.widgets@.len(),
        children_after(gui.widgets@, *node, lo),
        bounds_min(gui.widgets@, gui.metrics, *node, mb, lo) is Some,
    ensures
        bounds_min(gui.widgets@, gui.metrics, *node, mb, lo) == Some(r),
    decreases gui.widgets@.len() - lo,
{
    let ghost nodes = gui.widgets@;
    let base: (i32, i32) = match node.w_type {
        WidgetType::Empty => (0, 0),
        WidgetType::Button => (10, 10),
        WidgetType::Text => match gui.metrics.metrics_for(node.text_height) {
            Some(tm) => Image::text_bounds(tm.advance, tm.line_height, mb.w, node.text.as_str()),
            None => {
                assert(false);
                (0, 0)
            },
        },
        _ => (node.w, node.h),
    };
    let mut bounds = mb;
    if node.w != 0 && node.w < bounds.w {
        bounds.w = node.w;
    }
    if node.h != 0 && node.h < bounds.h {
        bounds.h = node.h;
    }
    assert(bounds == inner_bounds(*node, mb));
    let mut bw = node.w_padding;
    let mut bh = node.h_padding;
    let ghost total = children_min(
        nodes,
        gui.metrics,
        *node,
        bounds,
        0,
        node.w_padding as int,
        node.h_padding as int,
        lo,
    );
    let n = node.children.len();
    let mut k: usize = 0;
    while k < n
        invariant
            n == node.children@.len(),
            0 <= k <= n,
            nodes == gui.widgets@,
            tree_wf(nodes),
            -1 <= lo < nodes.len(),
            children_after(nodes, *node, lo),
            total is Some,
            children_min(nodes, gui.metrics, *node, bounds, k as int, bw as int, bh as int, lo) == total,
        decreases n - k,
    {
        let c = node.children[k].id;
        assert(lo < c < nodes.len());
        assert(children_after(nodes, nodes[c as int], c as int));
        let b = bounds_min_exec(gui, &gui.widgets[c], bounds, Ghost(c as int));
        if node.vertical {
            bh += b.h + node.h_padding;
            if bw < b.w {
                bw = b.w;
            }
        } else {
            bw += b.w + node.w_padding;
            if bh < b.h {
                bw = b.h;
            }
        }
        k = k + 1;
    }
    bw += node.w_padding;
    bh += node.h_padding;
    if bw > base.0 {
        bw = base.0;
    }
    if bh > base.1 {
        bh = base.1;
    }
    Bounds { x: 0, y: 0, w: bw, h: bh }
}

impl WidgetData {
    /// The least bounds this widget needs inside `max_bounds`.
    pub fn get_bounds_min(&self, gui: &Gui, max_bounds: Bounds) -> (r: Bounds)
        requires
            gui.wf(),
            children_after(gui.widgets@, *self, -1),
            bounds_min(gui.widgets@, gui.metrics, *self, max_bounds, -1) is Some,
        ensures
            bounds_min(gui.widgets@, gui.metrics, *self, max_bounds, -1) == Some(r),
    {
        bounds_min_exec(gui, self, max_bounds, Ghost(-1))
    }
}

impl Widget {
    /// The least bounds this widget needs inside `max_bounds`.
    pub fn get_bounds_min(&self, gui: &Gui, max_bounds: Bounds) -> (r: Bounds)
        requires
            gui.wf(),
            self.id < gui.widgets@.len(),
            bounds_min(gui.widgets@, gui.metrics, gui.widgets@[self.id as int], max_bounds, self.id as int) is Some,
        ensures
            bounds_min(gui.widgets@, gui.metrics, gui.widgets@[self.id as int], max_bounds, self.id as int) == Some(r),
    {
        bounds_min_exec(gui, &gui.widgets[self.id], max_bounds, Ghost(self.id as int))
    }
}

/// The widget placed at the origin of `bounds`, taking the whole width
/// (height) of the bounds unless its own set width (height) is smaller.
pub open spec fn laid_out(node: WidgetData, bounds: Bounds) -> WidgetData {
    WidgetData {
        x: bounds.x,
        y: bounds.y,
        w: if node.w >= bounds.w || node.w == 0 { bounds.w } else { node.w },
        h: if node.h >= bounds.h || node.h == 0 { bounds.h } else { node.h },
        ..node
    }
}

/// Two widgets that differ at most in position and size.
pub open spec fn same_structure(a: WidgetData, b: WidgetData) -> bool {
    &&& a.w_type == b.w_type
    &&& a.vertical == b.vertical
    &&& a.h_padding == b.h_padding
    &&& a.w_padding == b.w_padding
    &&& a.text_height == b.text_height
    &&& a.children@ == b.children@
    &&& a.text@ == b.text@
    &&& a.name@ == b.name@
    &&& a.on_update == b.on_update
}

/// Two arenas that differ at most in the positions and sizes of widgets.
pub open spec fn same_shape(a: Seq<WidgetData>, b: Seq<WidgetData>) -> bool {
    &&& a.len() == b.len()
    &&& forall|i: int| 0 <= i < a.len() ==> same_structure(#[trigger] a[i], b[i])
}

/// The extent (width, height) that the first layout loop measures for the
/// children from position `k` on, starting from (`w`, `h`).
pub open spec fn measure_children(
    nodes: Seq<WidgetData>,
    m: TextScale,
    node: WidgetData,
    bounds: Bounds,
    k: int,
    w: int,
    h: int,
    lo: int,
) -> Option<(int, int)>
    decreases node.children@.len() - k,
{
    if k < 0 || k >= node.children@.len() {
        Some((w, h))
    } else {
        let c = node.children@[k].id as int;
        if !(lo < c < nodes.len()) {
            None
        } else {
            match bounds_min(nodes, m, nodes[c], bounds, c) {
                None => None,
                Some(b) => if node.vertical {
                    if !fits_i32(b.h + node.h_padding) || !fits_i32(h + b.h + node.h_padding)
                        || !fits_i32(b.w + node.w_padding) {
                        None
                    } else {
                        measure_children(
                            nodes,
                            m,
                            node,
                            bounds,
                            k + 1,
                            if b.w + node.w_padding > w { b.w as int } else { w },
                            h + b.h + node.h_padding,
                            lo,
                        )
                    }
                } else {
                    if !fits_i32(b.w + node.w_padding) || !fits_i32(w + b.w + node.w_padding)
                        || !fits_i32(b.h + node.text_height) || (b.h + node.text_height > h
                        && !fits_i32(b.h + node.h_padding)) {
                        None
                    } else {
                        measure_children(
                            nodes,
                            m,
                            node,
                            bounds,
                            k + 1,
                            w + b.w + node.w_padding,
                            if b.h + node.text_height > h { b.h + node.h_padding } else { h },
                            lo,
                        )
                    }
                },
            }
        }
    }
}

/// The arena after the layout pass over widget `id` within `bounds`, and
/// whether it succeeded (`false`: some widget needed more room than it was
/// given; the pass stopped there). `None` where the arithmetic would leave
/// `i32`. `n` is the size of the arena.
pub open spec fn layout(nodes: Seq<WidgetData>, m: TextScale, id: int, bounds: Bounds, n: int) -> Option<
    (Seq<WidgetData>, bool),
>
    decreases n - id, (if 0 <= id < nodes.len() {
        nodes[id].children@.len() as int
    } else {
        0
    }) + 1,
{
    if !(0 <= id < n && nodes.len() == n) {
        None
    } else {
        let node = nodes[id];
        match bounds_min(nodes, m, node, bounds, id) {
            None => None,
            Some(mins) => if mins.w > bounds.w || mins.h > bounds.h {
                Some((nodes, false))
            } else {
                let node1 = laid_out(node, bounds);
                let nodes1 = nodes.update(id, node1);
                let wp = node.w_padding as int;
                let hp = node.h_padding as int;
                let cnt = node.children@.len() as int;
                if cnt == 0 {
                    Some((nodes1, true))
                } else if !fits_i32(wp * 2) || !fits_i32(bounds.x + wp * 2) || !fits_i32(hp * 2)
                    || !fits_i32(bounds.y + hp * 2) || cnt >= i32::MAX {
                    None
                } else {
                    match measure_children(nodes1, m, node1, bounds, 0, wp, hp, id) {
                        None => None,
                        Some((w, h)) => {
                            let d = cnt + 1;
                            if node.vertical && !fits_i32(node1.w - 2 * wp) {
                                None
                            } else if !node.vertical && !fits_i32(node1.w - w) {
                                None
                            } else if !node.vertical && !fits_i32(node1.h - 2 * hp) {
                                None
                            } else if node.vertical && !fits_i32(node1.h - h) {
                                None
                            } else {
                                let dx = if node.vertical {
                                    node1.w - 2 * wp
                                } else {
                                    trunc_div(node1.w - w, d)
                                };
                                let dy = if !node.vertical {
                                    node1.h - 2 * hp
                                } else {
                                    trunc_div(node1.h - h, d)
                                };
                                let x0 = bounds.x + wp * 2;
                                let y0 = bounds.y + hp * 2;
                                if node.vertical && !fits_i32(y0 + trunc_div(dy, 8)) {
                                    None
                                } else if !node.vertical && !fits_i32(x0 + trunc_div(dx, 8)) {
                                    None
                                } else {
                                    let x1 = if node.vertical { x0 } else { x0 + trunc_div(dx, 8) };
                                    let y1 = if node.vertical { y0 + trunc_div(dy, 8) } else { y0 };
                                    place_children(nodes1, m, node1, bounds, 0, x1, y1, dx, dy, id, n)
                                }
                            }
                        },
                    }
                }
            },
        }
    }
}

/// The second layout loop: each child from position `k` on is laid out in
/// the bounds at (`x`, `y`) sized by its minimum bounds plus the share
/// (`dx`, `dy`), and the cursor moves past it. Stops at the first failure.
pub open spec fn place_children(
    nodes: Seq<WidgetData>,
    m: TextScale,
    node: WidgetData,
    bounds: Bounds,
    k: int,
    x: int,
    y: int,
    dx: int,
    dy: int,
    lo: int,
    n: int,
) -> Option<(Seq<WidgetData>, bool)>
    decreases n - lo, node.children@.len() - k,
{
    if k < 0 || k >= node.children@.len() {
        Some((nodes, true))
    } else {
        let c = node.children@[k].id as int;
        if !(lo < c < n && nodes.len() == n) {
            None
        } else {
            let wp = node.w_padding as int;
            let hp = node.h_padding as int;
            match bounds_min(nodes, m, nodes[c], bounds, c) {
                None => None,
                Some(b0) => if !fits_i32(b0.w + dx) || !fits_i32(wp * 2) || !fits_i32(b0.w + dx - wp * 2)
                    || !fits_i32(b0.h + dy) || !fits_i32(hp * 2) || !fits_i32(b0.h + dy - hp * 2) {
                    None
                } else {
                    let b = Bounds {
                        x: x as i32,
                        y: y as i32,
                        w: (b0.w + dx - wp * 2) as i32,
                        h: (b0.h + dy - hp * 2) as i32,
                    };
                    match layout(nodes, m, c, b, n) {
                        None => None,
                        Some((nodes2, ok)) => if !ok {
                            Some((nodes2, false))
                        } else if node.vertical && !(fits_i32(b0.h + dy + hp) && fits_i32(y + b0.h + dy + hp)) {
                            None
                        } else if !node.vertical && !(fits_i32(b0.w + dx + wp) && fits_i32(x + b0.w + dx + wp)) {
                            None
                        } else {
                            place_children(
                                nodes2,
                                m,
                                node,
                                bounds,
                                k + 1,
                                if node.vertical { x } else { x + b0.w + dx + wp },
                                if node.vertical { y + b0.h + dy + hp } else { y },
                                dx,
                                dy,
                                lo,
                                n,
                            )
                        },
                    }
                },
            }
        }
    }
}

/// Only positions and sizes differ, so the parent links are unchanged.
pub proof fn lemma_same_shape_wf(a: Seq<WidgetData>, b: Seq<WidgetData>)
    requires
        same_shape(a, b),
        tree_wf(a),
    ensures
        tree_wf(b),
{
    assert forall|i: int| 0 <= i < b.len() implies children_after(b, #[trigger] b[i], i) by {
        assert(same_structure(a[i], b[i]));
        assert(children_after(a, a[i], i));
    }
}

impl WidgetData {
    /// The layout pass over widget `id` within `bounds`: checks that the
    /// widget fits, places it at the origin of the bounds, measures its
    /// children, shares out the spare room along the layout direction and
    /// lays each child out in turn.
    pub fn update_layout(gui: &mut Gui, id: usize, bounds: Bounds) -> (r: Result<(), GuiError>)
        requires
            old(gui).wf(),
            id < old(gui).widgets@.len(),
            layout(old(gui).widgets@, old(gui).metrics, id as int, bounds, old(gui).widgets@.len() as int) is Some,
        ensures
            layout(old(gui).widgets@, old(gui).metrics, id as int, bounds, old(gui).widgets@.len() as int)
                == Some((final(gui).widgets@, r is Ok)),
            r is Err ==> r == Err::<(), GuiError>(GuiError::TooBig),
            r is Ok ==> final(gui).widgets@[id as int] == laid_out(old(gui).widgets@[id as int], bounds),
            same_shape(old(gui).widgets@, final(gui).widgets@),
            final(gui).wf(),
            forall|j: int| 0 <= j < id ==> final(gui).widgets@[j] == old(gui).widgets@[j],
            final(gui).metrics == old(gui).metrics,
            final(gui).root == old(gui).root,
        decreases old(gui).widgets@.len() - id,
    {
        let ghost nodes0 = gui.widgets@;
        let ghost m = gui.metrics;
        let ghost n = nodes0.len() as int;
        assert(children_after(nodes0, nodes0[id as int], id as int));
        let mins = bounds_min_exec(gui, &gui.widgets[id], bounds, Ghost(id as int));
        if mins.w > bounds.w || mins.h > bounds.h {
            proof {
                assert(same_shape(nodes0, gui.widgets@));
            }
            return Err(GuiError::TooBig);
        }
        let ow = gui.widgets[id].w;
        let oh = gui.widgets[id].h;
        let nw = if ow >= bounds.w || ow == 0 { bounds.w } else { ow };
        let nh = if oh >= bounds.h || oh == 0 { bounds.h } else { oh };
        gui.widgets[id].w = nw;
        gui.widgets[id].h = nh;
        gui.widgets[id].x = bounds.x;
        gui.widgets[id].y = bounds.y;
        let ghost node1 = laid_out(nodes0[id as int], bounds);
        let ghost nodes1 = nodes0.update(id as int, node1);
        assert(gui.widgets@ =~= nodes1);
        proof {
            assert(same_shape(nodes0, nodes1));
            lemma_same_shape_wf(nodes0, nodes1);
        }
        let cnt = gui.widgets[id].children.len();
        if cnt == 0 {
            return Ok(());
        }
        let vertical = gui.widgets[id].vertical;
        let wp = gui.widgets[id].w_padding;
        let hp = gui.widgets[id].h_padding;
        let th = gui.widgets[id].text_height;
        let mut x = bounds.x + wp * 2;
        let mut y = bounds.y + hp * 2;
        let mut w = wp;
        let mut h = hp;
        let ghost total1 = measure_children(nodes1, m, node1, bounds, 0, wp as int, hp as int, id as int);
        let mut k: usize = 0;
        while k < cnt
            invariant
                gui.widgets@ == nodes1,
                gui.metrics == m,
                tree_wf(nodes1),
                nodes1.len() == n,
                nodes1[id as int] == node1,
                id < n,
                cnt == node1.children@.len(),
                children_after(nodes1, node1, id as int),
                vertical == node1.vertical,
                wp == node1.w_padding,
                hp == node1.h_padding,
                th == node1.text_height,
                0 <= k <= cnt,
                total1 is Some,
                measure_children(nodes1, m, node1, bounds, k as int, w as int, h as int, id as int) == total1,
            decreases cnt - k,
        {
            let c = gui.widgets[id].children[k].id;
            assert(children_after(nodes1, nodes1[c as int], c as int));
            let b = bounds_min_exec(gui, &gui.widgets[c], bounds, Ghost(c as int));
            if vertical {
                h += b.h + hp;
                if b.w + wp > w {
                    w = b.w;
                }
            } else {
                w += b.w + wp;
                if b.h + th > h {
                    h = b.h + hp;
                }
            }
            k = k + 1;
        }
        let d: i32 = (cnt as i32) + 1;
        let dx: i32 = if vertical { nw - 2 * wp } else { div_trunc(nw - w, d) };
        let dy: i32 = if !vertical { nh - 2 * hp } else { div_trunc(nh - h, d) };
        if vertical {
            y += div_trunc(dy, 8);
        } else {
            x += div_trunc(dx, 8);
        }
        let ghost total2 = place_children(
            nodes1,
            m,
            node1,
            bounds,
            0,
            x as int,
            y as int,
            dx as int,
            dy as int,
            id as int,
            n,
        );
        assert(total2 == layout(nodes0, m, id as int, bounds, n));
        let mut k: usize = 0;
        while k < cnt
            invariant
                gui.metrics == m,
                nodes0 == old(gui).widgets@,
                m == old(gui).metrics,
                n == nodes0.len(),
                total2 == layout(nodes0, m, id as int, bounds, n),
                gui.root == old(gui).root,
                gui.root.id < n,
                tree_wf(gui.widgets@),
                same_shape(nodes0, gui.widgets@),
                gui.widgets@.len() == n,
                gui.widgets@[id as int] == node1,
                forall|j: int| 0 <= j < id ==> gui.widgets@[j] == nodes0[j],
                id < n,
                cnt == node1.children@.len(),
                children_after(nodes1, node1, id as int),
                vertical == node1.vertical,
                wp == node1.w_padding,
                hp == node1.h_padding,
                0 <= k <= cnt,
                total2 is Some,
                place_children(gui.widgets@, m, node1, bounds, k as int, x as int, y as int, dx as int, dy as int, id as int, n) == total2,
            decreases cnt - k,
        {
            let c = gui.widgets[id].children[k].id;
            assert(children_after(gui.widgets@, gui.widgets@[c as int], c as int));
            let b0 = bounds_min_exec(gui, &gui.widgets[c], bounds, Ghost(c as int));
            let b = Bounds { x, y, w: b0.w + dx - wp * 2, h: b0.h + dy - hp * 2 };
            let ghost before = gui.widgets@;
            let r = WidgetData::update_layout(gui, c, b);
            proof {
                assert forall|j: int| 0 <= j < id implies gui.widgets@[j] == nodes0[j] by {
                    assert(before[j] == nodes0[j]);
                }
            }
            if r.is_err() {
                assert(place_children(before, m, node1, bounds, k as int, x as int, y as int, dx as int, dy as int, id as int, n) == Some((gui.widgets@, false)));
                return r;
            }
            if vertical {
                y += b0.h + dy + hp;
            } else {
                x += b0.w + dx + wp;
            }
            k = k + 1;
        }
        Ok(())
    }
}

impl Widget {
    /// The layout pass over this widget within `bounds`.
    pub fn update_layout(&self, gui: &mut Gui, bounds: Bounds) -> (r: Result<(), GuiError>)
        requires
            old(gui).wf(),
            self.id < old(gui).widgets@.len(),
            layout(old(gui).widgets@, old(gui).metrics, self.id as int, bounds, old(gui).widgets@.len() as int) is Some,
        ensures
            layout(old(gui).widgets@, old(gui).metrics, self.id as int, bounds, old(gui).widgets@.len() as int)
                == Some((final(gui).widgets@, r is Ok)),
            r is Err ==> r == Err::<(), GuiError>(GuiError::TooBig),
            r is Ok ==> final(gui).widgets@[self.id as int] == laid_out(old(gui).widgets@[self.id as int], bounds),
            same_shape(old(gui).widgets@, final(gui).widgets@),
            final(gui).wf(),
            forall|j: int| 0 <= j < self.id ==> final(gui).widgets@[j] == old(gui).widgets@[j],
            final(gui).metrics == old(gui).metrics,
            final(gui).root == old(gui).root,
    {
        WidgetData::update_layout(gui, self.id, bounds)
    }
}

/// The bounds a widget currently occupies.
pub open spec fn own_bounds(node: WidgetData) -> Bounds {
    Bounds { x: node.x, y: node.y, w: node.w, h: node.h }
}

/// One drawing step of rendering the widget tree.
pub enum DrawCommand {
    /// A filled rectangle.
    Rect { x: i32, y: i32, w: i32, h: i32, color: Color },
    /// A rectangle outline one pixel wide.
    RectLines { x: i32, y: i32, w: i32, h: i32, color: Color },
    /// Text fitted into a box.
    TextBox { x: i32, y: i32, w: i32, h: i32, text: String, color: Color },
    /// Text fitted into a box, leaving room for input.
    TextBoxConservative { x: i32, y: i32, w: i32, h: i32, text: String, color: Color },
    /// The named image stretched over a rectangle.
    RectImage { x: i32, y: i32, w: i32, h: i32, image: String },
}

pub open spec fn black_color() -> Color {
    Color { r: 0, g: 0, b: 0, a: 255 }
}

pub open spec fn white_color() -> Color {
    Color { r: 220, g: 220, b: 220, a: 255 }
}

/// What a widget draws for itself: an outlined button, its text, a white
/// panel with an outline, its input text, or its image.
pub open spec fn own_commands(node: WidgetData) -> Seq<DrawCommand> {
    match node.w_type {
        WidgetType::Empty => seq![],
        WidgetType::Button => seq![DrawCommand::RectLines { x: node.x, y: node.y, w: node.w, h: node.h, color: black_color() }],
        WidgetType::Text => seq![DrawCommand::TextBox { x: node.x, y: node.y, w: node.w, h: node.h, text: node.text, color: black_color() }],
        WidgetType::Div => seq![
            DrawCommand::Rect { x: node.x, y: node.y, w: node.w, h: node.h, color: white_color() },
            DrawCommand::RectLines { x: node.x, y: node.y, w: node.w, h: node.h, color: black_color() },
        ],
        WidgetType::TextInput => seq![DrawCommand::TextBoxConservative { x: node.x, y: node.y, w: node.w, h: node.h, text: node.text, color: black_color() }],
        WidgetType::Image => seq![DrawCommand::RectImage { x: node.x, y: node.y, w: node.w, h: node.h, image: node.text }],
    }
}

/// The commands that draw `node` and then, depth first, its subtrees.
pub open spec fn render_spec(nodes: Seq<WidgetData>, node: WidgetData, lo: int) -> Seq<DrawCommand>
    decreases nodes.len() - lo, node.children@.len() + 1,
{
    own_commands(node) + render_children(nodes, node, 0, lo)
}

/// The commands that draw the subtrees of the children from position `k` on.
pub open spec fn render_children(nodes: Seq<WidgetData>, node: WidgetData, k: int, lo: int) -> Seq<DrawCommand>
    decreases nodes.len() - lo, node.children@.len() - k,
{
    if k < 0 || k >= node.children@.len() {
        seq![]
    } else {
        let c = node.children@[k].id as int;
        if !(lo < c < nodes.len()) {
            seq![]
        } else {
            render_spec(nodes, nodes[c], c) + render_children(nodes, node, k + 1, lo)
        }
    }
}

fn push_own_commands(node: &WidgetData, out: &mut Vec<DrawCommand>)
    ensures
        final(out)@ == old(out)@ + own_commands(*node),
{
    let ghost before = out@;
    match node.w_type {
        WidgetType::Empty => {},
        WidgetType::Button => {
            out.push(DrawCommand::RectLines { x: node.x, y: node.y, w: node.w, h: node.h, color: colors::black() });
        },
        WidgetType::Text => {
            out.push(DrawCommand::TextBox { x: node.x, y: node.y, w: node.w, h: node.h, text: node.text.clone(), color: colors::black() });
        },
        WidgetType::Div => {
            out.push(DrawCommand::Rect { x: node.x, y: node.y, w: node.w, h: node.h, color: colors::white() });
            out.push(DrawCommand::RectLines { x: node.x, y: node.y, w: node.w, h: node.h, color: colors::black() });
        },
        WidgetType::TextInput => {
            out.push(DrawCommand::TextBoxConservative { x: node.x, y: node.y, w: node.w, h: node.h, text: node.text.clone(), color: colors::black() });
        },
        WidgetType::Image => {
            out.push(DrawCommand::RectImage { x: node.x, y: node.y, w: node.w, h: node.h, image: node.text.clone() });
        },
    }
    assert(out@ =~= before + own_commands(*node));
}

fn render_exec(gui: &Gui, node: &WidgetData, out: &mut Vec<DrawCommand>, Ghost(lo): Ghost<int>)
    requires
        tree_wf(gui.widgets@),
        -1 <= lo < gui.widgets@.len(),
        children_after(gui.widgets@, *node, lo),
    ensures
        final(out)@ == old(out)@ + render_spec(gui.widgets@, *node, lo),
    decreases gui.widgets@.len() - lo,
{
    let ghost nodes = gui.widgets@;
    push_own_commands(node, out);
    let n = node.children.len();
    let mut k: usize = 0;
    while k < n
        invariant
            nodes == gui.widgets@,
            tree_wf(nodes),
            -1 <= lo < nodes.len(),
            children_after(nodes, *node, lo),
            n == node.children@.len(),
            0 <= k <= n,
            old(out)@ + render_spec(nodes, *node, lo) == out@ + render_children(nodes, *node, k as int, lo),
        decreases n - k,
    {
        let c = node.children[k].id;
        assert(children_after(nodes, nodes[c as int], c as int));
        let ghost mid = out@;
        render_exec(gui, &gui.widgets[c], out, Ghost(c as int));
        assert(mid + render_children(nodes, *node, k as int, lo) =~= out@ + render_children(nodes, *node, k + 1, lo));
        k = k + 1;
    }
    assert(out@ + render_children(nodes, *node, n as int, lo) =~= out@);
}

impl WidgetData {
    /// The commands that draw this widget and, depth first, its subtrees.
    pub fn render(&self, gui: &Gui) -> (r: Vec<DrawCommand>)
        requires
            gui.wf(),
            children_after(gui.widgets@, *self, -1),
        ensures
            r@ == render_spec(gui.widgets@, *self, -1),
    {
        let mut out: Vec<DrawCommand> = Vec::new();
        render_exec(gui, self, &mut out, Ghost(-1));
        assert(out@ =~= render_spec(gui.widgets@, *self, -1));
        out
    }
}

impl Widget {
    /// The commands that draw this widget and, depth first, its subtrees.
    pub fn render(&self, gui: &Gui) -> (r: Vec<DrawCommand>)
        requires
            gui.wf(),
            self.id < gui.widgets@.len(),
        ensures
            r@ == render_spec(gui.widgets@, gui.widgets@[self.id as int], self.id as int),
    {
        let mut out: Vec<DrawCommand> = Vec::new();
        assert(children_after(gui.widgets@, gui.widgets@[self.id as int], self.id as int));
        render_exec(gui, &gui.widgets[self.id], &mut out, Ghost(self.id as int));
        assert(out@ =~= render_spec(gui.widgets@, gui.widgets@[self.id as int], self.id as int));
        out
    }
}

/// A widget's data, borrowed from its `Gui`.
pub struct WidgetRef<'a> {
    v: &'a WidgetData,
}

impl<'a> WidgetRef<'a> {
    pub closed spec fn target(&self) -> WidgetData {
        *self.v
    }

    pub fn data(&self) -> (r: &'a WidgetData)
        ensures
            *r == self.target(),
    {
        self.v
    }
}

/// Two widgets alike in everything but their list of children.
pub open spec fn same_but_children(a: WidgetData, b: WidgetData) -> bool {
    &&& a.w_type == b.w_type
    &&& a.vertical == b.vertical
    &&& a.x == b.x
    &&& a.y == b.y
    &&& a.w == b.w
    &&& a.h == b.h
    &&& a.h_padding == b.h_padding
    &&& a.w_padding == b.w_padding
    &&& a.text_height == b.text_height
    &&& a.text@ == b.text@
    &&& a.name@ == b.name@
    &&& a.on_update == b.on_update
}

/// `b` is `a` with `data` appended as a new last child of widget `parent`.
pub open spec fn child_added(a: Seq<WidgetData>, b: Seq<WidgetData>, parent: int, data: WidgetData) -> bool {
    &&& b.len() == a.len() + 1
    &&& b[a.len() as int] == data
    &&& same_but_children(b[parent], a[parent])
    &&& b[parent].children@ == a[parent].children@.push(Widget { id: a.len() as usize })
    &&& forall|j: int| 0 <= j < a.len() && j != parent ==> b[j] == a[j]
}

/// A childless widget of kind `t` named `name`, with the default padding of
/// 4 and text height of 12.
pub open spec fn fresh_widget(
    data: WidgetData,
    t: WidgetType,
    vertical: bool,
    w: int,
    h: int,
    text: Seq<char>,
    name: Seq<char>,
    on_update: Option<usize>,
) -> bool {
    &&& data.w_type == t
    &&& data.vertical == vertical
    &&& data.x == 0
    &&& data.y == 0
    &&& data.w == w
    &&& data.h == h
    &&& data.h_padding == 4
    &&& data.w_padding == 4
    &&& data.text_height == 12
    &&& data.children@.len() == 0
    &&& data.text@ == text
    &&& data.name@ == name
    &&& data.on_update == on_update
}

impl Gui {
    fn add_child(&mut self, parent: usize, data: WidgetData) -> (r: Widget)
        requires
            old(self).wf(),
            parent < old(self).widgets@.len(),
            old(self).widgets@.len() < usize::MAX,
            data.children@.len() == 0,
        ensures
            final(self).wf(),
            r.id == old(self).widgets@.len(),
            child_added(old(self).widgets@, final(self).widgets@, parent as int, data),
            final(self).metrics == old(self).metrics,
            final(self).root == old(self).root,
    {
        let ghost a = self.widgets@;
        let id = self.widgets.len();
        self.widgets.push(data);
        self.widgets[parent].children.push(Widget { id });
        proof {
            let b = self.widgets@;
            assert forall|i: int| 0 <= i < b.len() implies children_after(b, #[trigger] b[i], i) by {
                if i < a.len() {
                    assert(children_after(a, a[i], i));
                    if i == parent {
                        assert forall|k: int| 0 <= k < b[i].children@.len() implies i < (
                        #[trigger] b[i].children@[k]).id < b.len() by {
                            if k < a[i].children@.len() {
                                assert(b[i].children@[k] == a[i].children@[k]);
                            }
                        }
                    }
                }
            }
        }
        Widget { id }
    }

    /// A gui whose root is an empty horizontal panel named "root" at the
    /// given position and size, with padding 2.
    pub fn new(x: i32, y: i32, w: i32, h: i32, metrics: TextScale) -> (g: Self)
        ensures
            g.wf(),
            g.widgets@.len() == 1,
            g.root.id == 0,
            g.metrics == metrics,
            g.widgets@[0].w_type == WidgetType::Div,
            !g.widgets@[0].vertical,
            g.widgets@[0].x == x,
            g.widgets@[0].y == y,
            g.widgets@[0].w == w,
            g.widgets@[0].h == h,
            g.widgets@[0].w_padding == 2,
            g.widgets@[0].h_padding == 2,
            g.widgets@[0].text_height == 12,
            g.widgets@[0].children@.len() == 0,
            g.widgets@[0].name@ == "root"@,
            g.widgets@[0].text@.len() == 0,
            g.widgets@[0].on_update is None,
            g.current_selected is None,
            g.destroy_queue@.len() == 0,
            g.input.events@.len() == 0,
            g.input.mouse_x == 0,
            g.input.mouse_y == 0,
            !g.input.is_mouse_down,
    {
        let root = WidgetData {
            w_type: WidgetType::Div,
            vertical: false,
            x,
            y,
            w,
            h,
            children: Vec::new(),
            name: String::from_str("root"),
            on_update: None,
            text: String::new(),
            text_height: 12,
            w_padding: 2,
            h_padding: 2,
        };
        let mut widgets: Vec<WidgetData> = Vec::new();
        widgets.push(root);
        let g = Self {
            widgets,
            current_selected: None,
            input: GuiInput { events: Vec::new(), mouse_x: 0, mouse_y: 0, is_mouse_down: false },
            destroy_queue: Vec::new(),
            root: Widget { id: 0 },
            metrics,
        };
        proof {
            assert(children_after(g.widgets@, g.widgets@[0], 0));
        }
        g
    }

    /// The handle of the gui's root widget.
    pub fn get_root(&self) -> (r: Widget)
        ensures
            r == self.root,
    {
        self.root
    }

    /// The handle of the most recently created widget named `name`, if any.
    pub fn find_widget(&self, name: &str) -> (r: Option<Widget>)
        ensures
            r == last_named(self.widgets@, name@, self.widgets@.len() as int),
    {
        let key = String::from_str(name);
        let mut i = self.widgets.len();
        while i > 0
            invariant
                i <= self.widgets@.len(),
                key@ == name@,
                last_named(self.widgets@, name@, self.widgets@.len() as int) == last_named(
                    self.widgets@,
                    name@,
                    i as int,
                ),
            decreases i,
        {
            if self.widgets[i - 1].name == key {
                return Some(Widget { id: i - 1 });
            }
            i = i - 1;
        }
        None
    }

    /// The handle of the most recently created widget named `name`.
    pub fn get_widget(&self, name: &str) -> (r: Widget)
        requires
            last_named(self.widgets@, name@, self.widgets@.len() as int) is Some,
        ensures
            last_named(self.widgets@, name@, self.widgets@.len() as int) == Some(r),
    {
        match self.find_widget(name) {
            Some(w) => w,
            None => Widget { id: 0 },
        }
    }

    /// The layout pass over the whole tree, within the root's own bounds.
    pub fn update_layout(&mut self) -> (r: Result<(), GuiError>)
        requires
            old(self).wf(),
            layout(
                old(self).widgets@,
                old(self).metrics,
                old(self).root.id as int,
                own_bounds(old(self).widgets@[old(self).root.id as int]),
                old(self).widgets@.len() as int,
            ) is Some,
        ensures
            layout(
                old(self).widgets@,
                old(self).metrics,
                old(self).root.id as int,
                own_bounds(old(self).widgets@[old(self).root.id as int]),
                old(self).widgets@.len() as int,
            ) == Some((final(self).widgets@, r is Ok)),
            r is Err ==> r == Err::<(), GuiError>(GuiError::TooBig),
            same_shape(old(self).widgets@, final(self).widgets@),
            final(self).wf(),
            final(self).metrics == old(self).metrics,
            final(self).root == old(self).root,
    {
        let rid = self.root.id;
        let b = Bounds {
            x: self.widgets[rid].x,
            y: self.widgets[rid].y,
            w: self.widgets[rid].w,
            h: self.widgets[rid].h,
        };
        WidgetData::update_layout(self, rid, b)
    }

    /// Lays the tree out, then lists, in arena order, every widget that
    /// has an update handler together with that handler, for the caller
    /// to run with `GuiEvent::Nothing`.
    pub fn update(&mut self) -> (r: Result<Vec<(Widget, usize)>, GuiError>)
        requires
            old(self).wf(),
            layout(
                old(self).widgets@,
                old(self).metrics,
                old(self).root.id as int,
                own_bounds(old(self).widgets@[old(self).root.id as int]),
                old(self).widgets@.len() as int,
            ) is Some,
        ensures
            layout(
                old(self).widgets@,
                old(self).metrics,
                old(self).root.id as int,
                own_bounds(old(self).widgets@[old(self).root.id as int]),
                old(self).widgets@.len() as int,
            ) == Some((final(self).widgets@, r is Ok)),
            r is Err ==> r matches Err(GuiError::TooBig),
            r matches Ok(v) ==> v@ == handlers(final(self).widgets@, final(self).widgets@.len() as int),
            same_shape(old(self).widgets@, final(self).widgets@),
            final(self).wf(),
    {
        match self.update_layout() {
            Err(e) => Err(e),
            Ok(()) => {
                let mut out: Vec<(Widget, usize)> = Vec::new();
                let n = self.widgets.len();
                let mut i: usize = 0;
                while i < n
                    invariant
                        n == self.widgets@.len(),
                        0 <= i <= n,
                        out@ == handlers(self.widgets@, i as int),
                    decreases n - i,
                {
                    match self.widgets[i].on_update {
                        Some(hd) => {
                            if self.is_latest_named(i) {
                                out.push((Widget { id: i }, hd));
                            }
                        },
                        None => {},
                    }
                    i = i + 1;
                }
                Ok(out)
            },
        }
    }

    /// Whether no widget created after widget `i` carries its name.
    fn is_latest_named(&self, i: usize) -> (r: bool)
        requires
            i < self.widgets@.len(),
        ensures
            r == latest_named(self.widgets@, i as int),
    {
        let n = self.widgets.len();
        let mut j = i + 1;
        while j < n
            invariant
                n == self.widgets@.len(),
                i < j <= n,
                forall|k: int| i < k < j ==> self.widgets@[k].name@ != self.widgets@[i as int].name@,
            decreases n - j,
        {
            if self.widgets[j].name == self.widgets[i].name {
                return false;
            }
            j = j + 1;
        }
        true
    }

    /// The commands that draw the whole tree, root first.
    pub fn render(&self) -> (r: Vec<DrawCommand>)
        requires
            self.wf(),
        ensures
            r@ == render_spec(self.widgets@, self.widgets@[self.root.id as int], self.root.id as int),
    {
        self.root.render(self)
    }
}

/// The position of the last of the first `n` widgets named `name`.
pub open spec fn last_named(nodes: Seq<WidgetData>, name: Seq<char>, n: int) -> Option<Widget>
    decreases n,
{
    if n <= 0 {
        None
    } else if nodes[n - 1].name@ == name {
        Some(Widget { id: (n - 1) as usize })
    } else {
        last_named(nodes, name, n - 1)
    }
}

/// No widget after widget `i` carries its name, so the name finds it.
pub open spec fn latest_named(nodes: Seq<WidgetData>, i: int) -> bool {
    forall|j: int| i < j < nodes.len() ==> (#[trigger] nodes[j]).name@ != nodes[i].name@
}

/// The (widget, handler) pairs of the first `n` widgets that have an update
/// handler and that their name finds, in arena order.
pub open spec fn handlers(nodes: Seq<WidgetData>, n: int) -> Seq<(Widget, usize)>
    decreases n,
{
    if n <= 0 {
        seq![]
    } else {
        match nodes[n - 1].on_update {
            Some(hd) => if latest_named(nodes, n - 1) {
                handlers(nodes, n - 1).push((Widget { id: (n - 1) as usize }, hd))
            } else {
                handlers(nodes, n - 1)
            },
            None => handlers(nodes, n - 1),
        }
    }
}

/// A widget is the one its name finds exactly when no later widget
/// carries that name.
pub proof fn lemma_latest_is_found(nodes: Seq<WidgetData>, i: int, n: int)
    requires
        0 <= i < n <= nodes.len(),
        nodes.len() <= usize::MAX,
    ensures
        (last_named(nodes, nodes[i].name@, n) == Some(Widget { id: i as usize })) <==> (forall|j: int|
            i < j < n ==> (#[trigger] nodes[j]).name@ != nodes[i].name@),
    decreases n - i,
{
    if n > i + 1 {
        lemma_latest_is_found(nodes, i, n - 1);
        if nodes[n - 1].name@ == nodes[i].name@ {
            assert((n - 1) as usize != i as usize);
        }
    }
}

impl Widget {
    /// This widget's data.
    pub fn get<'a>(&self, gui: &'a Gui) -> (r: WidgetRef<'a>)
        requires
            self.id < gui.widgets@.len(),
        ensures
            r.target() == gui.widgets@[self.id as int],
    {
        WidgetRef { v: &gui.widgets[self.id] }
    }

    /// Adds a vertical text widget showing `text` as the last child.
    pub fn text(&self, gui: &mut Gui, text: String, name: String) -> (r: Result<Widget, GuiError>)
        requires
            old(gui).wf(),
            self.id < old(gui).widgets@.len(),
            old(gui).widgets@.len() < usize::MAX,
        ensures
            final(gui).wf(),
            r == Ok::<Widget, GuiError>(Widget { id: old(gui).widgets@.len() as usize }),
            child_added(old(gui).widgets@, final(gui).widgets@, self.id as int, final(gui).widgets@[old(gui).widgets@.len() as int]),
            fresh_widget(final(gui).widgets@[old(gui).widgets@.len() as int], WidgetType::Text, true, 0, 0, text@, name@, None),
            final(gui).metrics == old(gui).metrics,
            final(gui).root == old(gui).root,
    {
        let w = WidgetData {
            w_type: WidgetType::Text,
            vertical: true,
            x: 0,
            y: 0,
            w: 0,
            h: 0,
            h_padding: 4,
            w_padding: 4,
            text_height: 12,
            children: Vec::new(),
            text,
            name,
            on_update: None,
        };
        Ok(gui.add_child(self.id, w))
    }

    /// Adds a vertical button whose update handler is `on_update` as the last child.
    pub fn button(&self, gui: &mut Gui, on_update: usize, name: String) -> (r: Result<Widget, GuiError>)
        requires
            old(gui).wf(),
            self.id < old(gui).widgets@.len(),
            old(gui).widgets@.len() < usize::MAX,
        ensures
            final(gui).wf(),
            r == Ok::<Widget, GuiError>(Widget { id: old(gui).widgets@.len() as usize }),
            child_added(old(gui).widgets@, final(gui).widgets@, self.id as int, final(gui).widgets@[old(gui).widgets@.len() as int]),
            fresh_widget(final(gui).widgets@[old(gui).widgets@.len() as int], WidgetType::Button, true, 0, 0, seq![], name@, Some(on_update)),
            final(gui).metrics == old(gui).metrics,
            final(gui).root == old(gui).root,
    {
        let w = WidgetData {
            w_type: WidgetType::Button,
            vertical: true,
            x: 0,
            y: 0,
            w: 0,
            h: 0,
            h_padding: 4,
            w_padding: 4,
            text_height: 12,
            children: Vec::new(),
            text: String::new(),
            name,
            on_update: Some(on_update),
        };
        Ok(gui.add_child(self.id, w))
    }

    /// Adds a panel of the given set size and direction as the last child.
    pub fn div_sized(&self, gui: &mut Gui, w: i32, h: i32, vertical: bool, name: String) -> (r: Result<Widget, GuiError>)
        requires
            old(gui).wf(),
            self.id < old(gui).widgets@.len(),
            old(gui).widgets@.len() < usize::MAX,
        ensures
            final(gui).wf(),
            r == Ok::<Widget, GuiError>(Widget { id: old(gui).widgets@.len() as usize }),
            child_added(old(gui).widgets@, final(gui).widgets@, self.id as int, final(gui).widgets@[old(gui).widgets@.len() as int]),
            fresh_widget(final(gui).widgets@[old(gui).widgets@.len() as int], WidgetType::Div, vertical, w as int, h as int, seq![], name@, None),
            final(gui).metrics == old(gui).metrics,
            final(gui).root == old(gui).root,
    {
        let d = WidgetData {
            w_type: WidgetType::Div,
            vertical,
            x: 0,
            y: 0,
            w,
            h,
            h_padding: 4,
            w_padding: 4,
            text_height: 12,
            children: Vec::new(),
            text: String::new(),
            name,
            on_update: None,
        };
        Ok(gui.add_child(self.id, d))
    }

    /// Adds a panel that takes its size from the layout as the last child.
    pub fn div(&self, gui: &mut Gui, vertical: bool, name: String) -> (r: Result<Widget, GuiError>)
        requires
            old(gui).wf(),
            self.id < old(gui).widgets@.len(),
            old(gui).widgets@.len() < usize::MAX,
        ensures
            final(gui).wf(),
            r == Ok::<Widget, GuiError>(Widget { id: old(gui).widgets@.len() as usize }),
            child_added(old(gui).widgets@, final(gui).widgets@, self.id as int, final(gui).widgets@[old(gui).widgets@.len() as int]),
            fresh_widget(final(gui).widgets@[old(gui).widgets@.len() as int], WidgetType::Div, vertical, 0, 0, seq![], name@, None),
            final(gui).metrics == old(gui).metrics,
            final(gui).root == old(gui).root,
    {
        self.div_sized(gui, 0, 0, vertical, name)
    }

    /// Adds a vertical text input whose update handler is `on_update` as the last child.
    pub fn attach_text_input(&self, gui: &mut Gui, on_update: usize, name: String) -> (r: Result<Widget, GuiError>)
        requires
            old(gui).wf(),
            self.id < old(gui).widgets@.len(),
            old(gui).widgets@.len() < usize::MAX,
        ensures
            final(gui).wf(),
            r == Ok::<Widget, GuiError>(Widget { id: old(gui).widgets@.len() as usize }),
            child_added(old(gui).widgets@, final(gui).widgets@, self.id as int, final(gui).widgets@[old(gui).widgets@.len() as int]),
            fresh_widget(final(gui).widgets@[old(gui).widgets@.len() as int], WidgetType::TextInput, true, 0, 0, seq![], name@, Some(on_update)),
            final(gui).metrics == old(gui).metrics,
            final(gui).root == old(gui).root,
    {
        let w = WidgetData {
            w_type: WidgetType::TextInput,
            vertical: true,
            x: 0,
            y: 0,
            w: 0,
            h: 0,
            h_padding: 4,
            w_padding: 4,
            text_height: 12,
            children: Vec::new(),
            text: String::new(),
            name,
            on_update: Some(on_update),
        };
        Ok(gui.add_child(self.id, w))
    }

    /// Adds a `w` x `h` widget showing the image named `image_name` as the last child.
    pub fn image(&self, gui: &mut Gui, image_name: String, w: i32, h: i32, name: String) -> (r: Result<Widget, GuiError>)
        requires
            old(gui).wf(),
            self.id < old(gui).widgets@.len(),
            old(gui).widgets@.len() < usize::MAX,
        ensures
            final(gui).wf(),
            r == Ok::<Widget, GuiError>(Widget { id: old(gui).widgets@.len() as usize }),
            child_added(old(gui).widgets@, final(gui).widgets@, self.id as int, final(gui).widgets@[old(gui).widgets@.len() as int]),
            fresh_widget(final(gui).widgets@[old(gui).widgets@.len() as int], WidgetType::Image, true, w as int, h as int, image_name@, name@, None),
            final(gui).metrics == old(gui).metrics,
            final(gui).root == old(gui).root,
    {
        let d = WidgetData {
            w_type: WidgetType::Image,
            vertical: true,
            x: 0,
            y: 0,
            w,
            h,
            h_padding: 4,
            w_padding: 4,
            text_height: 12,
            children: Vec::new(),
            text: image_name,
            name,
            on_update: None,
        };
        Ok(gui.add_child(self.id, d))
    }
}

/// A laid-out widget sits at the origin of its bounds and is no larger
/// than them.
pub proof fn lemma_laid_out_within(node: WidgetData, bounds: Bounds)
    ensures
        laid_out(node, bounds).x == bounds.x,
        laid_out(node, bounds).y == bounds.y,
        laid_out(node, bounds).w <= bounds.w,
        laid_out(node, bounds).h <= bounds.h,
        same_structure(laid_out(node, bounds), node),
{
}

/// The minimum bounds are anchored at the origin and never exceed the
/// widget's own base size.
pub proof fn lemma_bounds_min_capped(nodes: Seq<WidgetData>, m: TextScale, node: WidgetData, mb: Bounds, lo: int)
    requires
        bounds_min(nodes, m, node, mb, lo) is Some,
    ensures
        bounds_min(nodes, m, node, mb, lo) matches Some(b) && b.x == 0 && b.y == 0 && (base_size(
            node,
            m,
            mb,
        ) matches Some((bw, bh)) && b.w <= bw && b.h <= bh),
{
}

/// A widget just added under a name is the one that name finds.
pub proof fn lemma_added_widget_found(a: Seq<WidgetData>, b: Seq<WidgetData>, parent: int, data: WidgetData)
    requires
        child_added(a, b, parent, data),
    ensures
        last_named(b, data.name@, b.len() as int) == Some(Widget { id: a.len() as usize }),
{
}

/// Every listed handler belongs to its widget, that widget is the one its
/// name finds, and every such widget with a handler is listed.
pub proof fn lemma_handlers_listed(nodes: Seq<WidgetData>, n: int)
    requires
        0 <= n <= nodes.len(),
        nodes.len() <= usize::MAX,
    ensures
        forall|k: int|
            0 <= k < handlers(nodes, n).len() ==> {
                let (w, hd) = #[trigger] handlers(nodes, n)[k];
                &&& 0 <= w.id < n
                &&& nodes[w.id as int].on_update == Some(hd)
                &&& last_named(nodes, nodes[w.id as int].name@, nodes.len() as int) == Some(w)
            },
        forall|i: int|
            0 <= i < n && (#[trigger] nodes[i]).on_update is Some && last_named(
                nodes,
                nodes[i].name@,
                nodes.len() as int,
            ) == Some(Widget { id: i as usize }) ==> exists|k: int|
                0 <= k < handlers(nodes, n).len() && handlers(nodes, n)[k].0.id == i,
    decreases n,
{
    if n > 0 {
        lemma_handlers_listed(nodes, n - 1);
        lemma_latest_is_found(nodes, n - 1, nodes.len() as int);
        let prev = handlers(nodes, n - 1);
        assert forall|i: int|
            0 <= i < n && (#[trigger] nodes[i]).on_update is Some && last_named(
                nodes,
                nodes[i].name@,
                nodes.len() as int,
            ) == Some(Widget { id: i as usize }) implies exists|k: int|
                0 <= k < handlers(nodes, n).len() && handlers(nodes, n)[k].0.id == i by {
            if i < n - 1 {
                let k = choose|k: int| 0 <= k < prev.len() && prev[k].0.id == i;
                assert(handlers(nodes, n)[k] == prev[k]);
            } else {
                let k = handlers(nodes, n).len() - 1;
                assert(handlers(nodes, n)[k].0.id == i);
            }
        }
    }
}


/// The minimum bounds of a widget depend only on the width and height it
/// is offered, not on where the offered bounds sit.
pub proof fn lemma_bounds_min_ignores_origin(
    nodes: Seq<WidgetData>,
    m: TextScale,
    node: WidgetData,
    mb: Bounds,
    mb2: Bounds,
    lo: int,
)
    requires
        mb2.w == mb.w,
        mb2.h == mb.h,
    ensures
        bounds_min(nodes, m, node, mb, lo) == bounds_min(nodes, m, node, mb2, lo),
    decreases nodes.len() - lo, node.children@.len() + 1,
{
    lemma_children_min_ignores_origin(
        nodes,
        m,
        node,
        inner_bounds(node, mb),
        inner_bounds(node, mb2),
        0,
        node.w_padding as int,
        node.h_padding as int,
        lo,
    );
}

/// The fold over the children likewise ignores where the offered bounds sit.
proof fn lemma_children_min_ignores_origin(
    nodes: Seq<WidgetData>,
    m: TextScale,
    node: WidgetData,
    inner: Bounds,
    inner2: Bounds,
    k: int,
    bw: int,
    bh: int,
    lo: int,
)
    requires
        inner2.w == inner.w,
        inner2.h == inner.h,
    ensures
        children_min(nodes, m, node, inner, k, bw, bh, lo) == children_min(nodes, m, node, inner2, k, bw, bh, lo),
    decreases nodes.len() - lo, node.children@.len() - k,
{
    if 0 <= k < node.children@.len() {
        let c = node.children@[k].id as int;
        if lo < c < nodes.len() {
            lemma_bounds_min_ignores_origin(nodes, m, nodes[c], inner, inner2, c);
            match bounds_min(nodes, m, nodes[c], inner, c) {
                None => {},
                Some(b) => {
                    if node.vertical {
                        lemma_children_min_ignores_origin(
                            nodes,
                            m,
                            node,
                            inner,
                            inner2,
                            k + 1,
                            if bw < b.w { b.w as int } else { bw },
                            bh + b.h + node.h_padding,
                            lo,
                        );
                    } else {
                        lemma_children_min_ignores_origin(
                            nodes,
                            m,
                            node,
                            inner,
                            inner2,
                            k + 1,
                            if bh < b.h { b.h as int } else { bw + b.w + node.w_padding },
                            bh,
                            lo,
                        );
                    }
                },
            }
        }
    }
}

/// Laying out a widget without children a second time within the same
/// bounds succeeds again and changes nothing more.
pub proof fn lemma_layout_childless_stable(nodes: Seq<WidgetData>, m: TextScale, id: int, bounds: Bounds)
    requires
        0 <= id < nodes.len(),
        nodes[id].children@.len() == 0,
    ensures
        layout(nodes, m, id, bounds, nodes.len() as int) matches Some((nodes1, true)) ==> layout(
            nodes1,
            m,
            id,
            bounds,
            nodes.len() as int,
        ) == Some((nodes1, true)),
{
    let n = nodes.len() as int;
    if let Some((nodes1, ok)) = layout(nodes, m, id, bounds, n) {
        if ok {
            let node = nodes[id];
            let node1 = laid_out(node, bounds);
            assert(nodes1 == nodes.update(id, node1));
            assert(nodes1[id] == node1);
            assert(laid_out(node1, bounds) == node1);
            assert(nodes1.update(id, node1) =~= nodes1);
            let mins = bounds_min(nodes, m, node, bounds, id).unwrap();
            let mins1 = bounds_min(nodes1, m, node1, bounds, id).unwrap();
            assert(mins1.w <= bounds.w && mins1.h <= bounds.h);
        }
    }
}


/// A layout pass over widget `id` keeps the arena's size, leaves every
/// widget before `id` alone, and leaves widget `id` either as it was or
/// placed in its bounds.
proof fn lemma_layout_frame(nodes: Seq<WidgetData>, m: TextScale, id: int, bounds: Bounds, n: int)
    ensures
        layout(nodes, m, id, bounds, n) matches Some((nodes2, ok)) ==> {
            &&& nodes2.len() == n
            &&& forall|j: int| 0 <= j < id ==> nodes2[j] == nodes[j]
            &&& (nodes2[id] == nodes[id] || nodes2[id] == laid_out(nodes[id], bounds))
        },
    decreases n - id, (if 0 <= id < nodes.len() {
        nodes[id].children@.len() as int
    } else {
        0
    }) + 1,
{
    if 0 <= id < n && nodes.len() == n {
        let node = nodes[id];
        let node1 = laid_out(node, bounds);
        let nodes1 = nodes.update(id, node1);
        let wp = node.w_padding as int;
        let hp = node.h_padding as int;
        let cnt = node.children@.len() as int;
        if let Some((w, h)) = measure_children(nodes1, m, node1, bounds, 0, wp, hp, id) {
            let d = cnt + 1;
            let dx = if node.vertical { node1.w - 2 * wp } else { trunc_div(node1.w - w, d) };
            let dy = if !node.vertical { node1.h - 2 * hp } else { trunc_div(node1.h - h, d) };
            let x0 = bounds.x + wp * 2;
            let y0 = bounds.y + hp * 2;
            let x1 = if node.vertical { x0 } else { x0 + trunc_div(dx, 8) };
            let y1 = if node.vertical { y0 + trunc_div(dy, 8) } else { y0 };
            lemma_place_children_frame(nodes1, m, node1, bounds, 0, x1, y1, dx, dy, id, n);
        }
    }
}

/// Laying out the children of a widget at position `lo` leaves every
/// widget up to `lo` alone.
proof fn lemma_place_children_frame(
    nodes: Seq<WidgetData>,
    m: TextScale,
    node: WidgetData,
    bounds: Bounds,
    k: int,
    x: int,
    y: int,
    dx: int,
    dy: int,
    lo: int,
    n: int,
)
    ensures
        place_children(nodes, m, node, bounds, k, x, y, dx, dy, lo, n) matches Some((r, ok)) ==> r.len()
            == nodes.len() && forall|j: int| 0 <= j <= lo ==> r[j] == nodes[j],
    decreases n - lo, node.children@.len() - k,
{
    if 0 <= k < node.children@.len() {
        let c = node.children@[k].id as int;
        if lo < c < n && nodes.len() == n {
            let wp = node.w_padding as int;
            let hp = node.h_padding as int;
            if let Some(b0) = bounds_min(nodes, m, nodes[c], bounds, c) {
                let b = Bounds {
                    x: x as i32,
                    y: y as i32,
                    w: (b0.w + dx - wp * 2) as i32,
                    h: (b0.h + dy - hp * 2) as i32,
                };
                lemma_layout_frame(nodes, m, c, b, n);
                if let Some((nodes2, ok)) = layout(nodes, m, c, b, n) {
                    assert(forall|j: int| 0 <= j <= lo ==> nodes2[j] == nodes[j]);
                    lemma_place_children_frame(
                        nodes2,
                        m,
                        node,
                        bounds,
                        k + 1,
                        if node.vertical { x } else { x + b0.w + dx + wp },
                        if node.vertical { y + b0.h + dy + hp } else { y },
                        dx,
                        dy,
                        lo,
                        n,
                    );
                }
            }
        }
    }
}

/// A panel laid out within its own rectangle always fits it, and the pass
/// leaves the panel's position and size as they were, whether it
/// succeeds or a widget below fails: the root of a gui keeps its place.
pub proof fn lemma_panel_keeps_its_place(nodes: Seq<WidgetData>, m: TextScale, id: int)
    requires
        0 <= id < nodes.len(),
        nodes[id].w_type == WidgetType::Div,
    ensures
        bounds_min(nodes, m, nodes[id], own_bounds(nodes[id]), id) matches Some(mins) ==> mins.w <= nodes[id].w
            && mins.h <= nodes[id].h,
        layout(nodes, m, id, own_bounds(nodes[id]), nodes.len() as int) matches Some((nodes2, ok)) ==> {
            &&& nodes2[id].x == nodes[id].x
            &&& nodes2[id].y == nodes[id].y
            &&& nodes2[id].w == nodes[id].w
            &&& nodes2[id].h == nodes[id].h
        },
{
    let b = own_bounds(nodes[id]);
    if bounds_min(nodes, m, nodes[id], b, id) is Some {
        lemma_bounds_min_capped(nodes, m, nodes[id], b, id);
    }
    lemma_layout_frame(nodes, m, id, b, nodes.len() as int);
}


/// The minimum bounds of child `k` of `node` within `inner`.
pub open spec fn child_min(nodes: Seq<WidgetData>, m: TextScale, node: WidgetData, inner: Bounds, k: int) -> Bounds {
    let c = node.children@[k].id as int;
    bounds_min(nodes, m, nodes[c], inner, c).unwrap()
}

/// The total height of the first `k` children stacked one below the other,
/// each followed by the padding.
pub open spec fn stacked_height(nodes: Seq<WidgetData>, m: TextScale, node: WidgetData, inner: Bounds, k: int) -> int
    decreases k,
{
    if k <= 0 {
        0
    } else {
        stacked_height(nodes, m, node, inner, k - 1) + child_min(nodes, m, node, inner, k - 1).h + node.h_padding
    }
}

/// The fold over the children of a vertical widget adds up their heights
/// and keeps the widest of their widths.
proof fn lemma_children_min_vertical(
    nodes: Seq<WidgetData>,
    m: TextScale,
    node: WidgetData,
    inner: Bounds,
    k: int,
    bw: int,
    bh: int,
    lo: int,
)
    requires
        node.vertical,
        0 <= k <= node.children@.len(),
        children_min(nodes, m, node, inner, k, bw, bh, lo) is Some,
    ensures
        children_min(nodes, m, node, inner, k, bw, bh, lo) matches Some((w2, h2)) && h2 == bh + stacked_height(
            nodes,
            m,
            node,
            inner,
            node.children@.len() as int,
        ) - stacked_height(nodes, m, node, inner, k) && w2 >= bw && forall|j: int|
            k <= j < node.children@.len() ==> w2 >= (#[trigger] child_min(nodes, m, node, inner, j)).w,
    decreases node.children@.len() - k,
{
    if k < node.children@.len() {
        let c = node.children@[k].id as int;
        let b = bounds_min(nodes, m, nodes[c], inner, c).unwrap();
        assert(b == child_min(nodes, m, node, inner, k));
        let bw2 = if bw < b.w { b.w as int } else { bw };
        let bh2 = bh + b.h + node.h_padding;
        lemma_children_min_vertical(nodes, m, node, inner, k + 1, bw2, bh2, lo);
        assert(stacked_height(nodes, m, node, inner, k + 1) == stacked_height(nodes, m, node, inner, k) + b.h
            + node.h_padding);
    }
}

/// A vertical widget is as high as its children stacked one below the
/// other, with the padding above, between and below them, and at least as
/// wide as each child plus the padding; both capped by the widget's own
/// base size. Adding a child of minimum height `h` adds `h` plus the
/// padding to the stack.
pub proof fn lemma_vertical_min_stacks(nodes: Seq<WidgetData>, m: TextScale, node: WidgetData, mb: Bounds, lo: int)
    requires
        node.vertical,
        bounds_min(nodes, m, node, mb, lo) is Some,
    ensures
        bounds_min(nodes, m, node, mb, lo) matches Some(b) && (base_size(node, m, mb) matches Some((bw0, bh0)) && {
            let inner = inner_bounds(node, mb);
            let stack = node.h_padding + stacked_height(nodes, m, node, inner, node.children@.len() as int)
                + node.h_padding;
            &&& b.h == (if stack > bh0 { bh0 } else { stack })
            &&& forall|j: int|
                0 <= j < node.children@.len() ==> b.w >= (if (#[trigger] child_min(nodes, m, node, inner, j)).w
                    + node.w_padding > bw0 {
                    bw0
                } else {
                    child_min(nodes, m, node, inner, j).w + node.w_padding
                })
        }),
{
    let inner = inner_bounds(node, mb);
    lemma_children_min_vertical(nodes, m, node, inner, 0, node.w_padding as int, node.h_padding as int, lo);
}


/// Consecutive children `a` then `c` (before layout `a0`, `c0`; minimum
/// bounds `ma`, `mc`) of `node` after layout: along the layout direction
/// `c` starts at least three paddings past the end of `a` (exactly that far
/// when `a` stretches to fill its bounds), in the same column or row; and
/// two children that stretch get the same share of the spare room.
pub open spec fn stacked_pair(
    node: WidgetData,
    ma: Bounds,
    mc: Bounds,
    a0: WidgetData,
    c0: WidgetData,
    a: WidgetData,
    c: WidgetData,
) -> bool {
    &&& node.vertical ==> {
        &&& c.x == a.x
        &&& c.y >= a.y + a.h + 3 * node.h_padding
        &&& a0.h == 0 ==> c.y == a.y + a.h + 3 * node.h_padding
    }
    &&& !node.vertical ==> {
        &&& c.y == a.y
        &&& c.x >= a.x + a.w + 3 * node.w_padding
        &&& a0.w == 0 ==> c.x == a.x + a.w + 3 * node.w_padding
    }
    &&& a0.w == 0 && c0.w == 0 ==> a.w - ma.w == c.w - mc.w
    &&& a0.h == 0 && c0.h == 0 ==> a.h - ma.h == c.h - mc.h
}

/// Children `j` and `j + 1` of `node` sit as `stacked_pair` says in the
/// laid-out arena `r`.
pub open spec fn children_stacked(
    nodes: Seq<WidgetData>,
    m: TextScale,
    node: WidgetData,
    bounds: Bounds,
    r: Seq<WidgetData>,
    j: int,
) -> bool {
    let a = node.children@[j].id as int;
    let c = node.children@[j + 1].id as int;
    stacked_pair(
        node,
        child_min(nodes, m, node, bounds, j),
        child_min(nodes, m, node, bounds, j + 1),
        nodes[a],
        nodes[c],
        r[a],
        r[c],
    )
}

/// The children of `node` are distinct widgets without children, after `lo`.
pub open spec fn leaf_children(nodes: Seq<WidgetData>, node: WidgetData, lo: int) -> bool {
    &&& forall|j: int|
        0 <= j < node.children@.len() ==> lo < (#[trigger] node.children@[j]).id < nodes.len()
            && nodes[node.children@[j].id as int].children@.len() == 0
    &&& forall|i: int, j: int|
        0 <= i < j < node.children@.len() ==> (#[trigger] node.children@[i]).id != (#[trigger] node.children@[j]).id
}

/// The minimum bounds of a widget without children read nothing else of
/// the arena.
proof fn lemma_leaf_bounds_min(
    ns1: Seq<WidgetData>,
    ns2: Seq<WidgetData>,
    m: TextScale,
    node: WidgetData,
    mb: Bounds,
    c: int,
)
    requires
        node.children@.len() == 0,
    ensures
        bounds_min(ns1, m, node, mb, c) == bounds_min(ns2, m, node, mb, c),
{
}

proof fn lemma_place_leaves(
    nodes: Seq<WidgetData>,
    m: TextScale,
    node: WidgetData,
    bounds: Bounds,
    k: int,
    x: int,
    y: int,
    dx: int,
    dy: int,
    lo: int,
    n: int,
)
    requires
        nodes.len() == n,
        0 <= k <= node.children@.len(),
        leaf_children(nodes, node, lo),
        fits_i32(x),
        fits_i32(y),
    ensures
        place_children(nodes, m, node, bounds, k, x, y, dx, dy, lo, n) matches Some((r, true)) ==> {
            &&& r.len() == n
            &&& forall|j: int|
                0 <= j < k ==> r[(#[trigger] node.children@[j]).id as int] == nodes[node.children@[j].id as int]
            &&& k < node.children@.len() ==> r[node.children@[k].id as int] == laid_out(
                nodes[node.children@[k].id as int],
                Bounds {
                    x: x as i32,
                    y: y as i32,
                    w: (child_min(nodes, m, node, bounds, k).w + dx - node.w_padding * 2) as i32,
                    h: (child_min(nodes, m, node, bounds, k).h + dy - node.h_padding * 2) as i32,
                },
            )
            &&& forall|j: int|
                k <= j && j + 1 < node.children@.len() ==> #[trigger] children_stacked(nodes, m, node, bounds, r, j)
        },
    decreases node.children@.len() - k,
{
    let len = node.children@.len() as int;
    if k < len {
        if let Some((r, ok0)) = place_children(nodes, m, node, bounds, k, x, y, dx, dy, lo, n) {
            if ok0 {
                let c = node.children@[k].id as int;
                let wp = node.w_padding as int;
                let hp = node.h_padding as int;
                let b0 = bounds_min(nodes, m, nodes[c], bounds, c).unwrap();
                assert(b0 == child_min(nodes, m, node, bounds, k));
                assert(fits_i32(b0.w + dx - wp * 2) && fits_i32(b0.h + dy - hp * 2));
                let b = Bounds {
                    x: x as i32,
                    y: y as i32,
                    w: (b0.w + dx - wp * 2) as i32,
                    h: (b0.h + dy - hp * 2) as i32,
                };
                let (nodes2, ok) = layout(nodes, m, c, b, n).unwrap();
                assert(ok);
                assert(nodes2 == nodes.update(c, laid_out(nodes[c], b)));
                let x2 = if node.vertical { x } else { x + b0.w + dx + wp };
                let y2 = if node.vertical { y + b0.h + dy + hp } else { y };
                assert(fits_i32(x2) && fits_i32(y2));
                assert(place_children(nodes2, m, node, bounds, k + 1, x2, y2, dx, dy, lo, n) == Some((r, true)));
                assert forall|j: int| 0 <= j < len implies lo < (#[trigger] node.children@[j]).id < nodes2.len()
                    && nodes2[node.children@[j].id as int].children@.len() == 0 by {
                    let cj = node.children@[j].id as int;
                    if cj != c {
                        assert(nodes2[cj] == nodes[cj]);
                    }
                }
                assert forall|j: int| k < j < len implies nodes2[(#[trigger] node.children@[j]).id as int]
                    == nodes[node.children@[j].id as int] by {
                    assert(node.children@[k].id != node.children@[j].id);
                }
                assert forall|j: int| k < j < len implies #[trigger] child_min(nodes2, m, node, bounds, j)
                    == child_min(nodes, m, node, bounds, j) by {
                    let cj = node.children@[j].id as int;
                    assert(nodes2[cj] == nodes[cj]);
                    lemma_leaf_bounds_min(nodes2, nodes, m, nodes[cj], bounds, cj);
                }
                lemma_place_leaves(nodes2, m, node, bounds, k + 1, x2, y2, dx, dy, lo, n);
                assert(r[c] == nodes2[c]);
                assert forall|j: int| 0 <= j < k implies r[(#[trigger] node.children@[j]).id as int]
                    == nodes[node.children@[j].id as int] by {
                    assert(node.children@[j].id != node.children@[k].id);
                    assert(r[node.children@[j].id as int] == nodes2[node.children@[j].id as int]);
                }
                assert forall|j: int| k <= j && j + 1 < len implies #[trigger] children_stacked(
                    nodes,
                    m,
                    node,
                    bounds,
                    r,
                    j,
                ) by {
                    if j > k {
                        assert(children_stacked(nodes2, m, node, bounds, r, j));
                        let a = node.children@[j].id as int;
                        let cc = node.children@[j + 1].id as int;
                        assert(nodes2[a] == nodes[a]);
                        assert(nodes2[cc] == nodes[cc]);
                    } else {
                        let cc = node.children@[k + 1].id as int;
                        assert(nodes2[cc] == nodes[cc]);
                        assert(r[c] == laid_out(nodes[c], b));
                        assert(r[cc] == laid_out(
                            nodes[cc],
                            Bounds {
                                x: x2 as i32,
                                y: y2 as i32,
                                w: (child_min(nodes, m, node, bounds, k + 1).w + dx - wp * 2) as i32,
                                h: (child_min(nodes, m, node, bounds, k + 1).h + dy - hp * 2) as i32,
                            },
                        ));
                    }
                }
            }
        }
    }
}

/// Laying out a widget whose children have no children of their own puts
/// them one after the other along its direction, in the same column (or
/// row): each child starts three paddings past the end of the bounds the
/// one before it was given, so never on top of it, and every child that
/// stretches gets the same share of the spare room.
pub proof fn lemma_children_placed_in_turn(nodes: Seq<WidgetData>, m: TextScale, id: int, bounds: Bounds)
    requires
        0 <= id < nodes.len(),
        leaf_children(nodes, nodes[id], id),
    ensures
        layout(nodes, m, id, bounds, nodes.len() as int) matches Some((r, true)) ==> forall|j: int|
            0 <= j && j + 1 < nodes[id].children@.len() ==> #[trigger] children_stacked(
                nodes,
                m,
                nodes[id],
                bounds,
                r,
                j,
            ),
{
    let n = nodes.len() as int;
    let node = nodes[id];
    let node1 = laid_out(node, bounds);
    let nodes1 = nodes.update(id, node1);
    let wp = node.w_padding as int;
    let hp = node.h_padding as int;
    let cnt = node.children@.len() as int;
    if let Some((r, true)) = layout(nodes, m, id, bounds, n) {
        if cnt > 1 {
            if let Some((w, h)) = measure_children(nodes1, m, node1, bounds, 0, wp, hp, id) {
                let d = cnt + 1;
                let dx = if node.vertical { node1.w - 2 * wp } else { trunc_div(node1.w - w, d) };
                let dy = if !node.vertical { node1.h - 2 * hp } else { trunc_div(node1.h - h, d) };
                let x0 = bounds.x + wp * 2;
                let y0 = bounds.y + hp * 2;
                let x1 = if node.vertical { x0 } else { x0 + trunc_div(dx, 8) };
                let y1 = if node.vertical { y0 + trunc_div(dy, 8) } else { y0 };
                assert forall|j: int| 0 <= j < cnt implies lo_child_ok(nodes1, node1, id, j) by {
                    let cj = node.children@[j].id as int;
                    assert(nodes1[cj] == nodes[cj]);
                }
                assert(leaf_children(nodes1, node1, id));
                assert forall|j: int| 0 <= j < cnt implies #[trigger] child_min(nodes1, m, node1, bounds, j)
                    == child_min(nodes, m, node, bounds, j) by {
                    let cj = node.children@[j].id as int;
                    assert(nodes1[cj] == nodes[cj]);
                    lemma_leaf_bounds_min(nodes1, nodes, m, nodes[cj], bounds, cj);
                }
                if fits_i32(x1) && fits_i32(y1) {
                    lemma_place_leaves(nodes1, m, node1, bounds, 0, x1, y1, dx, dy, id, n);
                    assert forall|j: int| 0 <= j && j + 1 < cnt implies #[trigger] children_stacked(
                        nodes,
                        m,
                        node,
                        bounds,
                        r,
                        j,
                    ) by {
                        assert(children_stacked(nodes1, m, node1, bounds, r, j));
                        let a = node.children@[j].id as int;
                        let cc = node.children@[j + 1].id as int;
                        assert(nodes1[a] == nodes[a]);
                        assert(nodes1[cc] == nodes[cc]);
                    }
                }
            }
        }
    }
}

/// Child `j` of `node` is a widget without children after `lo`.
pub open spec fn lo_child_ok(nodes: Seq<WidgetData>, node: WidgetData, lo: int, j: int) -> bool {
    lo < node.children@[j].id < nodes.len() && nodes[node.children@[j].id as int].children@.len() == 0
}

} // verus!
