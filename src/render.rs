//! A board drawn as squares and line segments, and its SVG text.
use vstd::prelude::*;
use vstd::string::StringSliceAdditionalSpecFns;

use svg::node::element::{Line, Rectangle, SVG};

use crate::board::{
    chain, grid_view, highlight, is_square, lemma_chain_start_bounds, lemma_grid_view,
    moves_on_board, on_board, replay, snapshot, Coord, Input, Output,
};
use crate::text::{decimal, signed_decimal};
use crate::parse::{
    grid_of, input_ok, isize_of, move_at, moves_of, num, output_ok, parse_input, parse_output,
    tokens,
};

verus! {

/// The side of the canvas that the cells share, in pixels.
pub const CANVAS: usize = 600;

/// The margin round the board, in pixels.
pub const MARGIN: usize = 5;

/// How a square is filled: gray for a blocked cell, else a palette entry
/// (0 empty, 1 to 6 the colors).
#[derive(Clone, Copy, Debug, PartialEq, Eq, Structural)]
pub enum Fill {
    Gray,
    Palette(usize),
}

/// A filled square with its top left corner at (`left`, `top`).
#[derive(Clone, Copy, Debug, PartialEq, Eq, Structural)]
pub struct Square {
    pub top: usize,
    pub left: usize,
    pub size: usize,
    pub fill: Fill,
}

/// A line segment from (`x1`, `y1`) to (`x2`, `y2`).
#[derive(Clone, Copy, Debug, PartialEq, Eq, Structural)]
pub struct Segment {
    pub x1: usize,
    pub y1: usize,
    pub x2: usize,
    pub y2: usize,
}

/// One square per cell in row-major order, then the highlighted moves.
pub struct Drawing {
    pub cell: usize,
    pub squares: Vec<Square>,
    pub segments: Vec<Segment>,
}

/// The side of a cell on a board of side `n`.
pub open spec fn cell_size(n: int) -> int {
    CANVAS as int / n
}

/// The square drawn for cell (`y`, `x`): gray where the base board blocks the
/// cell, else colored by the snapshot.
pub open spec fn square_at(base: Seq<Seq<isize>>, snap: Seq<Seq<isize>>, y: int, x: int, d: int) -> Square {
    Square {
        top: (y * d) as usize,
        left: (x * d) as usize,
        size: d as usize,
        fill: if base[y][x] == -1 {
            Fill::Gray
        } else {
            Fill::Palette(snap[y][x] as usize)
        },
    }
}

/// The squares of an `n` by `n` board, row by row.
pub open spec fn squares_of(base: Seq<Seq<isize>>, snap: Seq<Seq<isize>>, n: int, d: int) -> Seq<Square> {
    Seq::new((n * n) as nat, |k: int| square_at(base, snap, k / n, k % n, d))
}

/// The pixel at the middle of row or column `i`.
pub open spec fn center(i: int, d: int) -> int {
    i * d + d / 2
}

/// The segment drawn for a move: from the middle of its origin to the middle
/// of its destination.
pub open spec fn segment_of(a: (Coord, Coord), d: int) -> Segment {
    Segment {
        x1: center(a.0.x as int, d) as usize,
        y1: center(a.0.y as int, d) as usize,
        x2: center(a.1.x as int, d) as usize,
        y2: center(a.1.y as int, d) as usize,
    }
}

/// The segments of the moves at the indices of `ids`, in that order.
pub open spec fn segments_of(acts: Seq<(Coord, Coord)>, ids: Seq<usize>, d: int) -> Seq<Segment> {
    Seq::new(ids.len(), |i: int| segment_of(acts[ids[i] as int], d))
}

/// Every cell that the base board does not block holds a palette entry.
pub open spec fn palette_ok(base: Seq<Seq<isize>>, snap: Seq<Seq<isize>>, n: int) -> bool {
    forall|y: int, x: int|
        0 <= y < n && 0 <= x < n && base[y][x] != -1 ==> 0 <= #[trigger] snap[y][x] <= 6
}

/// Every cell of a board of side `n` lies on the canvas.
proof fn lemma_pixel(i: int, n: int)
    requires
        0 <= i < n,
    ensures
        0 <= cell_size(n),
        i * cell_size(n) + cell_size(n) <= CANVAS,
        n * cell_size(n) <= CANVAS,
{
    let d = CANVAS as int / n;
    vstd::arithmetic::div_mod::lemma_fundamental_div_mod(CANVAS as int, n);
    assert(n * d <= 600 && d >= 0) by (nonlinear_arith)
        requires
            600 == n * d + 600int % n,
            0 <= 600int % n < n,
            n > 0,
    ;
    assert(i * d + d <= n * d) by (nonlinear_arith)
        requires
            0 <= i < n,
            d >= 0,
    ;
}

/// The squares and highlight segments for snapshot `snap` of board `input`.
pub fn render(input: &Input, snap: &Vec<Vec<isize>>, out: &Output, ids: &Vec<usize>) -> (r: Drawing)
    requires
        input.wf(),
        0 < input.N,
        is_square(grid_view(snap), input.N as int),
        palette_ok(grid_view(&input.grid), grid_view(snap), input.N as int),
        out.wf(),
        forall|i: int| 0 <= i < ids.len() ==> #[trigger] ids[i] < out.L,
        forall|i: int|
            0 <= i < ids.len() ==> on_board(out.actions@[#[trigger] ids[i] as int].0, input.N as int)
                && on_board(out.actions@[ids[i] as int].1, input.N as int),
    ensures
        r.cell == cell_size(input.N as int),
        r.squares@ == squares_of(grid_view(&input.grid), grid_view(snap), input.N as int, r.cell as int),
        r.segments@ == segments_of(out.actions@, ids@, r.cell as int),
{
    let n = input.N;
    let d = CANVAS / n;
    let ghost base = grid_view(&input.grid);
    let ghost sv = grid_view(snap);
    proof {
        lemma_grid_view(&input.grid);
        lemma_grid_view(snap);
    }
    let mut squares: Vec<Square> = Vec::new();
    let mut y: usize = 0;
    while y < n
        invariant
            y <= n,
            0 < n == input.N,
            d == cell_size(n as int),
            base == grid_view(&input.grid),
            sv == grid_view(snap),
            is_square(base, n as int),
            is_square(sv, n as int),
            input.grid.len() == n,
            snap.len() == n,
            forall|i: int| 0 <= i < n ==> #[trigger] input.grid[i]@ == base[i],
            forall|i: int| 0 <= i < n ==> #[trigger] snap[i]@ == sv[i],
            palette_ok(base, sv, n as int),
            squares@ =~= Seq::new((y * n) as nat, |k: int| square_at(base, sv, k / n as int, k % n as int, d as int)),
        decreases n - y,
    {
        assert(base[y as int].len() == n && sv[y as int].len() == n);
        proof {
            lemma_pixel(y as int, n as int);
        }
        let mut x: usize = 0;
        while x < n
            invariant
                x <= n,
                y < n,
                0 < n == input.N,
                d == cell_size(n as int),
                base == grid_view(&input.grid),
                sv == grid_view(snap),
                input.grid.len() == n,
                snap.len() == n,
                input.grid[y as int]@ == base[y as int],
                snap[y as int]@ == sv[y as int],
                base[y as int].len() == n,
                sv[y as int].len() == n,
                y * d + d <= CANVAS,
                palette_ok(base, sv, n as int),
                squares@ =~= Seq::new((y * n + x) as nat, |k: int| square_at(base, sv, k / n as int, k % n as int, d as int)),
            decreases n - x,
        {
            proof {
                lemma_pixel(x as int, n as int);
                vstd::arithmetic::div_mod::lemma_fundamental_div_mod_converse(
                    (y * n + x) as int, n as int, y as int, x as int);
                assert((y * n + x) as int == y as int * n as int + x as int);
            }
            let fill = if input.grid[y][x] == -1 {
                Fill::Gray
            } else {
                Fill::Palette(snap[y][x] as usize)
            };
            squares.push(Square { top: y * d, left: x * d, size: d, fill });
            x = x + 1;
        }
        assert((y + 1) * n == y * n + n) by (nonlinear_arith);
        y = y + 1;
    }
    let mut segments: Vec<Segment> = Vec::new();
    let mut i: usize = 0;
    while i < ids.len()
        invariant
            i <= ids.len(),
            0 < n == input.N,
            d == cell_size(n as int),
            out.wf(),
            forall|j: int| 0 <= j < ids.len() ==> #[trigger] ids[j] < out.L,
            forall|j: int|
                0 <= j < ids.len() ==> on_board(out.actions@[#[trigger] ids[j] as int].0, n as int)
                    && on_board(out.actions@[ids[j] as int].1, n as int),
            segments@ =~= Seq::new(i as nat, |j: int| segment_of(out.actions@[ids@[j] as int], d as int)),
        decreases ids.len() - i,
    {
        let t = ids[i];
        let a = out.actions[t];
        assert(on_board(out.actions@[ids@[i as int] as int].0, n as int));
        proof {
            lemma_pixel(a.0.x as int, n as int);
            lemma_pixel(a.0.y as int, n as int);
            lemma_pixel(a.1.x as int, n as int);
            lemma_pixel(a.1.y as int, n as int);
        }
        segments.push(Segment {
            x1: a.0.x * d + d / 2,
            y1: a.0.y * d + d / 2,
            x2: a.1.x * d + d / 2,
            y2: a.1.y * d + d / 2,
        });
        i = i + 1;
    }
    Drawing { cell: d, squares, segments }
}

/// The SVG color name of a fill.
pub open spec fn fill_name(f: Fill) -> Seq<char> {
    match f {
        Fill::Gray => "gray"@,
        Fill::Palette(i) => if i == 0 {
            "white"@
        } else if i == 1 {
            "blue"@
        } else if i == 2 {
            "red"@
        } else if i == 3 {
            "green"@
        } else if i == 4 {
            "yellow"@
        } else if i == 5 {
            "brown"@
        } else {
            "purple"@
        },
    }
}

/// A fill whose palette entry, if any, is one of the seven.
pub open spec fn fill_ok(f: Fill) -> bool {
    match f {
        Fill::Gray => true,
        Fill::Palette(i) => i <= 6,
    }
}

/// The SVG color name of a fill.
pub fn fill_str(f: Fill) -> (r: &'static str)
    requires
        fill_ok(f),
    ensures
        r@ == fill_name(f),
{
    match f {
        Fill::Gray => "gray",
        Fill::Palette(i) => if i == 0 {
            "white"
        } else if i == 1 {
            "blue"
        } else if i == 2 {
            "red"
        } else if i == 3 {
            "green"
        } else if i == 4 {
            "yellow"
        } else if i == 5 {
            "brown"
        } else {
            "purple"
        },
    }
}

#[verifier::external_type_specification]
#[verifier::external_body]
pub struct ExSvg(SVG);

#[verifier::external_type_specification]
#[verifier::external_body]
pub struct ExRectangle(Rectangle);

#[verifier::external_type_specification]
#[verifier::external_body]
pub struct ExLine(Line);

/// An attribute map: each attribute name with the text of its value.
pub type Attrs = Map<Seq<char>, Seq<char>>;

/// The attributes that an `svg` element holds.
pub uninterp spec fn doc_attributes(d: SVG) -> Map<Seq<char>, Seq<char>>;

/// The children of an `svg` element, in the order they were added: each an
/// element name with its attributes.
pub uninterp spec fn doc_children(d: SVG) -> Seq<(Seq<char>, Map<Seq<char>, Seq<char>>)>;

/// The attributes that a `rect` element holds.
pub uninterp spec fn rect_attributes(r: Rectangle) -> Map<Seq<char>, Seq<char>>;

/// The attributes that a `line` element holds.
pub uninterp spec fn line_attributes(l: Line) -> Map<Seq<char>, Seq<char>>;

/// The markup that svg writes for an `svg` element with these attributes
/// and these childless children.
pub uninterp spec fn svg_markup(
    attrs: Map<Seq<char>, Seq<char>>,
    children: Seq<(Seq<char>, Map<Seq<char>, Seq<char>>)>,
) -> Seq<char>;

/// The attributes of the document: the namespace, a square view box from
/// (`origin`, `origin`) of side `side`, that size, and a stroke.
pub open spec fn root_attributes(origin: int, side: nat, stroke: Seq<char>, width: nat) -> Attrs {
    map![
        "xmlns"@ => "http://www.w3.org/2000/svg"@,
        "viewBox"@ => signed_decimal(origin) + " "@ + signed_decimal(origin) + " "@ + decimal(side)
            + " "@ + decimal(side),
        "width"@ => decimal(side),
        "height"@ => decimal(side),
        "stroke"@ => stroke,
        "stroke-width"@ => decimal(width),
    ]
}

/// The attributes of a `w` by `h` rectangle at (`x`, `y`) filled with `fill`.
pub open spec fn rect_map(y: nat, x: nat, w: nat, h: nat, fill: Seq<char>) -> Attrs {
    map![
        "x"@ => decimal(x),
        "y"@ => decimal(y),
        "width"@ => decimal(w),
        "height"@ => decimal(h),
        "fill"@ => fill,
    ]
}

/// The attributes of a line along `s` with a stroke color, width and cap.
pub open spec fn line_map(s: Segment, stroke: Seq<char>, width: nat, cap: Seq<char>) -> Attrs {
    map![
        "x1"@ => decimal(s.x1 as nat),
        "y1"@ => decimal(s.y1 as nat),
        "x2"@ => decimal(s.x2 as nat),
        "y2"@ => decimal(s.y2 as nat),
        "stroke"@ => stroke,
        "stroke-width"@ => decimal(width),
        "stroke-linecap"@ => cap,
    ]
}

/// The element drawn for a square.
pub open spec fn square_node(q: Square) -> (Seq<char>, Attrs) {
    ("rect"@, rect_map(q.top as nat, q.left as nat, q.size as nat, q.size as nat, fill_name(q.fill)))
}

/// The element drawn for a segment: a light gray round-capped line, 10 wide.
pub open spec fn segment_node(s: Segment) -> (Seq<char>, Attrs) {
    ("line"@, line_map(s, "lightgray"@, 10, "round"@))
}

/// The markup of a drawing whose board spans `board` pixels: the squares,
/// then the segments, in a document with a margin of `MARGIN` pixels all
/// round and a gray stroke 1 wide.
pub open spec fn drawing_markup(board: nat, squares: Seq<Square>, segments: Seq<Segment>) -> Seq<char> {
    svg_markup(
        root_attributes(-(MARGIN as int), (board + 2 * MARGIN) as nat, "gray"@, 1),
        squares.map_values(|q: Square| square_node(q)) + segments.map_values(|s: Segment| segment_node(s)),
    )
}

/// Relies on svg's `SVG::new`, which sets `xmlns`, and `SVG::set`, whose
/// values are written by `Display` (a tuple's entries separated by spaces):
/// an empty document with these attributes.
#[verifier::external_body]
fn document(origin: i64, side: usize, stroke: &str, stroke_width: usize) -> (r: SVG)
    ensures
        doc_attributes(r) == root_attributes(origin as int, side as nat, stroke@, stroke_width as nat),
        doc_children(r) == Seq::<(Seq<char>, Attrs)>::empty(),
{
    svg::Document::new()
        .set("viewBox", (origin, origin, side, side))
        .set("width", side)
        .set("height", side)
        .set("stroke", stroke)
        .set("stroke-width", stroke_width)
}

/// Relies on svg's `Rectangle::new` and `Rectangle::set`: a `w` by `h`
/// rectangle at (`x`, `y`) filled with `fill`.
#[verifier::external_body]
pub fn rect(y: usize, x: usize, w: usize, h: usize, fill: &str) -> (r: Rectangle)
    ensures
        rect_attributes(r) == rect_map(y as nat, x as nat, w as nat, h as nat, fill@),
{
    Rectangle::new()
        .set("x", x)
        .set("y", y)
        .set("width", w)
        .set("height", h)
        .set("fill", fill)
}

/// Relies on svg's `Line::new` and `Line::set`: a line with the given ends,
/// stroke color, width and line cap.
#[verifier::external_body]
fn segment_line(s: Segment, stroke: &str, width: usize, cap: &str) -> (r: Line)
    ensures
        line_attributes(r) == line_map(s, stroke@, width as nat, cap@),
{
    Line::new()
        .set("x1", s.x1)
        .set("y1", s.y1)
        .set("x2", s.x2)
        .set("y2", s.y2)
        .set("stroke", stroke)
        .set("stroke-width", width)
        .set("stroke-linecap", cap)
}

/// Relies on svg's `SVG::add`: appends a rectangle to the children.
#[verifier::external_body]
fn add_rect(doc: SVG, r: Rectangle) -> (d: SVG)
    ensures
        doc_attributes(d) == doc_attributes(doc),
        doc_children(d) == doc_children(doc).push(("rect"@, rect_attributes(r))),
{
    doc.add(r)
}

/// Relies on svg's `SVG::add`: appends a line to the children.
#[verifier::external_body]
fn add_line(doc: SVG, l: Line) -> (d: SVG)
    ensures
        doc_attributes(d) == doc_attributes(doc),
        doc_children(d) == doc_children(doc).push(("line"@, line_attributes(l))),
{
    doc.add(l)
}

/// Relies on svg's `Display` for `SVG`, which writes the element's name, its
/// attributes sorted by name, and its children in order.
#[verifier::external_body]
fn svg_text(doc: &SVG) -> (r: String)
    ensures
        r@ == svg_markup(doc_attributes(*doc), doc_children(*doc)),
{
    doc.to_string()
}

/// The SVG markup of a drawing of a board of side `n`: the squares, then the
/// segments, inside a margin of `MARGIN` pixels.
pub fn to_svg(drawing: &Drawing, n: usize) -> (r: String)
    requires
        drawing.cell * n <= CANVAS,
        forall|i: int| 0 <= i < drawing.squares.len() ==> fill_ok(#[trigger] drawing.squares[i].fill),
    ensures
        r@ == drawing_markup((drawing.cell * n) as nat, drawing.squares@, drawing.segments@),
{
    let side = drawing.cell * n + 2 * MARGIN;
    let origin: i64 = -(MARGIN as i64);
    let mut doc = document(origin, side, "gray", 1);
    let ghost attrs = doc_attributes(doc);
    let ghost sq = drawing.squares@.map_values(|q: Square| square_node(q));
    let ghost sg = drawing.segments@.map_values(|s: Segment| segment_node(s));
    let mut i: usize = 0;
    while i < drawing.squares.len()
        invariant
            i <= drawing.squares.len(),
            forall|j: int| 0 <= j < drawing.squares.len() ==> fill_ok(#[trigger] drawing.squares[j].fill),
            sq == drawing.squares@.map_values(|q: Square| square_node(q)),
            doc_attributes(doc) == attrs,
            doc_children(doc) == sq.take(i as int),
        decreases drawing.squares.len() - i,
    {
        let q = drawing.squares[i];
        let name = fill_str(q.fill);
        doc = add_rect(doc, rect(q.top, q.left, q.size, q.size, name));
        assert(sq.take(i + 1) =~= sq.take(i as int).push(sq[i as int]));
        i = i + 1;
    }
    assert(sq.take(i as int) =~= sq);
    let mut j: usize = 0;
    while j < drawing.segments.len()
        invariant
            j <= drawing.segments.len(),
            sg == drawing.segments@.map_values(|s: Segment| segment_node(s)),
            doc_attributes(doc) == attrs,
            doc_children(doc) == sq + sg.take(j as int),
        decreases drawing.segments.len() - j,
    {
        doc = add_line(doc, segment_line(drawing.segments[j], "lightgray", 10, "round"));
        assert(sq + sg.take(j + 1) =~= (sq + sg.take(j as int)).push(sg[j as int]));
        j = j + 1;
    }
    assert(sg.take(j as int) =~= sg);
    svg_text(&doc)
}

/// Draws board `input` after the first `turn` moves of `out`, with the run of
/// moves that ends at the last of them highlighted. Returns the score (always
/// 0), an error message (always empty) and the SVG markup.
pub fn vis(input: &Input, out: &Output, turn: usize) -> (r: (i64, String, String))
    requires
        input.wf(),
        0 < input.N,
        out.wf(),
        turn <= out.L,
        moves_on_board(out.actions@.take(turn as int), input.N as int),
        palette_ok(
            grid_view(&input.grid),
            replay(grid_view(&input.grid), out.actions@.take(turn as int)),
            input.N as int,
        ),
    ensures
        r.0 == 0,
        r.1@ == Seq::<char>::empty(),
        r.2@ == drawing_markup(
            (cell_size(input.N as int) * input.N) as nat,
            squares_of(
                grid_view(&input.grid),
                replay(grid_view(&input.grid), out.actions@.take(turn as int)),
                input.N as int,
                cell_size(input.N as int),
            ),
            segments_of(out.actions@, chain(out.actions@, turn as int), cell_size(input.N as int)),
        ),
{
    let grid = snapshot(input, out, turn);
    let ids = highlight(out, turn);
    assert forall|i: int| 0 <= i < ids.len() implies #[trigger] ids[i] < out.L && on_board(
        out.actions@[ids[i] as int].0,
        input.N as int,
    ) && on_board(out.actions@[ids[i] as int].1, input.N as int) by {
        if turn > 0 {
            lemma_chain_start_bounds(out.actions@, turn - 1);
        }
        assert(ids@[i] == chain(out.actions@, turn as int)[i]);
        let t = ids@[i] as int;
        assert(0 <= t < turn);
        let pre = out.actions@.take(turn as int);
        assert(pre[t] == out.actions@[t]);
        assert(moves_on_board(pre, input.N as int));
        assert(pre.len() == turn);
        assert(0 <= t < pre.len());
        assert(on_board(pre[t].0, input.N as int));
        assert(on_board(pre[t].1, input.N as int));
    }
    let drawing = render(input, &grid, out, &ids);
    proof {
        lemma_pixel(0, input.N as int);
        let base = grid_view(&input.grid);
        let sv = grid_view(&grid);
        let n = input.N as int;
        assert forall|k: int| 0 <= k < drawing.squares.len() implies fill_ok(#[trigger] drawing.squares[k].fill) by {
            vstd::arithmetic::div_mod::lemma_fundamental_div_mod(k, n);
            let y = k / n;
            let x = k % n;
            assert(0 <= y < n) by (nonlinear_arith)
                requires
                    0 <= k < n * n,
                    k == n * y + x,
                    0 <= x < n,
            ;
            assert(drawing.squares@[k] == square_at(base, sv, y, x, drawing.cell as int));
        }
    }
    let text = to_svg(&drawing, input.N);
    (0, String::new(), text)
}

/// Whether each of the first `turn` moves of `out` stays on an `n` by `n`
/// board.
pub fn moves_fit(out: &Output, n: usize, turn: usize) -> (r: bool)
    requires
        turn <= out.actions.len(),
    ensures
        r == moves_on_board(out.actions@.take(turn as int), n as int),
{
    let mut t: usize = 0;
    while t < turn
        invariant
            t <= turn <= out.actions.len(),
            moves_on_board(out.actions@.take(t as int), n as int),
        decreases turn - t,
    {
        let a = out.actions[t];
        if a.0.y >= n || a.0.x >= n || a.1.y >= n || a.1.x >= n {
            assert(out.actions@.take(turn as int)[t as int] == a);
            return false;
        }
        assert(out.actions@.take(t + 1) =~= out.actions@.take(t as int).push(a));
        t = t + 1;
    }
    true
}

/// Whether every cell that `base` does not block holds a palette entry in `snap`.
pub fn palette_fits(base: &Vec<Vec<isize>>, snap: &Vec<Vec<isize>>, n: usize) -> (r: bool)
    requires
        is_square(grid_view(base), n as int),
        is_square(grid_view(snap), n as int),
    ensures
        r == palette_ok(grid_view(base), grid_view(snap), n as int),
{
    let ghost bv = grid_view(base);
    let ghost sv = grid_view(snap);
    proof {
        lemma_grid_view(base);
        lemma_grid_view(snap);
    }
    let mut y: usize = 0;
    while y < n
        invariant
            y <= n,
            bv == grid_view(base),
            sv == grid_view(snap),
            is_square(bv, n as int),
            is_square(sv, n as int),
            base.len() == n,
            snap.len() == n,
            forall|i: int| 0 <= i < n ==> #[trigger] base[i]@ == bv[i],
            forall|i: int| 0 <= i < n ==> #[trigger] snap[i]@ == sv[i],
            forall|i: int, x: int| 0 <= i < y && 0 <= x < n && bv[i][x] != -1 ==> 0 <= #[trigger] sv[i][x] <= 6,
        decreases n - y,
    {
        assert(bv[y as int].len() == n && sv[y as int].len() == n);
        let mut x: usize = 0;
        while x < n
            invariant
                x <= n,
                y < n,
                bv == grid_view(base),
                sv == grid_view(snap),
                base.len() == n,
                snap.len() == n,
                base[y as int]@ == bv[y as int],
                snap[y as int]@ == sv[y as int],
                bv[y as int].len() == n,
                sv[y as int].len() == n,
                forall|i: int, j: int| 0 <= i < y && 0 <= j < n && bv[i][j] != -1 ==> 0 <= #[trigger] sv[i][j] <= 6,
                forall|j: int| 0 <= j < x && bv[y as int][j] != -1 ==> 0 <= #[trigger] sv[y as int][j] <= 6,
            decreases n - x,
        {
            if base[y][x] != -1 && (snap[y][x] < 0 || snap[y][x] > 6) {
                return false;
            }
            x = x + 1;
        }
        y = y + 1;
    }
    true
}

/// The moves of a move log text, an empty text being no moves.
fn read_moves(output: &str) -> (r: Option<Output>)
    ensures
        match r {
            Some(o) => {
                &&& o.wf()
                &&& (output.spec_bytes().len() == 0 || output_ok(tokens(output.spec_bytes())))
                &&& o.actions@ == if output.spec_bytes().len() == 0 {
                    Seq::empty()
                } else {
                    moves_of(tokens(output.spec_bytes()))
                }
            },
            None => output.spec_bytes().len() != 0 && !output_ok(tokens(output.spec_bytes())),
        },
{
    if output.as_bytes().len() == 0 {
        let o = Output { L: 0, actions: Vec::new() };
        assert(o.actions@ =~= Seq::empty());
        Some(o)
    } else {
        let ghost to = tokens(output.spec_bytes());
        match parse_output(output) {
            Some(o) => {
                assert forall|i: int| 0 <= i < o.L implies #[trigger] o.actions@[i] == moves_of(to)[i] by {
                    assert(o.actions@[i] == move_at(to, i));
                }
                assert(o.actions@ =~= moves_of(to));
                Some(o)
            },
            None => None,
        }
    }
}

/// The moves of a move log text, an empty text being no moves.
pub open spec fn text_moves(output: Seq<u8>) -> Seq<(Coord, Coord)> {
    if output.len() == 0 {
        Seq::empty()
    } else {
        moves_of(tokens(output))
    }
}

/// The markup drawn for board text `input` after `turn` moves of `output`.
pub open spec fn text_markup(input: Seq<u8>, output: Seq<u8>, turn: int) -> Seq<char> {
    let ti = tokens(input);
    let n = num(ti, 0) as int;
    let g = grid_of(ti);
    let moves = text_moves(output);
    drawing_markup(
        (cell_size(n) * n) as nat,
        squares_of(g, replay(g, moves.take(turn)), n, cell_size(n)),
        segments_of(moves, chain(moves, turn), cell_size(n)),
    )
}

/// A board text, a move log text (an empty one standing for no moves) and a
/// turn that can be drawn: both texts read, the board has a cell, the turn
/// is at most the number of moves, every applied move stays on the board, and the
/// board after `turn` moves holds palette entries wherever it is not blocked.
pub open spec fn drawable(input: Seq<u8>, output: Seq<u8>, turn: int) -> bool {
    let ti = tokens(input);
    let to = tokens(output);
    let n = num(ti, 0) as int;
    let moves = text_moves(output);
    &&& input_ok(ti)
    &&& 0 < n
    &&& (output.len() == 0 || output_ok(to))
    &&& turn <= moves.len()
    &&& moves_on_board(moves.take(turn), n)
    &&& palette_ok(grid_of(ti), replay(grid_of(ti), moves.take(turn)), n)
}

/// Reads a board and a move log and draws the board after `turn` moves, as
/// `vis` does. An empty move log text is read as no moves. `None` where the
/// texts and the turn cannot be drawn.
pub fn vis_text(input: &str, output: &str, turn: usize) -> (r: Option<(i64, String, String)>)
    ensures
        r is Some <==> drawable(input.spec_bytes(), output.spec_bytes(), turn as int),
        match r {
            Some(v) => {
                &&& v.0 == 0
                &&& v.1@ == Seq::<char>::empty()
                &&& v.2@ == text_markup(input.spec_bytes(), output.spec_bytes(), turn as int)
            },
            None => true,
        },
{
    let ghost ti = tokens(input.spec_bytes());
    let ghost to = tokens(output.spec_bytes());
    let inp = match parse_input(input) {
        Some(i) => i,
        None => {
            return None;
        },
    };
    proof {
        lemma_grid_view(&inp.grid);
        let n = inp.N as int;
        assert forall|y: int| 0 <= y < n implies #[trigger] grid_view(&inp.grid)[y] =~= grid_of(ti)[y] by {
            assert(grid_view(&inp.grid)[y] == inp.grid@[y]@);
            assert forall|x: int| 0 <= x < n implies grid_view(&inp.grid)[y][x] == #[trigger] grid_of(ti)[y][x] by {
                assert(inp.grid@[y]@[x] == isize_of(ti[2 + y * n + x]).unwrap());
            }
        }
        assert(grid_view(&inp.grid) =~= grid_of(ti));
    }
    if inp.N == 0 {
        return None;
    }
    let out = match read_moves(output) {
        Some(o) => o,
        None => {
            return None;
        },
    };
    let ghost moves = out.actions@;
    if turn > out.L {
        return None;
    }
    if !moves_fit(&out, inp.N, turn) {
        return None;
    }
    let snap = snapshot(&inp, &out, turn);
    if !palette_fits(&inp.grid, &snap, inp.N) {
        return None;
    }
    Some(vis(&inp, &out, turn))
}

} // verus!
