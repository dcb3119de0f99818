use vstd::prelude::*;

use crate::layouts::{UiFlowDirection, UiFlowPadding, UiJustify};
use crate::units::UiValue;

verus! {

// #===============================#
// #=== TEXT FLOW SIZING CONTROL ===#

/// **Ui Flow Text** - opts a flow text node into flow-aware text sizing. When `wrap` is
/// enabled, the width assigned by the flow engine is fed back into the text bounds each
/// recompute, so the text re-wraps to the width the flow gave it.
#[derive(Default, Clone, Copy, PartialEq, Eq, Debug, Structural)]
pub struct UiFlowText {
    /// Whether the text should wrap to the width assigned by the flow engine.
    pub wrap: bool,
}

impl UiFlowText {
    /// Creates text flow sizing with wrapping enabled.
    pub fn wrapped() -> (r: Self)
        ensures
            r.wrap,
    {
        Self { wrap: true }
    }

    /// Creates text flow sizing with wrapping disabled.
    pub fn unwrapped() -> (r: Self)
        ensures
            !r.wrap,
    {
        Self { wrap: false }
    }
}

// #=====================#
// #=== AXES AND LINES ===#

/// The main axis index of a flow direction: `0` for horizontal, `1` for vertical.
pub open spec fn spec_axis_of(direction: UiFlowDirection) -> usize {
    if direction.spec_is_horizontal() {
        0
    } else {
        1
    }
}

/// Maps a flow direction to its main axis index (`0` = horizontal, `1` = vertical).
pub fn axis_of(direction: UiFlowDirection) -> (axis: usize)
    ensures
        axis == spec_axis_of(direction),
{
    if direction.is_horizontal() {
        0
    } else {
        1
    }
}

/// Picks the two sides of `margin` lying on the given axis: left and right for axis `0`,
/// top and bottom otherwise.
pub fn margin_sides<T>(margin: &UiFlowPadding<T>, axis: usize) -> (sides: (&UiValue<T>, &UiValue<T>))
    ensures
        axis == 0 ==> *sides.0 == margin.left && *sides.1 == margin.right,
        axis != 0 ==> *sides.0 == margin.top && *sides.1 == margin.bottom,
{
    if axis == 0 {
        (&margin.left, &margin.right)
    } else {
        (&margin.top, &margin.bottom)
    }
}

/// The number of tracks per grid line: the defined track count, at least one.
pub open spec fn tracks_per_line(tracks: nat) -> nat {
    if tracks > 1 {
        tracks
    } else {
        1
    }
}

/// A wrapping grid holds as many children per line as it defines tracks, and one per line
/// when it defines none.
pub proof fn lemma_tracks_per_line_is_track_count(tracks: nat)
    ensures
        tracks >= 1 ==> tracks_per_line(tracks) == tracks,
        tracks == 0 ==> tracks_per_line(tracks) == 1,
{
}

/// Every line of a wrapping grid of `n` children that `tracks >= 1` tracks fill
/// completely holds exactly `tracks` consecutive children, starting at child `l * tracks`.
pub proof fn lemma_grid_full_line(n: nat, tracks: nat, l: nat)
    requires
        tracks >= 1,
        (l + 1) * tracks <= n,
        n <= usize::MAX,
    ensures
        grid_line(n, tracks_per_line(tracks), l).len() == tracks,
        forall|k: int| 0 <= k < tracks ==> #[trigger] grid_line(n, tracks_per_line(tracks), l)[k] == l * tracks + k,
{
    assert((l + 1) * tracks == l * tracks + tracks) by (nonlinear_arith);
    let line = grid_line(n, tracks_per_line(tracks), l);
    assert forall|k: int| 0 <= k < tracks implies #[trigger] line[k] == l * tracks + k by {
        assert(line[k] == ((l * tracks) as int + k) as usize);
    }
}

/// Number of lines that `n` children fill with `t` children per line.
pub open spec fn grid_line_count(n: nat, t: nat) -> nat {
    ((n + t - 1) / (t as int)) as nat
}

/// Line `l` of a grid of `n` children with `t` children per line: the child indices
/// `l * t, l * t + 1, ...` up to the line's end or the last child.
pub open spec fn grid_line(n: nat, t: nat, l: nat) -> Seq<usize> {
    let start: int = (l * t) as int;
    let end: int = if start + t <= n {
        start + t
    } else {
        n as int
    };
    Seq::new((end - start) as nat, |k: int| (start + k) as usize)
}

/// All child indices `0..n` in order.
pub open spec fn index_range(n: nat) -> Seq<usize> {
    Seq::new(n, |k: int| k as usize)
}

proof fn lemma_line_count_end(n: nat, t: nat, l: nat)
    requires
        t >= 1,
        l * t >= n,
        l == 0 || (l - 1) * t < n,
    ensures
        l == grid_line_count(n, t),
{
    let c = grid_line_count(n, t);
    if l == 0 {
        assert(n == 0);
        assert(c == (t - 1) / (t as int));
        assert((t - 1) / (t as int) == 0) by (nonlinear_arith)
            requires
                t >= 1,
        ;
    } else {
        assert(n + t - 1 >= l * t && n + t - 1 < (l + 1) * t) by (nonlinear_arith)
            requires
                l * t >= n,
                (l - 1) * t < n,
                t >= 1,
        ;
        assert((n + t - 1) / (t as int) == l) by (nonlinear_arith)
            requires
                n + t - 1 >= l * t,
                n + t - 1 < (l + 1) * t,
                t >= 1,
        ;
    }
}

/// Groups child indices into grid lines of `tracks` items per line (at least one).
/// With `grid_wrap` disabled, all children stay on a single line.
pub fn pack_lines_grid(child_count: usize, tracks: usize, grid_wrap: bool) -> (lines: Vec<
    Vec<usize>,
>)
    ensures
        !grid_wrap ==> lines@.len() == 1 && lines@[0]@ == index_range(child_count as nat),
        grid_wrap ==> lines@.len() == grid_line_count(
            child_count as nat,
            tracks_per_line(tracks as nat),
        ),
        grid_wrap ==> forall|l: int|
            0 <= l < lines@.len() ==> #[trigger] lines@[l]@ == grid_line(
                child_count as nat,
                tracks_per_line(tracks as nat),
                l as nat,
            ),
        grid_wrap ==> forall|l: int|
            0 <= l < lines@.len() - 1 ==> #[trigger] lines@[l]@.len() == if tracks == 0 {
                1
            } else {
                tracks as int
            },
        grid_wrap ==> (lines@.len() == 0) == (child_count == 0),
        grid_wrap && child_count > 0 ==> lines@.last()@.len() > 0 && lines@.last()@.last()
            == child_count - 1,
        grid_wrap ==> forall|l: int, k: int|
            0 <= l < lines@.len() && 0 <= k < lines@[l]@.len() ==> #[trigger] lines@[l]@[k] == l * (
            if tracks == 0 {
                1
            } else {
                tracks as int
            }) + k,
{
    let n = child_count;
    if !grid_wrap {
        let mut all: Vec<usize> = Vec::new();
        let mut k: usize = 0;
        while k < n
            invariant
                k <= n,
                all@ == index_range(k as nat),
            decreases n - k,
        {
            all.push(k);
            k = k + 1;
            proof {
                assert(all@ =~= index_range(k as nat));
            }
        }
        let mut lines: Vec<Vec<usize>> = Vec::new();
        lines.push(all);
        return lines;
    }
    let t: usize = if tracks > 1 {
        tracks
    } else {
        1
    };
    let ghost tn = tracks_per_line(tracks as nat);
    let mut lines: Vec<Vec<usize>> = Vec::new();
    let mut start: usize = 0;
    proof {
        assert(lines@.len() == 0);
        assert(lines@.len() * t == 0) by (nonlinear_arith)
            requires
                lines@.len() == 0,
        ;
    }
    while start < n
        invariant
            t == tn,
            t >= 1,
            start <= n,
            start == if lines@.len() * t <= n {
                lines@.len() * t
            } else {
                n as int
            },
            lines@.len() == 0 || (lines@.len() - 1) * t < n,
            forall|l: int|
                0 <= l < lines@.len() ==> #[trigger] lines@[l]@ == grid_line(n as nat, tn, l as nat),
        decreases n - start,
    {
        let ghost l = lines@.len();
        proof {
            assert(start == l * t);
        }
        let end: usize = if n - start > t {
            start + t
        } else {
            n
        };
        let mut line: Vec<usize> = Vec::new();
        let mut k: usize = start;
        while k < end
            invariant
                start <= k <= end,
                line@ == Seq::new((k - start) as nat, |j: int| (start + j) as usize),
            decreases end - k,
        {
            line.push(k);
            k = k + 1;
            proof {
                assert(line@ =~= Seq::new((k - start) as nat, |j: int| (start + j) as usize));
            }
        }
        proof {
            assert(line@ =~= grid_line(n as nat, tn, l as nat));
        }
        lines.push(line);
        proof {
            assert((l + 1) * t == l * t + t) by (nonlinear_arith);
        }
        start = end;
    }
    proof {
        let c = lines@.len();
        lemma_line_count_end(n as nat, tn, c as nat);
        lemma_tracks_per_line_is_track_count(tracks as nat);
        if c > 0 {
            let l = (c - 1) as nat;
            lemma_grid_line_sizes(n as nat, tracks as nat, l);
            let line = grid_line(n as nat, tn, l);
            assert(lines@.last()@ == line);
            assert(line.last() == ((l * tn) as int + line.len() - 1) as usize);
            assert(n > 0);
        } else {
            assert(n == 0) by {
                if n > 0 {
                    assert(0 * tn < n);
                }
            }
        }
        assert forall|l: int| 0 <= l < lines@.len() - 1 implies #[trigger] lines@[l]@.len() == if tracks
            == 0 {
            1
        } else {
            tracks as int
        } by {
            lemma_grid_line_sizes(n as nat, tracks as nat, l as nat);
        }
        assert forall|l: int, k: int|
            0 <= l < lines@.len() && 0 <= k < lines@[l]@.len() implies #[trigger] lines@[l]@[k] == l
            * (if tracks == 0 {
            1
        } else {
            tracks as int
        }) + k by {
            lemma_grid_line_sizes(n as nat, tracks as nat, l as nat);
            let start: int = ((l as nat) * tn) as int;
            assert(start == l * tn);
            assert(lines@[l]@ == grid_line(n as nat, tn, l as nat));
            assert(start + k < n);
            assert(lines@[l]@[k] == (start + k) as usize);
        }
    }
    lines
}

/// Every child `k < n` of a wrapping grid sits on line `k / t` at track `k % t`, where `t`
/// is the number of tracks per line: children are placed sequentially into the tracks,
/// `t` per line.
pub proof fn lemma_grid_child_placement(n: nat, tracks: nat, k: nat)
    requires
        k < n <= usize::MAX,
    ensures
        ({
            let t = tracks_per_line(tracks);
            let l = k / t;
            &&& l < grid_line_count(n, t)
            &&& k % t < grid_line(n, t, l).len()
            &&& grid_line(n, t, l)[(k % t) as int] == k
        }),
{
    let t = tracks_per_line(tracks);
    let l = k / t;
    let m = k % t;
    assert(k == l * t + m && 0 <= m < t) by (nonlinear_arith)
        requires
            t >= 1,
            l == k / t,
            m == k % t,
    ;
    let c = grid_line_count(n, t);
    assert(l < c) by (nonlinear_arith)
        requires
            c == (n + t - 1) / (t as int),
            k == l * t + m,
            0 <= m < t,
            k < n,
            t >= 1,
    ;
    let line = grid_line(n, t, l);
    let start: int = (l * t) as int;
    assert(m < line.len());
    assert(line[m as int] == (start + m) as usize);
}

/// Every line of a wrapping grid holds between one and `t` children, and every line but
/// the last is full.
pub proof fn lemma_grid_line_sizes(n: nat, tracks: nat, l: nat)
    requires
        l < grid_line_count(n, tracks_per_line(tracks)),
    ensures
        ({
            let t = tracks_per_line(tracks);
            &&& 1 <= grid_line(n, t, l).len() <= t
            &&& l + 1 < grid_line_count(n, t) ==> grid_line(n, t, l).len() == t
            &&& l * t + grid_line(n, t, l).len() <= n
            &&& l + 1 == grid_line_count(n, t) ==> l * t + grid_line(n, t, l).len() == n
        }),
{
    let t = tracks_per_line(tracks);
    let c = grid_line_count(n, t);
    assert(l * t < n) by (nonlinear_arith)
        requires
            l < c,
            c == (n + t - 1) / (t as int),
            t >= 1,
    ;
    if l + 1 < c {
        assert((l + 1) * t + t <= n + t - 1 + 1) by (nonlinear_arith)
            requires
                l + 2 <= c,
                c == (n + t - 1) / (t as int),
                t >= 1,
        ;
        assert(l * t + t <= n) by (nonlinear_arith)
            requires
                (l + 1) * t + t <= n + t,
                t >= 1,
        ;
    }
    if l + 1 == c {
        assert(c * t >= n) by (nonlinear_arith)
            requires
                c == (n + t - 1) / (t as int),
                t >= 1,
        ;
        assert(l * t + t >= n) by (nonlinear_arith)
            requires
                c * t >= n,
                l + 1 == c,
        ;
    }
}

// #==========================#
// #=== JUSTIFY TEMPLATES ===#

/// The main-axis margin template of `justify` for one child: the `Sp` weights
/// `(start, end)` injected on the child's start and end side along the main axis.
pub open spec fn spec_justify_template(justify: UiJustify, is_first: bool, is_last: bool) -> (u32, u32) {
    match justify {
        UiJustify::Start => (0, 0),
        UiJustify::Center => (if is_first { 1 } else { 0 }, if is_last { 1 } else { 0 }),
        UiJustify::End => (if is_first { 1 } else { 0 }, 0),
        UiJustify::SpaceBetween => (if is_first { 0 } else { 1 }, 0),
        UiJustify::SpaceEvenly => (1, if is_last { 1 } else { 0 }),
        UiJustify::SpaceAround => (1, 1),
    }
}

/// Main-axis margin template from `justify`: the `Sp` weights `(start, end)` that a child
/// inherits on its start and end side, given whether it is the first and the last child.
pub fn justify_template(justify: UiJustify, is_first: bool, is_last: bool) -> (w: (u32, u32))
    ensures
        w == spec_justify_template(justify, is_first, is_last),
{
    match justify {
        UiJustify::Start => (0, 0),
        UiJustify::Center => (if is_first { 1 } else { 0 }, if is_last { 1 } else { 0 }),
        UiJustify::End => (if is_first { 1 } else { 0 }, 0),
        UiJustify::SpaceBetween => (if is_first { 0 } else { 1 }, 0),
        UiJustify::SpaceEvenly => (1, if is_last { 1 } else { 0 }),
        UiJustify::SpaceAround => (1, 1),
    }
}

/// The templates that each child inherits: `Start` injects nothing; `Center` gives the
/// first child a start claim and the last child an end claim; `End` gives the first child a
/// start claim; `SpaceBetween` gives every child but the first a start claim; `SpaceEvenly`
/// gives every child a start claim and the last child an end claim; `SpaceAround` gives
/// every child both claims. Every claim is one share.
pub proof fn lemma_justify_template_claims(is_first: bool, is_last: bool)
    ensures
        spec_justify_template(UiJustify::Start, is_first, is_last) == (0u32, 0u32),
        spec_justify_template(UiJustify::Center, is_first, is_last).0 == (if is_first { 1u32 } else { 0u32 }),
        spec_justify_template(UiJustify::Center, is_first, is_last).1 == (if is_last { 1u32 } else { 0u32 }),
        spec_justify_template(UiJustify::End, is_first, is_last) == (if is_first { 1u32 } else { 0u32 }, 0u32),
        spec_justify_template(UiJustify::SpaceBetween, is_first, is_last) == (if is_first { 0u32 } else { 1u32 }, 0u32),
        spec_justify_template(UiJustify::SpaceEvenly, is_first, is_last) == (1u32, if is_last { 1u32 } else { 0u32 }),
        spec_justify_template(UiJustify::SpaceAround, is_first, is_last) == (1u32, 1u32),
{
}

/// The template of child `k` among `n` children in a line.
pub open spec fn child_template(justify: UiJustify, n: nat, k: int) -> (u32, u32) {
    spec_justify_template(justify, k == 0, k == n - 1)
}

/// The total `Sp` weight injected into slot `s` of a line of `n` children: slot `0` lies
/// before the first child, slot `n` after the last, and slot `s` in between children
/// `s - 1` and `s`.
pub open spec fn justify_slot_weight(justify: UiJustify, n: nat, s: int) -> int {
    if s == 0 {
        child_template(justify, n, 0).0 as int
    } else if s == n {
        child_template(justify, n, n - 1).1 as int
    } else {
        child_template(justify, n, s - 1).1 + child_template(justify, n, s).0
    }
}

/// The leftover space of a line goes where each justify mode promises: `Start` leaves it
/// after the block, `Center` splits it evenly on both sides, `End` puts it before the
/// block, `SpaceBetween` pins the edges and shares it equally between children,
/// `SpaceEvenly` shares it equally before, between and after the children, and
/// `SpaceAround` gives every gap between children twice the share of each edge.
pub proof fn lemma_justify_slot_weights(justify: UiJustify, n: nat, s: int)
    requires
        n >= 1,
        0 <= s <= n,
    ensures
        justify_slot_weight(justify, n, s) == match justify {
            UiJustify::Start => 0int,
            UiJustify::Center => if s == 0 || s == n { 1 } else { 0 },
            UiJustify::End => if s == 0 { 1 } else { 0 },
            UiJustify::SpaceBetween => if s == 0 || s == n { 0 } else { 1 },
            UiJustify::SpaceEvenly => 1,
            UiJustify::SpaceAround => if s == 0 || s == n { 1 } else { 2 },
        },
{
}

// #=========================#
// #=== MARGIN INJECTION ===#

/// One margin side after template injection: the node's own side when it carries any
/// unit, otherwise an `Sp` claim of the template weight when there is one, otherwise
/// the (unset) own side.
pub open spec fn spec_inject_side<T>(side: UiValue<T>, weight: Option<T>) -> UiValue<T> {
    if side == UiValue::<T>::unset() && weight is Some {
        UiValue { sp: weight, ..UiValue::<T>::unset() }
    } else {
        side
    }
}

fn inject_side<T: Copy>(side: &UiValue<T>, weight: Option<T>) -> (r: UiValue<T>)
    ensures
        r == spec_inject_side(*side, weight),
{
    if side.is_unset() && weight.is_some() {
        let mut v = UiValue::new();
        v.sp = weight;
        v
    } else {
        *side
    }
}

/// Fills the undefined sides of a child's own margins with the parent's margin template.
/// `main` holds the template weights `(start, end)` along the parent's main axis and `cross`
/// those along its cross axis; `None` stands for no template on that side. The main axis is
/// horizontal (left, right) when `horizontal` holds, vertical (top, bottom) otherwise.
pub fn inject_margins<T: Copy>(
    own: &UiFlowPadding<T>,
    horizontal: bool,
    main: (Option<T>, Option<T>),
    cross: (Option<T>, Option<T>),
) -> (r: UiFlowPadding<T>)
    ensures
        r.left == spec_inject_side(own.left, if horizontal { main.0 } else { cross.0 }),
        r.right == spec_inject_side(own.right, if horizontal { main.1 } else { cross.1 }),
        r.top == spec_inject_side(own.top, if horizontal { cross.0 } else { main.0 }),
        r.bottom == spec_inject_side(own.bottom, if horizontal { cross.1 } else { main.1 }),
{
    let ((l, r), (t, b)) = if horizontal {
        (main, cross)
    } else {
        (cross, main)
    };
    UiFlowPadding {
        left: inject_side(&own.left, l),
        right: inject_side(&own.right, r),
        top: inject_side(&own.top, t),
        bottom: inject_side(&own.bottom, b),
    }
}

/// An injected side is a pure `Sp` claim of the template weight: when the node leaves a
/// side undefined and the template has a weight for it, the side carries that weight as its
/// `Sp` component and no other unit.
pub proof fn lemma_injected_side_is_pure_sp<T>(side: UiValue<T>, weight: Option<T>)
    requires
        side.ab is None && side.rl is None && side.rw is None && side.rh is None && side.em is None
            && side.vp is None && side.vw is None && side.vh is None && side.sp is None,
        weight is Some,
    ensures
        spec_inject_side(side, weight) == (UiValue::<T> {
            ab: None,
            rl: None,
            rw: None,
            rh: None,
            em: None,
            vp: None,
            vw: None,
            vh: None,
            sp: weight,
        }),
{
}

/// The margin template only fills undefined sides: a side that the node defines itself
/// keeps its own value, and an undefined side without a template weight stays undefined.
pub proof fn lemma_own_side_wins<T>(side: UiValue<T>, weight: Option<T>)
    ensures
        side != UiValue::<T>::unset() ==> spec_inject_side(side, weight) == side,
        weight is None ==> spec_inject_side(side, weight) == side,
        side == UiValue::<T>::unset() && weight is Some ==> spec_inject_side(side, weight).sp
            == weight,
{
}

} // verus!
