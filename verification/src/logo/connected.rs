//! Connected components of the set pixels of a mask. A pixel is connected to the eight pixels
//! around it.

use crate::logo::dilate;
use vstd::prelude::*;

verus! {

/// Two pixels of a picture `w` wide are the same or touch, be it at a corner.
pub open spec fn touching(i: int, j: int, w: int) -> bool {
    &&& -1 <= i % w - j % w <= 1
    &&& -1 <= i / w - j / w <= 1
}

/// `path` leads from pixel to touching pixel, over set pixels only.
pub open spec fn is_path(mask: Seq<bool>, w: int, path: Seq<int>) -> bool {
    &&& path.len() > 0
    &&& forall|k: int| 0 <= k < path.len() ==> 0 <= #[trigger] path[k] < mask.len()
    &&& forall|k: int| 0 <= k < path.len() ==> mask[#[trigger] path[k]]
    &&& forall|k: int, l: int|
        0 <= k && l == k + 1 && l < path.len() ==> touching(
            #[trigger] path[k],
            #[trigger] path[l],
            w,
        )
}

/// A path over set pixels leads from `i` to `j`.
pub open spec fn connected(mask: Seq<bool>, w: int, i: int, j: int) -> bool {
    exists|path: Seq<int>| #[trigger]
        is_path(mask, w, path) && path[0] == i && path.last() == j
}

/// `p` is the first pixel of its component.
pub open spec fn is_first(mask: Seq<bool>, w: int, p: int) -> bool {
    &&& mask[p]
    &&& forall|q: int| 0 <= q < p && mask[q] ==> !#[trigger] connected(mask, w, q, p)
}

/// The first pixels of all components that start below `n`, in ascending order.
pub open spec fn firsts(mask: Seq<bool>, w: int, n: int) -> Seq<int>
    decreases n,
{
    if n <= 0 {
        Seq::empty()
    } else if is_first(mask, w, n - 1) {
        firsts(mask, w, n - 1).push(n - 1)
    } else {
        firsts(mask, w, n - 1)
    }
}

/// The pixels below `n` that are connected to `p`, in ascending order.
pub open spec fn component(mask: Seq<bool>, w: int, p: int, n: int) -> Seq<usize>
    decreases n,
{
    if n <= 0 {
        Seq::empty()
    } else if mask[n - 1] && connected(mask, w, p, n - 1) {
        component(mask, w, p, n - 1).push((n - 1) as usize)
    } else {
        component(mask, w, p, n - 1)
    }
}

/// A set pixel is connected to itself.
pub proof fn lemma_connected_to_itself(mask: Seq<bool>, w: int, i: int)
    requires
        0 <= i < mask.len(),
        mask[i],
    ensures
        connected(mask, w, i, i),
{
    let path = seq![i];
    assert(is_path(mask, w, path));
    assert(path.last() == i);
}

/// A connection reaches on to every touching set pixel.
pub proof fn lemma_connected_step(mask: Seq<bool>, w: int, i: int, j: int, k: int)
    requires
        connected(mask, w, i, j),
        0 <= k < mask.len(),
        mask[k],
        touching(j, k, w),
    ensures
        connected(mask, w, i, k),
{
    let path = choose|path: Seq<int>| #[trigger]
        is_path(mask, w, path) && path[0] == i && path.last() == j;
    let longer = path.push(k);
    assert forall|a: int, b: int| 0 <= a && b == a + 1 && b < longer.len() implies touching(
        #[trigger] longer[a],
        #[trigger] longer[b],
        w,
    ) by {
        if b < path.len() {
            assert(touching(path[a], path[b], w));
        } else {
            assert(longer[a] == path.last());
        }
    }
    assert(is_path(mask, w, longer));
    assert(longer[0] == i && longer.last() == k);
}

/// Connections have no direction.
pub proof fn lemma_connected_symmetric(mask: Seq<bool>, w: int, i: int, j: int)
    requires
        connected(mask, w, i, j),
    ensures
        connected(mask, w, j, i),
{
    let path = choose|path: Seq<int>| #[trigger]
        is_path(mask, w, path) && path[0] == i && path.last() == j;
    let n = path.len() as int;
    let back = path.reverse();
    assert forall|a: int, b: int| 0 <= a && b == a + 1 && b < back.len() implies touching(
        #[trigger] back[a],
        #[trigger] back[b],
        w,
    ) by {
        let c = n - 1 - b;
        let d = n - 1 - a;
        assert(touching(path[c], path[d], w));
    }
    assert(is_path(mask, w, back));
    assert(back[0] == j && back.last() == i);
}

/// Connections of connections are connections.
pub proof fn lemma_connected_transitive(mask: Seq<bool>, w: int, i: int, j: int, k: int)
    requires
        connected(mask, w, i, j),
        connected(mask, w, j, k),
    ensures
        connected(mask, w, i, k),
{
    let p = choose|path: Seq<int>| #[trigger]
        is_path(mask, w, path) && path[0] == i && path.last() == j;
    let q = choose|path: Seq<int>| #[trigger]
        is_path(mask, w, path) && path[0] == j && path.last() == k;
    let all = p + q;
    assert forall|a: int, b: int| 0 <= a && b == a + 1 && b < all.len() implies touching(
        #[trigger] all[a],
        #[trigger] all[b],
        w,
    ) by {
        if b < p.len() {
            assert(touching(p[a], p[b], w));
        } else if a >= p.len() {
            let c = a - p.len();
            let d = b - p.len();
            assert(touching(q[c], q[d], w));
        } else {
            assert(all[a] == p.last() && all[b] == q[0]);
        }
    }
    assert(is_path(mask, w, all));
    assert(all[0] == i && all.last() == k);
}

/// Connected pixels are set.
pub proof fn lemma_connected_is_set(mask: Seq<bool>, w: int, i: int, j: int)
    requires
        connected(mask, w, i, j),
    ensures
        0 <= i < mask.len(),
        0 <= j < mask.len(),
        mask[i],
        mask[j],
{
    let path = choose|path: Seq<int>| #[trigger]
        is_path(mask, w, path) && path[0] == i && path.last() == j;
    let n = path.len() - 1;
    assert(mask[path[0]]);
    assert(mask[path[n]]);
}

/// What has a mark, and whose touching set pixels have the same mark, gives its mark to all that
/// is connected to it.
proof fn lemma_marks_spread<T>(mask: Seq<bool>, w: int, marks: Seq<T>, i: int, j: int)
    requires
        marks.len() == mask.len(),
        forall|a: int, b: int|
            0 <= a < mask.len() && 0 <= b < mask.len() && #[trigger] mask[a] && #[trigger] mask[b]
                && marks[a] == marks[i] && touching(a, b, w) ==> marks[b] == marks[i],
        connected(mask, w, i, j),
    ensures
        marks[j] == marks[i],
{
    let path = choose|path: Seq<int>| #[trigger]
        is_path(mask, w, path) && path[0] == i && path.last() == j;
    lemma_marks_spread_along(mask, w, marks, i, path, path.len() - 1);
}

proof fn lemma_marks_spread_along<T>(
    mask: Seq<bool>,
    w: int,
    marks: Seq<T>,
    i: int,
    path: Seq<int>,
    n: int,
)
    requires
        marks.len() == mask.len(),
        forall|a: int, b: int|
            0 <= a < mask.len() && 0 <= b < mask.len() && #[trigger] mask[a] && #[trigger] mask[b]
                && marks[a] == marks[i] && touching(a, b, w) ==> marks[b] == marks[i],
        is_path(mask, w, path),
        path[0] == i,
        0 <= n < path.len(),
    ensures
        marks[path[n]] == marks[i],
    decreases n,
{
    if n > 0 {
        let m = n - 1;
        lemma_marks_spread_along(mask, w, marks, i, path, m);
        assert(touching(path[m], path[n], w));
        assert(mask[path[m]]);
        assert(mask[path[n]]);
    }
}

/// How many of the first `n` pixels have no label.
spec fn unlabelled(labels: Seq<Option<usize>>, n: int) -> int
    decreases n,
{
    if n <= 0 {
        0
    } else {
        unlabelled(labels, n - 1) + (if labels[n - 1] is None {
            1int
        } else {
            0
        })
    }
}

proof fn lemma_unlabelled_bound(labels: Seq<Option<usize>>, n: int)
    requires
        0 <= n,
    ensures
        0 <= unlabelled(labels, n) <= n,
    decreases n,
{
    if n > 0 {
        lemma_unlabelled_bound(labels, n - 1);
    }
}

proof fn lemma_label_one(labels: Seq<Option<usize>>, n: int, i: int, label: usize)
    requires
        0 <= n <= labels.len(),
        0 <= i < labels.len(),
        labels[i] is None,
    ensures
        unlabelled(labels.update(i, Some(label)), n) == unlabelled(labels, n) - (if i < n {
            1int
        } else {
            0
        }),
    decreases n,
{
    if n > 0 {
        lemma_label_one(labels, n - 1, i, label);
    }
}

/// All set pixels that touch pixel `i` have a label.
spec fn is_expanded(mask: Seq<bool>, labels: Seq<Option<usize>>, w: int, i: int) -> bool {
    forall|j: int| 0 <= j < mask.len() && #[trigger] mask[j] && touching(i, j, w) ==> labels[j] is Some
}

/// The state of the labels while the component of `start` gets its label.
spec fn is_filling(
    mask: Seq<bool>,
    w: int,
    before: Seq<Option<usize>>,
    labels: Seq<Option<usize>>,
    start: int,
    label: usize,
) -> bool {
    &&& labels.len() == mask.len()
    &&& labels[start] == Some(label)
    &&& forall|i: int| 0 <= i < mask.len() && before[i] is Some ==> #[trigger] labels[i] == before[i]
    &&& forall|i: int|
        0 <= i < mask.len() && before[i] is None && #[trigger] labels[i] is Some ==> {
            &&& labels[i] == Some(label)
            &&& mask[i]
            &&& connected(mask, w, start, i)
        }
}

/// All pixels with the new label are expanded, but for those on the stack and for `but`.
spec fn others_expanded(
    mask: Seq<bool>,
    w: int,
    labels: Seq<Option<usize>>,
    label: usize,
    stack: Seq<usize>,
    but: int,
) -> bool {
    forall|i: int|
        0 <= i < mask.len() && #[trigger] labels[i] == Some(label) && i != but && !stack.contains(
            i as usize,
        ) ==> is_expanded(mask, labels, w, i)
}

fn visit(
    mask: &[bool],
    labels: &mut Vec<Option<usize>>,
    stack: &mut Vec<usize>,
    at: usize,
    label: usize,
    Ghost(w): Ghost<int>,
    Ghost(before): Ghost<Seq<Option<usize>>>,
    Ghost(start): Ghost<int>,
    Ghost(from): Ghost<int>,
)
    requires
        before.len() == mask@.len(),
        0 <= start < mask@.len(),
        0 <= from < mask@.len(),
        0 <= at < mask@.len(),
        is_filling(mask@, w, before, old(labels)@, start, label),
        forall|i: int| 0 <= i < before.len() && before[i] is Some ==> #[trigger] before[i] != Some(
            label,
        ),
        old(labels)@[from] == Some(label),
        touching(from, at as int, w),
        others_expanded(mask@, w, old(labels)@, label, old(stack)@, from),
        forall|k: int| 0 <= k < old(stack)@.len() ==> 0 <= #[trigger] old(stack)@[k] < mask@.len(),
        forall|k: int|
            0 <= k < old(stack)@.len() ==> old(labels)@[#[trigger] old(stack)@[k] as int] == Some(
                label,
            ),
    ensures
        is_filling(mask@, w, before, final(labels)@, start, label),
        final(labels)@[from] == Some(label),
        others_expanded(mask@, w, final(labels)@, label, final(stack)@, from),
        forall|k: int|
            0 <= k < final(stack)@.len() ==> 0 <= #[trigger] final(stack)@[k] < mask@.len(),
        forall|k: int|
            0 <= k < final(stack)@.len() ==> final(labels)@[#[trigger] final(stack)@[k] as int]
                == Some(label),
        mask@[at as int] ==> final(labels)@[at as int] is Some,
        forall|i: int|
            0 <= i < mask@.len() && old(labels)@[i] is Some ==> #[trigger] final(labels)@[i]
                is Some,
        2 * unlabelled(final(labels)@, mask@.len() as int) + final(stack)@.len() <= 2 * unlabelled(
            old(labels)@,
            mask@.len() as int,
        ) + old(stack)@.len(),
{
    if mask[at] && labels[at].is_none() {
        let ghost old_labels = labels@;
        let ghost old_stack = stack@;
        proof {
            assert(before[at as int] is None);
            assert(connected(mask@, w, start, from)) by {
                if before[from] is Some {
                    assert(labels@[from] == before[from]);
                }
            }
            lemma_connected_step(mask@, w, start, from, at as int);
            lemma_label_one(labels@, mask@.len() as int, at as int, label);
        }
        labels.set(at, Some(label));
        stack.push(at);
        proof {
            assert(stack@[stack@.len() - 1] == at);
            assert forall|i: int|
                0 <= i < mask@.len() && #[trigger] labels@[i] == Some(label) && i != from
                    && !stack@.contains(i as usize) implies is_expanded(mask@, labels@, w, i) by {
                if i == at {
                    assert(stack@[old_stack.len() as int] == at);
                    assert(stack@.contains(at));
                } else {
                    assert(old_labels[i] == Some(label));
                    if old_stack.contains(i as usize) {
                        let k = choose|k: int| 0 <= k < old_stack.len() && old_stack[k] == i as usize;
                        assert(stack@[k] == i as usize);
                    }
                    assert(is_expanded(mask@, old_labels, w, i));
                }
            }
            assert forall|k: int| 0 <= k < stack@.len() implies labels@[#[trigger] stack@[k] as int]
                == Some(label) by {
                if k < old_stack.len() {
                    assert(old_labels[old_stack[k] as int] == Some(label));
                }
            }
        }
    }
}

/// The pixels of columns `lo_x..hi_x` and rows `lo_y..hi_y` that are set have labels.
spec fn labelled_within(
    mask: Seq<bool>,
    labels: Seq<Option<usize>>,
    w: int,
    lo_x: int,
    hi_x: int,
    lo_y: int,
    hi_y: int,
) -> bool {
    forall|x: int, y: int|
        lo_x <= x < hi_x && lo_y <= y < hi_y && mask[#[trigger] dilate::at(x, y, w)]
            ==> labels[dilate::at(x, y, w)] is Some
}

/// What a fill keeps while it goes on.
spec fn fill_goes_on(
    mask: Seq<bool>,
    w: int,
    before: Seq<Option<usize>>,
    labels: Seq<Option<usize>>,
    start: int,
    label: usize,
    stack: Seq<usize>,
    but: int,
) -> bool {
    &&& is_filling(mask, w, before, labels, start, label)
    &&& others_expanded(mask, w, labels, label, stack, but)
    &&& forall|k: int| 0 <= k < stack.len() ==> 0 <= #[trigger] stack[k] < mask.len()
    &&& forall|k: int|
        0 <= k < stack.len() ==> labels[#[trigger] stack[k] as int] == Some(label)
}

fn expand(
    w: usize,
    h: usize,
    mask: &[bool],
    labels: &mut Vec<Option<usize>>,
    stack: &mut Vec<usize>,
    from: usize,
    label: usize,
    Ghost(before): Ghost<Seq<Option<usize>>>,
    Ghost(start): Ghost<int>,
)
    requires
        mask@.len() == w * h,
        w > 0,
        before.len() == mask@.len(),
        0 <= start < mask@.len(),
        0 <= from < mask@.len(),
        fill_goes_on(
            mask@,
            w as int,
            before,
            old(labels)@,
            start,
            label,
            old(stack)@,
            from as int,
        ),
        forall|i: int| 0 <= i < before.len() && before[i] is Some ==> #[trigger] before[i] != Some(
            label,
        ),
        old(labels)@[from as int] == Some(label),
    ensures
        fill_goes_on(mask@, w as int, before, final(labels)@, start, label, final(stack)@, -1),
        2 * unlabelled(final(labels)@, mask@.len() as int) + final(stack)@.len() <= 2 * unlabelled(
            old(labels)@,
            mask@.len() as int,
        ) + old(stack)@.len(),
{
    let ghost n = mask@.len() as int;
    let ghost wi = w as int;
    let x: usize = from % w;
    let y: usize = from / w;
    proof {
        dilate::lemma_at_of(from as int, wi, h as int);
    }
    let lo_x: usize = if x > 0 {
        x - 1
    } else {
        0
    };
    let hi_x: usize = if w - x > 1 {
        x + 2
    } else {
        w
    };
    let lo_y: usize = if y > 0 {
        y - 1
    } else {
        0
    };
    let hi_y: usize = if h - y > 1 {
        y + 2
    } else {
        h
    };
    let available: usize = mask.len();
    let mut ny: usize = lo_y;
    while ny < hi_y
        invariant
            available == mask@.len() == w * h == n,
            wi == w,
            w > 0,
            x == from as int % wi,
            y == from as int / wi,
            x < w,
            y < h,
            lo_x <= x < hi_x <= w,
            hi_x <= x + 2,
            x <= lo_x + 1,
            lo_y <= y < hi_y <= h,
            hi_y <= y + 2,
            y <= lo_y + 1,
            lo_y <= ny <= hi_y,
            before.len() == mask@.len(),
            0 <= start < mask@.len(),
            0 <= from < mask@.len(),
            fill_goes_on(mask@, wi, before, labels@, start, label, stack@, from as int),
            forall|i: int|
                0 <= i < before.len() && before[i] is Some ==> #[trigger] before[i] != Some(label),
            labels@[from as int] == Some(label),
            labelled_within(
                mask@,
                labels@,
                wi,
                lo_x as int,
                hi_x as int,
                lo_y as int,
                ny as int,
            ),
            2 * unlabelled(labels@, n) + stack@.len() <= 2 * unlabelled(old(labels)@, n) + old(
                stack,
            )@.len(),
        decreases hi_y - ny,
    {
        let mut nx: usize = lo_x;
        while nx < hi_x
            invariant
                available == mask@.len() == w * h == n,
                wi == w,
                w > 0,
                x == from as int % wi,
                y == from as int / wi,
                lo_x <= x < hi_x <= w,
                hi_x <= x + 2,
                x <= lo_x + 1,
                lo_y <= ny < hi_y <= h,
                hi_y <= y + 2,
                y <= lo_y + 1,
                lo_x <= nx <= hi_x,
                before.len() == mask@.len(),
                0 <= start < mask@.len(),
                0 <= from < mask@.len(),
                fill_goes_on(mask@, wi, before, labels@, start, label, stack@, from as int),
                forall|i: int|
                    0 <= i < before.len() && before[i] is Some ==> #[trigger] before[i] != Some(
                        label,
                    ),
                labels@[from as int] == Some(label),
                labelled_within(
                    mask@,
                    labels@,
                    wi,
                    lo_x as int,
                    hi_x as int,
                    lo_y as int,
                    ny as int,
                ),
                labelled_within(
                    mask@,
                    labels@,
                    wi,
                    lo_x as int,
                    nx as int,
                    ny as int,
                    ny + 1,
                ),
                2 * unlabelled(labels@, n) + stack@.len() <= 2 * unlabelled(old(labels)@, n) + old(
                    stack,
                )@.len(),
            decreases hi_x - nx,
        {
            proof {
                dilate::lemma_at(nx as int, ny as int, wi, h as int);
                assert(0 <= ny * w) by (nonlinear_arith)
                    requires
                        0 <= ny,
                        0 <= w,
                ;
            }
            let ghost old_labels = labels@;
            visit(
                mask,
                labels,
                stack,
                ny * w + nx,
                label,
                Ghost(wi),
                Ghost(before),
                Ghost(start),
                Ghost(from as int),
            );
            proof {
                assert forall|xx: int, yy: int|
                    lo_x <= xx < hi_x && lo_y <= yy < ny && mask@[#[trigger] dilate::at(xx, yy, wi)] implies labels@[dilate::at(
                    xx,
                    yy,
                    wi,
                )] is Some by {
                    dilate::lemma_at(xx, yy, wi, h as int);
                    assert(old_labels[dilate::at(xx, yy, wi)] is Some);
                }
                assert forall|xx: int, yy: int|
                    lo_x <= xx < nx + 1 && ny <= yy < ny + 1 && mask@[#[trigger] dilate::at(
                        xx,
                        yy,
                        wi,
                    )] implies labels@[dilate::at(xx, yy, wi)] is Some by {
                    dilate::lemma_at(xx, yy, wi, h as int);
                    if xx < nx {
                        assert(old_labels[dilate::at(xx, yy, wi)] is Some);
                    }
                }
            }
            nx += 1;
        }
        assert(labelled_within(
            mask@,
            labels@,
            wi,
            lo_x as int,
            hi_x as int,
            lo_y as int,
            ny + 1,
        )) by {
            assert forall|xx: int, yy: int|
                lo_x <= xx < hi_x && lo_y <= yy < ny + 1 && mask@[#[trigger] dilate::at(xx, yy, wi)] implies labels@[dilate::at(
                xx,
                yy,
                wi,
            )] is Some by {}
        }
        ny += 1;
    }
    proof {
        assert(is_expanded(mask@, labels@, wi, from as int)) by {
            assert forall|j: int|
                0 <= j < mask@.len() && #[trigger] mask@[j] && touching(
                    from as int,
                    j,
                    wi,
                ) implies labels@[j] is Some by {
                dilate::lemma_at_of(j, wi, h as int);
                let xx = j % wi;
                let yy = j / wi;
                assert(mask@[dilate::at(xx, yy, wi)]);
            }
        }
        assert forall|i: int|
            0 <= i < mask@.len() && #[trigger] labels@[i] == Some(label) && i != -1
                && !stack@.contains(i as usize) implies is_expanded(mask@, labels@, wi, i) by {}
    }
}

/// Gives `label` to all pixels that are connected to `start`.
fn fill(
    w: usize,
    h: usize,
    mask: &[bool],
    labels: &mut Vec<Option<usize>>,
    start: usize,
    label: usize,
)
    requires
        mask@.len() == w * h,
        w > 0,
        old(labels)@.len() == mask@.len(),
        start < mask@.len(),
        mask@[start as int],
        old(labels)@[start as int] is None,
        forall|i: int|
            0 <= i < mask@.len() && old(labels)@[i] is Some ==> #[trigger] old(labels)@[i] != Some(
                label,
            ),
    ensures
        is_filling(mask@, w as int, old(labels)@, final(labels)@, start as int, label),
        forall|i: int|
            0 <= i < mask@.len() && #[trigger] final(labels)@[i] == Some(label) ==> is_expanded(
                mask@,
                final(labels)@,
                w as int,
                i,
            ),
{
    let ghost before = labels@;
    let available: usize = mask.len();
    let ghost n = mask@.len() as int;
    let mut stack: Vec<usize> = Vec::new();
    proof {
        lemma_connected_to_itself(mask@, w as int, start as int);
    }
    labels.set(start, Some(label));
    stack.push(start);
    proof {
        assert(stack@[0] == start);
        assert(fill_goes_on(mask@, w as int, before, labels@, start as int, label, stack@, -1));
    }
    while stack.len() > 0
        invariant
            available == mask@.len() == w * h == n,
            w > 0,
            before.len() == mask@.len(),
            start < mask@.len(),
            fill_goes_on(mask@, w as int, before, labels@, start as int, label, stack@, -1),
            forall|i: int|
                0 <= i < before.len() && before[i] is Some ==> #[trigger] before[i] != Some(label),
        decreases 2 * unlabelled(labels@, n) + stack@.len(),
    {
        let from: usize = stack[stack.len() - 1];
        let ghost old_stack = stack@;
        stack.pop();
        proof {
            assert(labels@[old_stack[old_stack.len() - 1] as int] == Some(label));
            assert forall|k: int| 0 <= k < stack@.len() implies {
                &&& 0 <= #[trigger] stack@[k] < mask@.len()
                &&& labels@[stack@[k] as int] == Some(label)
            } by {
                assert(stack@[k] == old_stack[k]);
            }
            assert forall|i: int|
                0 <= i < mask@.len() && #[trigger] labels@[i] == Some(label) && i != from
                    && !stack@.contains(i as usize) implies is_expanded(
                mask@,
                labels@,
                w as int,
                i,
            ) by {
                if old_stack.contains(i as usize) {
                    let k = choose|k: int| 0 <= k < old_stack.len() && old_stack[k] == i as usize;
                    assert(k < stack@.len());
                    assert(stack@[k] == i as usize);
                }
            }
        }
        expand(w, h, mask, labels, &mut stack, from, label, Ghost(before), Ghost(start as int));
        proof {
            lemma_unlabelled_bound(labels@, n);
        }
    }
}

/// `labels` numbers the components of a mask in the order of their first pixels, and gives each
/// set pixel the number of its component.
pub open spec fn is_labelling(mask: Seq<bool>, w: int, labels: Seq<Option<usize>>) -> bool {
    let all = firsts(mask, w, mask.len() as int);
    &&& labels.len() == mask.len()
    &&& forall|i: int| 0 <= i < mask.len() ==> (#[trigger] labels[i] is Some <==> mask[i])
    &&& forall|i: int|
        0 <= i < mask.len() && (#[trigger] labels[i] is Some) ==> {
            &&& labels[i]->0 < all.len()
            &&& connected(mask, w, all[labels[i]->0 as int], i)
        }
}

/// Touching set pixels have the same label, as far as there are labels.
spec fn is_closed(mask: Seq<bool>, w: int, labels: Seq<Option<usize>>) -> bool {
    forall|i: int, j: int|
        0 <= i < mask.len() && 0 <= j < mask.len() && #[trigger] mask[i] && #[trigger] mask[j]
            && labels[i] is Some && touching(i, j, w) ==> labels[j] == labels[i]
}

proof fn lemma_touching_symmetric(i: int, j: int, w: int)
    ensures
        touching(i, j, w) == touching(j, i, w),
{
}

/// A completed fill leaves touching pixels with the same label.
proof fn lemma_fill_closes(
    mask: Seq<bool>,
    w: int,
    before: Seq<Option<usize>>,
    labels: Seq<Option<usize>>,
    start: int,
    label: usize,
)
    requires
        before.len() == mask.len(),
        is_filling(mask, w, before, labels, start, label),
        is_closed(mask, w, before),
        forall|i: int| 0 <= i < mask.len() && before[i] is Some ==> #[trigger] before[i] != Some(
            label,
        ),
        forall|i: int|
            0 <= i < mask.len() && #[trigger] labels[i] == Some(label) ==> is_expanded(
                mask,
                labels,
                w,
                i,
            ),
    ensures
        is_closed(mask, w, labels),
{
    assert forall|i: int, j: int|
        0 <= i < mask.len() && 0 <= j < mask.len() && #[trigger] mask[i] && #[trigger] mask[j]
            && labels[i] is Some && touching(i, j, w) implies labels[j] == labels[i] by {
        lemma_touching_symmetric(i, j, w);
        if before[i] is Some {
            assert(before[j] == before[i]);
            assert(labels[i] == before[i] && labels[j] == before[j]);
        } else {
            assert(labels[i] == Some(label));
            assert(is_expanded(mask, labels, w, i));
            assert(labels[j] is Some);
            if before[j] is Some {
                assert(before[i] == before[j]);
            }
        }
    }
}

pub proof fn lemma_firsts_below(mask: Seq<bool>, w: int, n: int, k: int)
    requires
        0 <= k < firsts(mask, w, n).len(),
    ensures
        0 <= firsts(mask, w, n)[k] < n,
        is_first(mask, w, firsts(mask, w, n)[k]),
    decreases n,
{
    if n > 0 && k < firsts(mask, w, n - 1).len() {
        lemma_firsts_below(mask, w, n - 1, k);
    }
}

proof fn lemma_firsts_len(mask: Seq<bool>, w: int, n: int)
    requires
        0 <= n,
    ensures
        firsts(mask, w, n).len() <= n,
    decreases n,
{
    if n > 0 {
        lemma_firsts_len(mask, w, n - 1);
    }
}

/// Numbers the components of a mask in the order of their first pixels.
pub fn label_components(w: usize, h: usize, mask: &[bool]) -> (labels: Vec<Option<usize>>)
    requires
        mask@.len() == w * h,
    ensures
        is_labelling(mask@, w as int, labels@),
{
    let n: usize = mask.len();
    let ghost wi = w as int;
    let mut labels: Vec<Option<usize>> = Vec::new();
    let mut i: usize = 0;
    while i < n
        invariant
            i <= n,
            labels@.len() == i,
            forall|k: int| 0 <= k < i ==> #[trigger] labels@[k] is None,
        decreases n - i,
    {
        labels.push(None);
        i += 1;
    }
    let mut next: usize = 0;
    let mut start: usize = 0;
    while start < n
        invariant
            n == mask@.len() == w * h,
            wi == w,
            start <= n,
            labels@.len() == n,
            next == firsts(mask@, wi, start as int).len(),
            forall|i: int| 0 <= i < n && (#[trigger] labels@[i] is Some) ==> mask@[i],
            forall|i: int|
                0 <= i < n && (#[trigger] labels@[i] is Some) ==> {
                    &&& labels@[i]->0 < next
                    &&& connected(
                        mask@,
                        wi,
                        firsts(mask@, wi, start as int)[labels@[i]->0 as int],
                        i,
                    )
                },
            forall|i: int| 0 <= i < start && mask@[i] ==> #[trigger] labels@[i] is Some,
            is_closed(mask@, wi, labels@),
        decreases n - start,
    {
        let ghost first_ones = firsts(mask@, wi, start as int);
        proof {
            lemma_firsts_len(mask@, wi, start as int);
        }
        if mask[start] && labels[start].is_none() {
            let ghost before = labels@;
            proof {
                assert(w > 0) by (nonlinear_arith)
                    requires
                        w * h > 0,
                        w >= 0,
                        h >= 0,
                ;
                assert forall|q: int| 0 <= q < start && mask@[q] implies !#[trigger] connected(
                    mask@,
                    wi,
                    q,
                    start as int,
                ) by {
                    if connected(mask@, wi, q, start as int) {
                        assert(labels@[q] is Some);
                        lemma_marks_spread(mask@, wi, labels@, q, start as int);
                    }
                }
                assert(is_first(mask@, wi, start as int));
            }
            fill(w, h, mask, &mut labels, start, next);
            proof {
                lemma_fill_closes(mask@, wi, before, labels@, start as int, next);
                assert(firsts(mask@, wi, start + 1) == first_ones.push(start as int));
                assert forall|i: int| 0 <= i < n && (#[trigger] labels@[i] is Some) implies {
                    &&& mask@[i]
                    &&& labels@[i]->0 < next + 1
                    &&& connected(
                        mask@,
                        wi,
                        firsts(mask@, wi, start + 1)[labels@[i]->0 as int],
                        i,
                    )
                } by {
                    if before[i] is Some {
                        assert(labels@[i] == before[i]);
                    }
                }
            }
            next += 1;
        } else {
            proof {
                if mask@[start as int] {
                    let l = labels@[start as int]->0 as int;
                    lemma_firsts_below(mask@, wi, start as int, l);
                    let p = first_ones[l];
                    lemma_connected_is_set(mask@, wi, p, start as int);
                    assert(!is_first(mask@, wi, start as int));
                }
                assert(firsts(mask@, wi, start + 1) == first_ones);
            }
        }
        start += 1;
    }
    labels
}

proof fn lemma_firsts_ascend(mask: Seq<bool>, w: int, n: int, j: int, k: int)
    requires
        0 <= j < k < firsts(mask, w, n).len(),
    ensures
        firsts(mask, w, n)[j] < firsts(mask, w, n)[k],
    decreases n,
{
    if n > 0 {
        if k < firsts(mask, w, n - 1).len() {
            lemma_firsts_ascend(mask, w, n - 1, j, k);
        } else {
            lemma_firsts_below(mask, w, n - 1, j);
        }
    }
}

/// A pixel that is connected to the first pixel of a component has the number of that component.
pub proof fn label_of_connected_pixel(
    mask: Seq<bool>,
    w: int,
    labels: Seq<Option<usize>>,
    l: int,
    i: int,
)
    requires
        is_labelling(mask, w, labels),
        0 <= l < firsts(mask, w, mask.len() as int).len(),
        connected(mask, w, firsts(mask, w, mask.len() as int)[l], i),
    ensures
        labels[i] is Some,
        labels[i]->0 == l,
{
    let n = mask.len() as int;
    let all = firsts(mask, w, n);
    lemma_connected_is_set(mask, w, all[l], i);
    assert(labels[i] is Some);
    let m = labels[i]->0 as int;
    lemma_firsts_below(mask, w, n, l);
    lemma_firsts_below(mask, w, n, m);
    lemma_connected_symmetric(mask, w, all[m], i);
    lemma_connected_transitive(mask, w, all[l], i, all[m]);
    lemma_connected_symmetric(mask, w, all[l], all[m]);
    if l < m {
        lemma_firsts_ascend(mask, w, n, l, m);
    } else if m < l {
        lemma_firsts_ascend(mask, w, n, m, l);
    }
}

/// Two set pixels have the same number exactly where a path over set pixels joins them.
pub proof fn same_label_means_connected(
    mask: Seq<bool>,
    w: int,
    labels: Seq<Option<usize>>,
    i: int,
    j: int,
)
    requires
        is_labelling(mask, w, labels),
        0 <= i < mask.len(),
        0 <= j < mask.len(),
        mask[i],
        mask[j],
    ensures
        labels[i] == labels[j] <==> connected(mask, w, i, j),
{
    let all = firsts(mask, w, mask.len() as int);
    assert(labels[i] is Some);
    assert(labels[j] is Some);
    let p = all[labels[i]->0 as int];
    if labels[i] == labels[j] {
        lemma_connected_symmetric(mask, w, p, i);
        lemma_connected_transitive(mask, w, i, p, j);
    }
    if connected(mask, w, i, j) {
        lemma_connected_transitive(mask, w, p, i, j);
        label_of_connected_pixel(mask, w, labels, labels[i]->0 as int, j);
    }
}

/// The first pixels below a smaller bound come first.
pub proof fn lemma_firsts_prefix(mask: Seq<bool>, w: int, m: int, n: int)
    requires
        0 <= m <= n,
    ensures
        firsts(mask, w, m).len() <= firsts(mask, w, n).len(),
        forall|k: int|
            0 <= k < firsts(mask, w, m).len() ==> #[trigger] firsts(mask, w, n)[k] == firsts(
                mask,
                w,
                m,
            )[k],
        forall|k: int|
            firsts(mask, w, m).len() <= k < firsts(mask, w, n).len() ==> #[trigger] firsts(
                mask,
                w,
                n,
            )[k] >= m,
    decreases n - m,
{
    if m < n {
        lemma_firsts_prefix(mask, w, m, n - 1);
    }
}

/// No pixel before the first pixel of a component belongs to it.
pub proof fn lemma_component_starts(mask: Seq<bool>, w: int, p: int, n: int)
    requires
        0 <= n <= p,
        is_first(mask, w, p),
    ensures
        component(mask, w, p, n) == Seq::<usize>::empty(),
    decreases n,
{
    if n > 0 {
        lemma_component_starts(mask, w, p, n - 1);
        if mask[n - 1] && connected(mask, w, p, n - 1) {
            lemma_connected_symmetric(mask, w, p, n - 1);
        }
    }
}

/// The pixels of a component are those below `n` that are connected to `p`.
pub proof fn lemma_component_members(mask: Seq<bool>, w: int, p: int, n: int)
    requires
        0 <= n <= mask.len(),
        mask.len() <= usize::MAX,
    ensures
        forall|k: int|
            0 <= k < component(mask, w, p, n).len() ==> {
                &&& #[trigger] component(mask, w, p, n)[k] < n
                &&& mask[component(mask, w, p, n)[k] as int]
                &&& connected(mask, w, p, component(mask, w, p, n)[k] as int)
            },
        forall|i: int|
            0 <= i < n && mask[i] && #[trigger] connected(mask, w, p, i) ==> component(
                mask,
                w,
                p,
                n,
            ).contains(i as usize),
    decreases n,
{
    if n > 0 {
        lemma_component_members(mask, w, p, n - 1);
        let fewer = component(mask, w, p, n - 1);
        let all = component(mask, w, p, n);
        assert forall|i: int|
            0 <= i < n && mask[i] && #[trigger] connected(mask, w, p, i) implies all.contains(
            i as usize,
        ) by {
            if i < n - 1 {
                assert(fewer.contains(i as usize));
                let k = choose|k: int| 0 <= k < fewer.len() && fewer[k] == i as usize;
                assert(all[k] == i as usize);
            } else {
                assert(all.last() == i as usize);
                assert(all[all.len() - 1] == i as usize);
            }
        }
    }
}

} // verus!
