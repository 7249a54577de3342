//! Connected-component labels of a detection mask.

use numeris::imageproc::{connected_components_with_label_buffer, Connectivity};
use numeris::DynMatrix;
use vstd::prelude::*;

use crate::background::lemma_pixel_index;
use crate::connect::{connected, LitSet, Pixel};
use crate::ieee::F32;
use crate::regions::law_regions_are_components;
use crate::runs::{appears, covered, lemma_run_at, run_at, run_before, RunRegions};

verus! {

/// Size and bounding box of one labelled component, corners as `(row, column)`
/// and both included.
#[derive(Clone, Copy, Debug, PartialEq, Eq)]
pub struct Component {
    pub area: u32,
    pub bbox_min: (u32, u32),
    pub bbox_max: (u32, u32),
}

/// The pixel at a row-major index.
pub open spec fn pixel_of(w: int, i: int) -> Pixel {
    (i / w, i % w)
}

/// The row-major index of a pixel.
pub open spec fn index_of(w: int, p: Pixel) -> int {
    p.0 * w + p.1
}

/// The lit pixels of a `w` by `h` byte mask: those that are not zero.
pub open spec fn mask_lit(mask: Seq<u8>, w: int, h: int) -> LitSet {
    |p: Pixel| 0 <= p.0 < h && 0 <= p.1 < w && mask[index_of(w, p)] != 0
}

/// How many of the first `n` labels are `v`.
pub open spec fn label_count(labels: Seq<u32>, v: int, n: int) -> int
    decreases n,
{
    if n <= 0 {
        0
    } else {
        label_count(labels, v, n - 1) + if labels[n - 1] == v {
            1int
        } else {
            0
        }
    }
}

/// The pixel at index `i` has the label `v`.
pub open spec fn labelled(labels: Seq<u32>, i: int, v: int) -> bool {
    0 <= i < labels.len() && labels[i] == v
}

/// The label `v` is among the first `n`.
pub open spec fn label_seen(labels: Seq<u32>, v: int, n: int) -> bool {
    exists|j: int| 0 <= j < n && #[trigger] labels[j] == v
}

/// `labels` numbers the components of the mask from 1 in the order in which a
/// row-major scan meets them, 0 being background.
pub open spec fn is_labelling(
    mask: Seq<u8>,
    w: int,
    h: int,
    eight: bool,
    labels: Seq<u32>,
    n: int,
) -> bool {
    &&& labels.len() == w * h
    &&& 0 <= n <= labels.len()
    &&& forall|i: int| 0 <= i < labels.len() ==> #[trigger] labels[i] <= n
    &&& forall|i: int| 0 <= i < labels.len() ==> (#[trigger] labels[i] == 0 <==> mask[i] == 0)
    &&& forall|i: int, j: int|
        0 <= i < labels.len() && 0 <= j < labels.len() && #[trigger] labels[i] != 0
            && #[trigger] labels[j] != 0 ==> (labels[i] == labels[j] <==> connected(
            mask_lit(mask, w, h),
            eight,
            pixel_of(w, i),
            pixel_of(w, j),
        ))
    &&& forall|v: int| 0 < v <= n ==> #[trigger] label_seen(labels, v, labels.len() as int)
    &&& forall|i: int, v: int|
        0 <= i < labels.len() && 0 < v < labels[i] ==> #[trigger] label_seen(labels, v, i)
}

/// `c` counts and bounds the pixels labelled `v`.
pub open spec fn describes(c: Component, labels: Seq<u32>, w: int, v: int) -> bool {
    &&& c.area == label_count(labels, v, labels.len() as int)
    &&& forall|i: int| #[trigger]
        labelled(labels, i, v) ==> {
            &&& c.bbox_min.0 <= pixel_of(w, i).0 <= c.bbox_max.0
            &&& c.bbox_min.1 <= pixel_of(w, i).1 <= c.bbox_max.1
        }
    &&& exists|i: int| #[trigger] labelled(labels, i, v) && pixel_of(w, i).0 == c.bbox_min.0
    &&& exists|i: int| #[trigger] labelled(labels, i, v) && pixel_of(w, i).0 == c.bbox_max.0
    &&& exists|i: int| #[trigger] labelled(labels, i, v) && pixel_of(w, i).1 == c.bbox_min.1
    &&& exists|i: int| #[trigger] labelled(labels, i, v) && pixel_of(w, i).1 == c.bbox_max.1
}

/// Label the connected components of a row-major mask.
///
/// Calls `numeris::imageproc::connected_components_with_label_buffer` on the
/// mask as an `h` by `w` matrix with background 0: the components are the
/// maximal connected sets of non-zero pixels, labelled from 1 in row-major order
/// of first encounter, and each is listed with its area and inclusive bounding
/// box.
#[verifier::external_body]
fn label_components(mask: &[u8], w: usize, h: usize, eight: bool) -> (out: (
    Vec<u32>,
    Vec<Component>,
))
    requires
        mask@.len() == w * h,
        w * h <= u32::MAX,
    ensures
        is_labelling(mask@, w as int, h as int, eight, out.0@, out.1@.len() as int),
        forall|k: int|
            0 <= k < out.1@.len() ==> describes(
                #[trigger] out.1@[k],
                out.0@,
                w as int,
                k + 1,
            ),
{
    let image = DynMatrix::<u8>::from_rows(h, w, mask);
    let connectivity = if eight { Connectivity::Eight } else { Connectivity::Four };
    let (labels, found) = connected_components_with_label_buffer(&image, connectivity, 0u8);
    let components = found
        .iter()
        .map(|c| Component { area: c.area, bbox_min: c.bbox_min, bbox_max: c.bbox_max })
        .collect();
    (labels, components)
}

/// Threshold: which pixels of an image exceed `thr`.
pub open spec fn above_mask(src: Seq<F32>, thr: F32) -> Seq<u8> {
    Seq::new(
        src.len(),
        |i: int|
            if src[i].above(thr) {
                1u8
            } else {
                0u8
            },
    )
}

/// Threshold an image and label its blobs.
pub fn label_above(
    src: &[F32],
    thr: F32,
    w: usize,
    h: usize,
    eight: bool,
) -> (out: (Vec<u32>, Vec<Component>))
    requires
        src@.len() == w * h,
        w * h <= u32::MAX,
    ensures
        is_labelling(
            above_mask(src@, thr),
            w as int,
            h as int,
            eight,
            out.0@,
            out.1@.len() as int,
        ),
        forall|k: int|
            0 <= k < out.1@.len() ==> describes(#[trigger] out.1@[k], out.0@, w as int, k + 1),
{
    let mut mask: Vec<u8> = Vec::new();
    let mut i: usize = 0;
    while i < src.len()
        invariant
            0 <= i <= src@.len(),
            mask@.len() == i,
            forall|j: int| 0 <= j < i ==> #[trigger] mask@[j] == above_mask(src@, thr)[j],
        decreases src@.len() - i,
    {
        mask.push(
            if src[i].gt(thr) {
                1u8
            } else {
                0u8
            },
        );
        i += 1;
    }
    assert(mask@ =~= above_mask(src@, thr));
    label_components(&mask, w, h, eight)
}

/// A pixel and its index.
pub proof fn lemma_index_of(w: int, h: int, p: Pixel)
    requires
        0 <= p.0 < h,
        0 <= p.1 < w,
    ensures
        0 <= index_of(w, p) < w * h,
        pixel_of(w, index_of(w, p)) == p,
{
    lemma_pixel_index(w, h, p.0, p.1);
    let i = p.0 * w + p.1;
    let (r, c) = (p.0, p.1);
    assert(i / w == r && i % w == c) by (nonlinear_arith)
        requires
            i == r * w + c,
            0 <= c < w,
    ;
}

/// An index and its pixel.
pub proof fn lemma_pixel_of(w: int, h: int, i: int)
    requires
        0 < w,
        0 <= i < w * h,
    ensures
        0 <= pixel_of(w, i).0 < h,
        0 <= pixel_of(w, i).1 < w,
        index_of(w, pixel_of(w, i)) == i,
{
    let (q, r) = (i / w, i % w);
    assert(i == w * q + r && 0 <= r < w) by (nonlinear_arith)
        requires
            w > 0,
            q == i / w,
            r == i % w,
    ;
    assert(0 <= q < h) by (nonlinear_arith)
        requires
            w > 0,
            0 <= i < w * h,
            i == w * q + r,
            0 <= r < w,
    ;
    assert(w * q == q * w) by (nonlinear_arith);
}

/// Raster order is the order of indices.
pub proof fn lemma_raster_index(w: int, p: Pixel, q: Pixel)
    requires
        0 <= p.1 < w,
        0 <= q.1 < w,
        p.0 < q.0 || (p.0 == q.0 && p.1 < q.1),
    ensures
        index_of(w, p) < index_of(w, q),
{
    let (a, b, c, d) = (p.0, p.1, q.0, q.1);
    assert(a * w + b < c * w + d) by (nonlinear_arith)
        requires
            0 <= b < w,
            0 <= d < w,
            a < c || (a == c && b < d),
    ;
}

proof fn lemma_label_is_region(
    mask: Seq<u8>,
    w: int,
    h: int,
    labels: Seq<u32>,
    n: int,
    out: RunRegions,
    i: int,
)
    requires
        0 < w,
        is_labelling(mask, w, h, true, labels, n),
        out.regions_of(mask_lit(mask, w, h)),
        0 <= i < labels.len(),
        labels[i] != 0,
    ensures
        labels[i] == out.region_of_run@[run_at(out.runs@, pixel_of(w, i))] + 1,
    decreases i,
{
    let lit = mask_lit(mask, w, h);
    let runs = out.runs@;
    let ids = out.region_of_run@;
    let p = pixel_of(w, i);
    lemma_pixel_of(w, h, i);
    assert(lit(p));
    law_regions_are_components(out, lit, p, p);
    let k = run_at(runs, p);
    assert(covered(runs)(p));
    assert(runs[k].has(p));
    let id = ids[k] as int;
    if labels[i] - 1 < id {
        let u = labels[i] - 1;
        assert(appears(ids, u, k));
        let j = choose|j: int| 0 <= j < k && #[trigger] ids[j] == u;
        let q = runs[j].start();
        assert(runs[j].c0 <= runs[j].c1);
        assert(runs[j].has(q));
        assert(covered(runs)(q));
        assert(lit(q));
        lemma_run_at(runs, j, q);
        assert(run_before(runs[j], runs[k]));
        lemma_raster_index(w, q, p);
        lemma_index_of(w, h, q);
        let m = index_of(w, q);
        assert(labels[m] != 0);
        lemma_label_is_region(mask, w, h, labels, n, out, m);
        assert(labels[m] == labels[i]);
        law_regions_are_components(out, lit, q, p);
    } else if id < labels[i] - 1 {
        assert(label_seen(labels, id + 1, i));
        let m = choose|m: int| 0 <= m < i && #[trigger] labels[m] == id + 1;
        lemma_label_is_region(mask, w, h, labels, n, out, m);
        let q = pixel_of(w, m);
        lemma_pixel_of(w, h, m);
        assert(lit(q));
        law_regions_are_components(out, lit, q, p);
        assert(labels[m] == labels[i]);
    }
}

/// For 8-connectivity the labels and the run-length regions agree: the label of
/// a lit pixel is one more than the id of its region.
pub proof fn law_labels_match_regions(
    mask: Seq<u8>,
    w: int,
    h: int,
    labels: Seq<u32>,
    n: int,
    out: RunRegions,
    p: Pixel,
)
    requires
        is_labelling(mask, w, h, true, labels, n),
        out.regions_of(mask_lit(mask, w, h)),
        mask_lit(mask, w, h)(p),
    ensures
        labels[index_of(w, p)] == out.region_of_run@[run_at(out.runs@, p)] + 1,
{
    lemma_index_of(w, h, p);
    lemma_label_is_region(mask, w, h, labels, n, out, index_of(w, p));
}

/// For 8-connectivity there are as many labels as regions.
pub proof fn law_as_many_labels_as_regions(
    mask: Seq<u8>,
    w: int,
    h: int,
    labels: Seq<u32>,
    n: int,
    out: RunRegions,
)
    requires
        0 < w,
        is_labelling(mask, w, h, true, labels, n),
        out.regions_of(mask_lit(mask, w, h)),
    ensures
        n == out.n_regions,
{
    let runs = out.runs@;
    let lit = mask_lit(mask, w, h);
    if n > 0 {
        assert(label_seen(labels, n, labels.len() as int));
        let i = choose|i: int| 0 <= i < labels.len() && #[trigger] labels[i] == n;
        lemma_label_is_region(mask, w, h, labels, n, out, i);
        let p = pixel_of(w, i);
        lemma_pixel_of(w, h, i);
        law_regions_are_components(out, lit, p, p);
    }
    if out.n_regions > 0 {
        let u = out.n_regions - 1;
        assert(appears(out.region_of_run@, u, out.region_of_run@.len() as int));
        let j = choose|j: int|
            0 <= j < out.region_of_run@.len() && #[trigger] out.region_of_run@[j] == u;
        let q = runs[j].start();
        assert(runs[j].c0 <= runs[j].c1);
        assert(runs[j].has(q));
        assert(covered(runs)(q));
        assert(lit(q));
        lemma_run_at(runs, j, q);
        law_labels_match_regions(mask, w, h, labels, n, out, q);
        lemma_index_of(w, h, q);
    }
}

proof fn lemma_labels_agree(
    mask: Seq<u8>,
    w: int,
    h: int,
    eight: bool,
    a: Seq<u32>,
    m: int,
    b: Seq<u32>,
    n: int,
    k: int,
)
    requires
        is_labelling(mask, w, h, eight, a, m),
        is_labelling(mask, w, h, eight, b, n),
        0 <= k <= a.len(),
    ensures
        forall|i: int| 0 <= i < k ==> #[trigger] a[i] == b[i],
    decreases k,
{
    if k > 0 {
        let i = k - 1;
        lemma_labels_agree(mask, w, h, eight, a, m, b, n, i);
        assert(a[i] == 0 <==> mask[i] == 0);
        assert(b[i] == 0 <==> mask[i] == 0);
        if a[i] < b[i] && a[i] != 0 {
            assert(label_seen(b, a[i] as int, i));
            let j = choose|j: int| 0 <= j < i && #[trigger] b[j] == a[i];
            assert(a[j] == a[i]);
            assert(connected(mask_lit(mask, w, h), eight, pixel_of(w, j), pixel_of(w, i)));
            assert(b[j] == b[i]);
        }
        if b[i] < a[i] && b[i] != 0 {
            assert(label_seen(a, b[i] as int, i));
            let j = choose|j: int| 0 <= j < i && #[trigger] a[j] == b[i];
            assert(b[j] == b[i]);
            assert(connected(mask_lit(mask, w, h), eight, pixel_of(w, j), pixel_of(w, i)));
            assert(a[j] == a[i]);
        }
    }
}

/// A mask has one labelling.
pub proof fn law_labelling_unique(
    mask: Seq<u8>,
    w: int,
    h: int,
    eight: bool,
    a: Seq<u32>,
    m: int,
    b: Seq<u32>,
    n: int,
)
    requires
        is_labelling(mask, w, h, eight, a, m),
        is_labelling(mask, w, h, eight, b, n),
    ensures
        a == b,
        m == n,
{
    lemma_labels_agree(mask, w, h, eight, a, m, b, n, a.len() as int);
    assert(a =~= b);
    if m < n {
        assert(label_seen(b, n, b.len() as int));
    } else if n < m {
        assert(label_seen(a, m, a.len() as int));
    }
}

/// The pixels of a label have one description.
pub proof fn law_description_unique(a: Component, b: Component, labels: Seq<u32>, w: int, v: int)
    requires
        describes(a, labels, w, v),
        describes(b, labels, w, v),
    ensures
        a == b,
{
}

} // verus!
