//! What callers may pass for images, centroids and angles, and what is made of
//! it.

use vstd::prelude::*;

use crate::config::{CentroidExtractionConfig, CentroidExtractionResult, DeblendMode};
use crate::convert::{is_narrowed, law_narrow_undoes_widen, same_number};
use crate::gray::lemma_integer_unique;
use crate::ieee::{F32, F64};
use crate::measure::Centroid;

verus! {

/// Two texts are the same.
fn same_text(a: &str, b: &str) -> (r: bool)
    ensures
        r == (a@ == b@),
{
    let n: usize = a.unicode_len();
    if n != b.unicode_len() {
        return false;
    }
    let mut i: usize = 0;
    while i < n
        invariant
            0 <= i <= n,
            n == a@.len(),
            n == b@.len(),
            forall|k: int| 0 <= k < i ==> #[trigger] a@[k] == b@[k],
        decreases n - i,
    {
        if a.get_char(i) != b.get_char(i) {
            return false;
        }
        i += 1;
    }
    assert(a@ =~= b@);
    true
}

/// Why image dimensions are refused.
#[derive(Clone, Copy, Debug, PartialEq, Eq, Structural)]
pub enum DimensionError {
    /// A shape and a width or height.
    Both,
    /// Neither a shape nor both width and height.
    Neither,
    /// A dimension is zero.
    Zero { width: u32, height: u32 },
}

/// The dimensions that were given, as width and height.
pub open spec fn given_dims(
    image_shape: Option<(u32, u32)>,
    image_width: Option<u32>,
    image_height: Option<u32>,
) -> Result<(u32, u32), DimensionError> {
    match image_shape {
        Some((h, w)) => if image_width is None && image_height is None {
            Ok((w, h))
        } else {
            Err(DimensionError::Both)
        },
        None => if image_width is Some && image_height is Some {
            Ok((image_width->0, image_height->0))
        } else {
            Err(DimensionError::Neither)
        },
    }
}

/// Resolve image dimensions from either `image_shape`, which is height and
/// width, or a separate width and height. Exactly one form must be supplied and
/// both dimensions must be non-zero. Returns width and height.
pub fn resolve_image_dims(
    image_shape: Option<(u32, u32)>,
    image_width: Option<u32>,
    image_height: Option<u32>,
) -> (r: Result<(u32, u32), DimensionError>)
    ensures
        r == match given_dims(image_shape, image_width, image_height) {
            Ok((width, height)) => if width == 0 || height == 0 {
                Err::<(u32, u32), DimensionError>(DimensionError::Zero { width, height })
            } else {
                Ok((width, height))
            },
            Err(e) => Err(e),
        },
{
    let (w, h) = match (image_shape, image_width, image_height) {
        (Some((h, w)), None, None) => (w, h),
        (None, Some(w), Some(h)) => (w, h),
        (Some(_), _, _) => {
            return Err(DimensionError::Both);
        },
        _ => {
            return Err(DimensionError::Neither);
        },
    };
    if w == 0 || h == 0 {
        return Err(DimensionError::Zero { width: w, height: h });
    }
    Ok((w, h))
}

/// Why an angle is refused.
#[derive(Clone, Copy, Debug, PartialEq, Eq, Structural)]
pub enum AngleError {
    /// Degrees and radians.
    Both,
    /// Neither of them.
    Neither,
}

/// `r` is an angle of `deg` degrees: rounded to single precision, then converted.
pub open spec fn is_from_degrees<R: Fn(F32) -> F32>(to_radians: R, deg: F64, r: F32) -> bool {
    exists|d: F32| #[trigger] is_narrowed(deg, d) && call_ensures(to_radians, (d,), r)
}

/// Resolve an optional angle given as at most one of degrees and radians.
/// Returns radians, or nothing when neither is given.
pub fn at_most_one_angle_rad<R: Fn(F32) -> F32>(
    deg: Option<F64>,
    rad: Option<F64>,
    to_radians: &R,
) -> (r: Result<Option<F32>, AngleError>)
    requires
        forall|d: F32| #[trigger] call_requires(*to_radians, (d,)),
    ensures
        match (deg, rad) {
            (Some(d), None) => r matches Ok(Some(a)) && is_from_degrees(*to_radians, d, a),
            (None, Some(d)) => r matches Ok(Some(a)) && is_narrowed(d, a),
            (Some(_), Some(_)) => r == Err::<Option<F32>, AngleError>(AngleError::Both),
            (None, None) => r == Ok::<Option<F32>, AngleError>(None),
        },
{
    match (deg, rad) {
        (Some(d), None) => {
            let narrow = d.narrow();
            Ok(Some(to_radians(narrow)))
        },
        (None, Some(d)) => Ok(Some(d.narrow())),
        (Some(_), Some(_)) => Err(AngleError::Both),
        (None, None) => Ok(None),
    }
}

/// Resolve an angle given as exactly one of degrees and radians. Returns radians.
pub fn exactly_one_angle_rad<R: Fn(F32) -> F32>(
    deg: Option<F64>,
    rad: Option<F64>,
    to_radians: &R,
) -> (r: Result<F32, AngleError>)
    requires
        forall|d: F32| #[trigger] call_requires(*to_radians, (d,)),
    ensures
        match (deg, rad) {
            (Some(d), None) => r matches Ok(a) && is_from_degrees(*to_radians, d, a),
            (None, Some(d)) => r matches Ok(a) && is_narrowed(d, a),
            (Some(_), Some(_)) => r == Err::<F32, AngleError>(AngleError::Both),
            (None, None) => r == Err::<F32, AngleError>(AngleError::Neither),
        },
{
    match at_most_one_angle_rad(deg, rad, to_radians) {
        Ok(Some(a)) => Ok(a),
        Ok(None) => Err(AngleError::Neither),
        Err(e) => Err(e),
    }
}

/// What an array object says of itself.
pub struct ArrayInfo<'a> {
    /// Number of dimensions.
    pub ndim: usize,
    /// The byte order is the machine's.
    pub is_native: bool,
    /// The letter that numpy has for the kind of number.
    pub kind: &'a str,
    /// Bytes to a number.
    pub itemsize: usize,
}

/// The kinds of number that pixels may have.
#[derive(Clone, Copy, Debug, PartialEq, Eq, Structural)]
pub enum PixelKind {
    F64,
    F32,
    U8,
    U16,
    I16,
}

/// What to do with an array.
#[derive(Clone, Copy, Debug, PartialEq, Eq, Structural)]
pub enum ImageAction {
    /// Convert it to the machine's byte order and ask again.
    ToNative,
    /// Read it.
    Read(PixelKind),
}

/// Why an object is no image.
#[derive(Clone, Copy, Debug, PartialEq, Eq, Structural)]
pub enum ImageError {
    /// Not an array.
    NotAnArray,
    /// Not two-dimensional.
    Dimensions(usize),
    /// Not a supported kind of number.
    Kind,
}

/// The supported kind of number, if it is one.
pub open spec fn pixel_kind(kind: Seq<char>, itemsize: usize) -> Option<PixelKind> {
    if kind == seq!['f'] && itemsize == 8 {
        Some(PixelKind::F64)
    } else if kind == seq!['f'] && itemsize == 4 {
        Some(PixelKind::F32)
    } else if kind == seq!['u'] && itemsize == 1 {
        Some(PixelKind::U8)
    } else if kind == seq!['u'] && itemsize == 2 {
        Some(PixelKind::U16)
    } else if kind == seq!['i'] && itemsize == 2 {
        Some(PixelKind::I16)
    } else {
        None
    }
}

/// Decide what to do with an object that is to be an image; `info` is there
/// where it is an array. Non-native byte order (FITS data is big-endian) is
/// converted first.
pub fn image_action(info: Option<ArrayInfo<'_>>) -> (r: Result<ImageAction, ImageError>)
    ensures
        r == match info {
            None => Err::<ImageAction, ImageError>(ImageError::NotAnArray),
            Some(a) => if a.ndim != 2 {
                Err(ImageError::Dimensions(a.ndim))
            } else if !a.is_native {
                Ok(ImageAction::ToNative)
            } else {
                match pixel_kind(a.kind@, a.itemsize) {
                    Some(k) => Ok(ImageAction::Read(k)),
                    None => Err(ImageError::Kind),
                }
            },
        },
{
    let a = match info {
        None => {
            return Err(ImageError::NotAnArray);
        },
        Some(a) => a,
    };
    if a.ndim != 2 {
        return Err(ImageError::Dimensions(a.ndim));
    }
    if !a.is_native {
        return Ok(ImageAction::ToNative);
    }
    let letter: Option<char> = if a.kind.unicode_len() == 1 {
        Some(a.kind.get_char(0))
    } else {
        None
    };
    proof {
        assert(forall|c: char| #[trigger] (a.kind@ =~= seq![c]) <==> letter == Some(c));
        assert(a.kind@ =~= seq!['f'] <==> letter == Some('f'));
        assert(a.kind@ =~= seq!['u'] <==> letter == Some('u'));
        assert(a.kind@ =~= seq!['i'] <==> letter == Some('i'));
    }
    match (letter, a.itemsize) {
        (Some('f'), 8) => Ok(ImageAction::Read(PixelKind::F64)),
        (Some('f'), 4) => Ok(ImageAction::Read(PixelKind::F32)),
        (Some('u'), 1) => Ok(ImageAction::Read(PixelKind::U8)),
        (Some('u'), 2) => Ok(ImageAction::Read(PixelKind::U16)),
        (Some('i'), 2) => Ok(ImageAction::Read(PixelKind::I16)),
        _ => Err(ImageError::Kind),
    }
}

/// The pixels of an array, row by row.
pub enum Pixels {
    F64(Vec<F64>),
    F32(Vec<F32>),
    U8(Vec<u8>),
    U16(Vec<u16>),
    I16(Vec<i16>),
}

impl Pixels {
    /// Number of pixels.
    pub open spec fn spec_len(self) -> nat {
        match self {
            Pixels::F64(v) => v@.len(),
            Pixels::F32(v) => v@.len(),
            Pixels::U8(v) => v@.len(),
            Pixels::U16(v) => v@.len(),
            Pixels::I16(v) => v@.len(),
        }
    }

    /// `out` is pixel `i` in single precision: integers exactly, doubles
    /// rounded.
    pub open spec fn is_single(self, i: int, out: F32) -> bool {
        match self {
            Pixels::F64(v) => is_narrowed(v@[i], out),
            Pixels::F32(v) => out == v@[i],
            Pixels::U8(v) => out.is_integer(v@[i] as int),
            Pixels::U16(v) => out.is_integer(v@[i] as int),
            Pixels::I16(v) => out.is_integer(v@[i] as int),
        }
    }

    fn len(&self) -> (n: usize)
        ensures
            n == self.spec_len(),
    {
        match self {
            Pixels::F64(v) => v.len(),
            Pixels::F32(v) => v.len(),
            Pixels::U8(v) => v.len(),
            Pixels::U16(v) => v.len(),
            Pixels::I16(v) => v.len(),
        }
    }

    fn single(&self, i: usize) -> (out: F32)
        requires
            i < self.spec_len(),
        ensures
            self.is_single(i as int, out),
    {
        match self {
            Pixels::F64(v) => v[i].narrow(),
            Pixels::F32(v) => v[i],
            Pixels::U8(v) => F32::from_u8(v[i]),
            Pixels::U16(v) => F32::from_u16(v[i]),
            Pixels::I16(v) => F32::from_i16(v[i]),
        }
    }
}

/// Convert an array of any supported kind to single precision. Returns the
/// pixels, the width and the height; an array has its height first.
pub fn image_to_f32(pixels: &Pixels, rows: usize, columns: usize) -> (r: (Vec<F32>, u32, u32))
    ensures
        r.0@.len() == pixels.spec_len(),
        forall|i: int| 0 <= i < r.0@.len() ==> pixels.is_single(i, #[trigger] r.0@[i]),
        r.1 == columns as u32,
        r.2 == rows as u32,
{
    let mut out: Vec<F32> = Vec::new();
    let n: usize = pixels.len();
    let mut i: usize = 0;
    while i < n
        invariant
            0 <= i <= n,
            n == pixels.spec_len(),
            out@.len() == i,
            forall|k: int| 0 <= k < i ==> pixels.is_single(k, #[trigger] out@[k]),
        decreases n - i,
    {
        out.push(pixels.single(i));
        i += 1;
    }
    (out, columns as u32, rows as u32)
}

/// A table of numbers, row by row.
pub struct Table {
    pub data: Vec<F64>,
    pub rows: usize,
    pub columns: usize,
}

impl Table {
    pub open spec fn wf(self) -> bool {
        self.data@.len() == self.rows * self.columns
    }
}

/// One set of centroids as a caller may pass it.
pub enum CentroidInput {
    /// A list, with nothing for an item that is not a centroid.
    List(Vec<Option<Centroid>>),
    /// An array, with nothing where it is not a table of numbers.
    Array(Option<Table>),
    /// Something else.
    Other,
}

/// Why a set of centroids is refused.
#[derive(Clone, Copy, Debug, PartialEq, Eq, Structural)]
pub enum CentroidInputError {
    /// An item of a list is not a centroid.
    Item,
    /// An array is not a table of numbers.
    NotATable,
    /// A table has no column for x or y.
    Columns,
    /// Neither a list nor an array.
    Kind,
}

impl CentroidInput {
    pub open spec fn wf(self) -> bool {
        self matches CentroidInput::Array(Some(t)) ==> t.wf()
    }
}

/// `c` is row `i` of a table: x, y and, where there is a third column, the mass.
pub open spec fn is_row(t: Table, i: int, c: Centroid) -> bool {
    &&& is_narrowed(t.data@[i * t.columns], c.x)
    &&& is_narrowed(t.data@[i * t.columns + 1], c.y)
    &&& c.mass is Some <==> t.columns >= 3
    &&& c.mass matches Some(m) ==> is_narrowed(t.data@[i * t.columns + 2], m)
    &&& c.cov is None
}

/// `r` is what a set of centroids comes to.
pub open spec fn is_centroid_set(
    input: CentroidInput,
    r: Result<Vec<Centroid>, CentroidInputError>,
) -> bool {
    match input {
        CentroidInput::List(items) => if forall|i: int|
            0 <= i < items@.len() ==> #[trigger] items@[i] is Some {
            r matches Ok(v) && v@.len() == items@.len() && forall|i: int|
                0 <= i < v@.len() ==> Some(#[trigger] v@[i]) == items@[i]
        } else {
            r == Err::<Vec<Centroid>, CentroidInputError>(CentroidInputError::Item)
        },
        CentroidInput::Array(None) => r == Err::<Vec<Centroid>, CentroidInputError>(
            CentroidInputError::NotATable,
        ),
        CentroidInput::Array(Some(t)) => if t.columns < 2 {
            r == Err::<Vec<Centroid>, CentroidInputError>(CentroidInputError::Columns)
        } else {
            r matches Ok(v) && v@.len() == t.rows && forall|i: int|
                0 <= i < v@.len() ==> is_row(t, i, #[trigger] v@[i])
        },
        CentroidInput::Other => r == Err::<Vec<Centroid>, CentroidInputError>(
            CentroidInputError::Kind,
        ),
    }
}

fn centroids_of_table(t: &Table) -> (v: Vec<Centroid>)
    requires
        t.wf(),
        t.columns >= 2,
    ensures
        v@.len() == t.rows,
        forall|i: int| 0 <= i < v@.len() ==> is_row(*t, i, #[trigger] v@[i]),
{
    let mut v: Vec<Centroid> = Vec::new();
    let mut i: usize = 0;
    let mut at: usize = 0;
    while i < t.rows
        invariant
            t.wf(),
            t.columns >= 2,
            0 <= i <= t.rows,
            at == i * t.columns,
            v@.len() == i,
            forall|k: int| 0 <= k < i ==> is_row(*t, k, #[trigger] v@[k]),
        decreases t.rows - i,
    {
        let len: usize = t.data.len();
        assert(i * t.columns + t.columns <= len) by (nonlinear_arith)
            requires
                i + 1 <= t.rows,
                len == t.rows * t.columns,
        ;
        assert((i + 1) * t.columns == i * t.columns + t.columns) by (nonlinear_arith);
        let mass = if t.columns >= 3 {
            Some(t.data[at + 2].narrow())
        } else {
            None
        };
        let c = Centroid {
            x: t.data[at].narrow(),
            y: t.data[at + 1].narrow(),
            mass,
            cov: None,
        };
        assert(is_row(*t, i as int, c));
        v.push(c);
        at += t.columns;
        i += 1;
    }
    v
}

/// Parse a single set of centroids: a list of centroids, or a table with x, y
/// and possibly a mass in each row.
pub fn parse_centroids_single(input: &CentroidInput) -> (r: Result<
    Vec<Centroid>,
    CentroidInputError,
>)
    requires
        input.wf(),
    ensures
        is_centroid_set(*input, r),
{
    match input {
        CentroidInput::List(items) => {
            let mut v: Vec<Centroid> = Vec::new();
            let mut i: usize = 0;
            while i < items.len()
                invariant
                    *input == CentroidInput::List(*items),
                    0 <= i <= items@.len(),
                    v@.len() == i,
                    forall|k: int| 0 <= k < i ==> Some(#[trigger] v@[k]) == items@[k],
                decreases items@.len() - i,
            {
                match items[i] {
                    Some(c) => {
                        v.push(c);
                    },
                    None => {
                        return Err(CentroidInputError::Item);
                    },
                }
                i += 1;
            }
            assert forall|k: int| 0 <= k < items@.len() implies #[trigger] items@[k] is Some by {
                assert(Some(v@[k]) == items@[k]);
            }
            Ok(v)
        },
        CentroidInput::Array(Some(t)) => {
            if t.columns < 2 {
                return Err(CentroidInputError::Columns);
            }
            Ok(centroids_of_table(t))
        },
        CentroidInput::Array(None) => Err(CentroidInputError::NotATable),
        CentroidInput::Other => Err(CentroidInputError::Kind),
    }
}

/// An item of a list of solves.
pub enum SolveItem<S, F> {
    /// A solution.
    Solution(S),
    /// A failed solve.
    Failure(F),
    /// Something else.
    Other,
}

/// Solves as a caller may pass them.
pub enum SolveInput<S, F> {
    /// One solution.
    Single(S),
    /// A list of solves.
    List(Vec<SolveItem<S, F>>),
    /// Something else.
    Other,
}

/// Centroids that go with solves: one object, read as one set of centroids, and
/// its items, each read as a set, where it is a list.
pub struct CentroidSets {
    pub whole: CentroidInput,
    pub items: Option<Vec<CentroidInput>>,
}

impl CentroidSets {
    pub open spec fn wf(self) -> bool {
        &&& self.whole.wf()
        &&& self.items matches Some(v) ==> forall|i: int|
            0 <= i < v@.len() ==> (#[trigger] v@[i]).wf()
    }
}

/// Why solves and centroids are refused.
#[derive(Clone, Copy, Debug, PartialEq, Eq, Structural)]
pub enum PairingError {
    /// An item of the list of solves is neither a solution nor a failure.
    SolveItem,
    /// The solves are neither a solution nor a list.
    SolveKind,
    /// The lists differ in length.
    Lengths { centroids: usize, solves: usize },
    /// The solves are a list and the centroids are not.
    NotAList,
    /// A set of centroids is refused.
    Centroids(CentroidInputError),
}

/// Solves and the centroids that go with them.
pub type Pairing<S, F> = (Vec<Result<S, F>>, Vec<Vec<Centroid>>);

/// `out` is what a list item stands for.
pub open spec fn is_solve<S, F>(item: SolveItem<S, F>, out: Result<S, F>) -> bool {
    match item {
        SolveItem::Solution(s) => out == Ok::<S, F>(s),
        SolveItem::Failure(f) => out == Err::<S, F>(f),
        SolveItem::Other => false,
    }
}

/// Every item is a solution or a failure.
pub open spec fn all_solves<S, F>(items: Seq<SolveItem<S, F>>) -> bool {
    forall|i: int| 0 <= i < items.len() ==> !(#[trigger] items[i] is Other)
}

/// The error of the first set that is refused is `e`.
pub open spec fn first_refused(sets: Seq<CentroidInput>, k: int, e: CentroidInputError) -> bool {
    &&& 0 <= k < sets.len()
    &&& is_centroid_set(sets[k], Err(e))
    &&& forall|i: int|
        0 <= i < k ==> !exists|x: CentroidInputError| is_centroid_set(#[trigger] sets[i], Err(x))
}

/// `r` is what a list of sets comes to: all of them, or the first error.
pub open spec fn are_centroid_sets(
    sets: Seq<CentroidInput>,
    r: Result<Vec<Vec<Centroid>>, CentroidInputError>,
) -> bool {
    match r {
        Ok(v) => v@.len() == sets.len() && forall|i: int|
            0 <= i < v@.len() ==> is_centroid_set(sets[i], Ok(#[trigger] v@[i])),
        Err(e) => exists|k: int| #[trigger] first_refused(sets, k, e),
    }
}

/// A set is accepted or refused, not both.
pub proof fn law_one_outcome(
    input: CentroidInput,
    v: Vec<Centroid>,
    e: CentroidInputError,
)
    ensures
        !(is_centroid_set(input, Ok(v)) && is_centroid_set(input, Err(e))),
{
}

fn parse_all(sets: &Vec<CentroidInput>) -> (r: Result<Vec<Vec<Centroid>>, CentroidInputError>)
    requires
        forall|i: int| 0 <= i < sets@.len() ==> (#[trigger] sets@[i]).wf(),
    ensures
        are_centroid_sets(sets@, r),
{
    let mut out: Vec<Vec<Centroid>> = Vec::new();
    let mut i: usize = 0;
    while i < sets.len()
        invariant
            forall|i: int| 0 <= i < sets@.len() ==> (#[trigger] sets@[i]).wf(),
            0 <= i <= sets@.len(),
            out@.len() == i,
            forall|k: int| 0 <= k < i ==> is_centroid_set(sets@[k], Ok(#[trigger] out@[k])),
        decreases sets@.len() - i,
    {
        match parse_centroids_single(&sets[i]) {
            Ok(v) => {
                out.push(v);
            },
            Err(e) => {
                proof {
                    assert forall|k: int| 0 <= k < i implies !exists|x: CentroidInputError|
                        is_centroid_set(#[trigger] sets@[k], Err(x)) by {
                        assert(is_centroid_set(sets@[k], Ok(out@[k])));
                    }
                    assert(first_refused(sets@, i as int, e));
                }
                return Err(e);
            },
        }
        i += 1;
    }
    Ok(out)
}

/// `r` is what a list of solves and the centroids that go with it come to.
pub open spec fn is_list_pairing<S, F>(
    items: Seq<SolveItem<S, F>>,
    centroids: Option<Vec<CentroidInput>>,
    r: Result<Pairing<S, F>, PairingError>,
) -> bool {
    if !all_solves(items) {
        r == Err::<Pairing<S, F>, PairingError>(PairingError::SolveItem)
    } else {
        match centroids {
            None => r == Err::<Pairing<S, F>, PairingError>(PairingError::NotAList),
            Some(sets) => if sets@.len() != items.len() {
                r == Err::<Pairing<S, F>, PairingError>(
                    PairingError::Lengths {
                        centroids: sets@.len() as usize,
                        solves: items.len() as usize,
                    },
                )
            } else {
                match r {
                    Ok((solves, all)) => {
                        &&& solves@.len() == items.len()
                        &&& forall|i: int|
                            0 <= i < solves@.len() ==> is_solve(items[i], #[trigger] solves@[i])
                        &&& are_centroid_sets(sets@, Ok(all))
                    },
                    Err(PairingError::Centroids(e)) => are_centroid_sets(sets@, Err(e)),
                    _ => false,
                }
            },
        }
    }
}

/// `r` is what solves and centroids come to.
pub open spec fn is_pairing<S, F>(
    solves: SolveInput<S, F>,
    centroids: CentroidSets,
    r: Result<Pairing<S, F>, PairingError>,
) -> bool {
    match solves {
        SolveInput::Single(s) => match r {
            Ok((solves, all)) => {
                &&& solves@ == seq![Ok::<S, F>(s)]
                &&& all@.len() == 1
                &&& is_centroid_set(centroids.whole, Ok(all@[0]))
            },
            Err(PairingError::Centroids(e)) => is_centroid_set(centroids.whole, Err(e)),
            _ => false,
        },
        SolveInput::List(items) => is_list_pairing(items@, centroids.items, r),
        SolveInput::Other => r == Err::<Pairing<S, F>, PairingError>(PairingError::SolveKind),
    }
}

/// Parse solves and the centroids that go with them.
///
/// Accepts either a single solution and one centroid set, or a list of solves
/// and a list of centroid sets of the same length (a one-element list is still
/// the list form). A list may mix solutions and failures.
pub fn parse_solve_results_and_centroids<S: Copy, F: Copy>(
    solves: &SolveInput<S, F>,
    centroids: &CentroidSets,
) -> (r: Result<Pairing<S, F>, PairingError>)
    requires
        centroids.wf(),
    ensures
        is_pairing(*solves, *centroids, r),
{
    let items = match solves {
        SolveInput::Single(s) => {
            return match parse_centroids_single(&centroids.whole) {
                Ok(v) => {
                    let mut list: Vec<Result<S, F>> = Vec::new();
                    list.push(Ok(*s));
                    let mut all: Vec<Vec<Centroid>> = Vec::new();
                    all.push(v);
                    Ok((list, all))
                },
                Err(e) => Err(PairingError::Centroids(e)),
            };
        },
        SolveInput::List(items) => items,
        SolveInput::Other => {
            return Err(PairingError::SolveKind);
        },
    };
    let mut list: Vec<Result<S, F>> = Vec::new();
    let mut i: usize = 0;
    while i < items.len()
        invariant
            *solves == SolveInput::List(*items),
            0 <= i <= items@.len(),
            list@.len() == i,
            forall|k: int| 0 <= k < i ==> is_solve(items@[k], #[trigger] list@[k]),
        decreases items@.len() - i,
    {
        match &items[i] {
            SolveItem::Solution(s) => {
                list.push(Ok(*s));
            },
            SolveItem::Failure(f) => {
                list.push(Err(*f));
            },
            SolveItem::Other => {
                return Err(PairingError::SolveItem);
            },
        }
        i += 1;
    }
    assert forall|k: int| 0 <= k < items@.len() implies !(#[trigger] items@[k] is Other) by {
        assert(is_solve(items@[k], list@[k]));
    }
    assert(all_solves(items@));
    let sets = match &centroids.items {
        Some(sets) => sets,
        None => {
            return Err(PairingError::NotAList);
        },
    };
    if sets.len() != list.len() {
        return Err(PairingError::Lengths { centroids: sets.len(), solves: list.len() });
    }
    match parse_all(sets) {
        Ok(all) => Ok((list, all)),
        Err(e) => Err(PairingError::Centroids(e)),
    }
}

/// The policy for blends that a name stands for.
pub fn parse_deblend(name: &str) -> (r: Option<DeblendMode>)
    ensures
        r == if name@ == "off"@ {
            Some(DeblendMode::Off)
        } else if name@ == "reject"@ {
            Some(DeblendMode::Reject)
        } else {
            None
        },
{
    if same_text(name, "off") {
        Some(DeblendMode::Off)
    } else if same_text(name, "reject") {
        Some(DeblendMode::Reject)
    } else {
        None
    }
}

/// The settings that a call of the extraction may make.
pub struct ExtractionArguments {
    pub sigma_threshold: F32,
    pub min_pixels: usize,
    pub max_pixels: usize,
    pub max_centroids: Option<usize>,
    pub local_bg_block_size: Option<u32>,
    pub max_elongation: Option<F32>,
    pub matched_filter_sigma: Option<F32>,
    pub max_sharpness: Option<F32>,
    pub saturation_level: Option<F32>,
    pub border_margin: u32,
}

/// The settings of an extraction: background clipping and connectivity are not
/// for the caller to choose. Nothing where there is no such policy for blends.
pub fn extraction_config(a: &ExtractionArguments, deblend: &str) -> (r: Option<
    CentroidExtractionConfig,
>)
    ensures
        r == if name_is_policy(deblend@) {
            Some(
                CentroidExtractionConfig {
                    sigma_threshold: a.sigma_threshold,
                    min_pixels: a.min_pixels,
                    max_pixels: a.max_pixels,
                    max_centroids: a.max_centroids,
                    sigma_clip_iterations: 5,
                    sigma_clip_factor: F32 { bits: 0x4040_0000 },
                    use_8_connectivity: true,
                    local_bg_block_size: a.local_bg_block_size,
                    max_elongation: a.max_elongation,
                    matched_filter_sigma: a.matched_filter_sigma,
                    max_sharpness: a.max_sharpness,
                    saturation_level: a.saturation_level,
                    deblend: if deblend@ == "reject"@ {
                        DeblendMode::Reject
                    } else {
                        DeblendMode::Off
                    },
                    border_margin: a.border_margin,
                },
            )
        } else {
            None
        },
{
    proof {
        reveal_strlit("off");
        reveal_strlit("reject");
        assert("off"@.len() != "reject"@.len());
    }
    let deblend = match parse_deblend(deblend) {
        Some(d) => d,
        None => {
            return None;
        },
    };
    Some(
        CentroidExtractionConfig {
            sigma_threshold: a.sigma_threshold,
            min_pixels: a.min_pixels,
            max_pixels: a.max_pixels,
            max_centroids: a.max_centroids,
            sigma_clip_iterations: 5,
            sigma_clip_factor: F32 { bits: 0x4040_0000 },
            use_8_connectivity: true,
            local_bg_block_size: a.local_bg_block_size,
            max_elongation: a.max_elongation,
            matched_filter_sigma: a.matched_filter_sigma,
            max_sharpness: a.max_sharpness,
            saturation_level: a.saturation_level,
            deblend,
            border_margin: a.border_margin,
        },
    )
}

/// The text names a policy for blends.
pub open spec fn name_is_policy(name: Seq<char>) -> bool {
    name == "off"@ || name == "reject"@
}

/// The extraction result as it is handed to callers, in double precision.
pub struct ExtractionData {
    pub centroids: Vec<Centroid>,
    pub image_width: u32,
    pub image_height: u32,
    pub background_mean: F64,
    pub background_sigma: F64,
    pub threshold: F64,
    pub num_blobs_raw: u64,
}

impl ExtractionData {
    /// Widen the numbers of a result. None of them changes.
    pub fn from_result(r: CentroidExtractionResult) -> (d: Self)
        ensures
            d.centroids == r.centroids,
            d.image_width == r.image_width,
            d.image_height == r.image_height,
            same_number(r.background_mean, d.background_mean),
            same_number(r.background_sigma, d.background_sigma),
            same_number(r.threshold, d.threshold),
            d.num_blobs_raw == r.num_blobs_raw,
    {
        ExtractionData {
            centroids: r.centroids,
            image_width: r.image_width,
            image_height: r.image_height,
            background_mean: r.background_mean.widen(),
            background_sigma: r.background_sigma.widen(),
            threshold: r.threshold.widen(),
            num_blobs_raw: r.num_blobs_raw as u64,
        }
    }
}

/// The kinds of error that the library's callers can meet.
#[derive(Clone, Copy, Debug, PartialEq, Eq, Structural)]
pub enum ErrorKind {
    InvalidInput,
    InvalidCatalog,
    Io,
    Encoding,
}

/// The exceptions that a Python caller gets.
#[derive(Clone, Copy, Debug, PartialEq, Eq, Structural)]
pub enum Exception {
    Value,
    Io,
    Runtime,
}

/// The exception for an error, and the words in front of its message: bad input
/// is a value error, a file problem an I/O error.
pub fn exception_for(kind: ErrorKind) -> (r: (Exception, &'static str))
    ensures
        r.0 == match kind {
            ErrorKind::InvalidInput | ErrorKind::InvalidCatalog => Exception::Value,
            ErrorKind::Io => Exception::Io,
            ErrorKind::Encoding => Exception::Runtime,
        },
        r.1@ == match kind {
            ErrorKind::InvalidInput | ErrorKind::Io => ""@,
            ErrorKind::InvalidCatalog => "invalid catalog: "@,
            ErrorKind::Encoding => "postcard error: "@,
        },
{
    match kind {
        ErrorKind::InvalidInput => (Exception::Value, ""),
        ErrorKind::InvalidCatalog => (Exception::Value, "invalid catalog: "),
        ErrorKind::Io => (Exception::Io, ""),
        ErrorKind::Encoding => (Exception::Runtime, "postcard error: "),
    }
}

/// A shape and a width with a height say the same thing, and the two forms
/// exclude each other.
pub proof fn law_dimension_forms(w: u32, h: u32, v: Option<u32>)
    ensures
        given_dims(Some((h, w)), None, None) == given_dims(None, Some(w), Some(h)),
        given_dims(Some((h, w)), Some(w), v) is Err,
        given_dims(Some((h, w)), v, Some(h)) is Err,
        given_dims(None, None, v) is Err,
        given_dims(None, v, None) is Err,
{
}

/// A shape is height first and width second, and what is resolved is width first
/// and height second, where neither is zero.
pub proof fn law_shape_is_height_first(
    w: u32,
    h: u32,
    shape: Result<(u32, u32), DimensionError>,
    sides: Result<(u32, u32), DimensionError>,
)
    requires
        call_ensures(resolve_image_dims, (Some((h, w)), None, None), shape),
        call_ensures(resolve_image_dims, (None, Some(w), Some(h)), sides),
    ensures
        shape == sides,
        w > 0 && h > 0 ==> sides == Ok::<(u32, u32), DimensionError>((w, h)),
        w == 0 || h == 0 ==> sides == Err::<(u32, u32), DimensionError>(
            DimensionError::Zero { width: w, height: h },
        ),
{
}

/// The kinds of number that are read are those whose letter and size say so.
pub proof fn law_pixel_kinds(kind: Seq<char>, itemsize: usize)
    ensures
        pixel_kind(kind, itemsize) is Some ==> kind.len() == 1,
        pixel_kind(kind, itemsize) == Some(PixelKind::F64) <==> kind == seq!['f'] && itemsize == 8,
        pixel_kind(kind, itemsize) == Some(PixelKind::F32) <==> kind == seq!['f'] && itemsize == 4,
        pixel_kind(kind, itemsize) == Some(PixelKind::U16) <==> kind == seq!['u'] && itemsize == 2,
        pixel_kind(kind, itemsize) == Some(PixelKind::I16) <==> kind == seq!['i'] && itemsize == 2,
        pixel_kind(kind, itemsize) == Some(PixelKind::U8) <==> kind == seq!['u'] && itemsize == 1,
{
    assert(seq!['f'][0] == 'f' && seq!['u'][0] == 'u' && seq!['i'][0] == 'i');
}

/// Centroids that were written down as a table, x, y and mass in a row, read back
/// as those centroids, in order.
pub proof fn law_table_reads_back(t: Table, v: Vec<Centroid>, i: int, x: F32, y: F32, m: F32)
    requires
        call_ensures(
            parse_centroids_single,
            (&CentroidInput::Array(Some(t)),),
            Ok::<Vec<Centroid>, CentroidInputError>(v),
        ),
        t.columns >= 3,
        0 <= i < v@.len(),
        !x.nan(),
        !y.nan(),
        !m.nan(),
        same_number(x, t.data@[i * t.columns]),
        same_number(y, t.data@[i * t.columns + 1]),
        same_number(m, t.data@[i * t.columns + 2]),
    ensures
        v@.len() == t.rows,
        v@[i] == (Centroid { x, y, mass: Some(m), cov: None }),
{
    assert(is_row(t, i, v@[i]));
    law_narrow_undoes_widen(x, t.data@[i * t.columns], v@[i].x);
    law_narrow_undoes_widen(y, t.data@[i * t.columns + 1], v@[i].y);
    law_narrow_undoes_widen(m, t.data@[i * t.columns + 2], v@[i].mass->0);
}

/// A list of centroids is taken as it is, and refused where an item is none.
pub proof fn law_list_is_taken_as_it_is(
    items: Vec<Option<Centroid>>,
    r: Result<Vec<Centroid>, CentroidInputError>,
)
    requires
        call_ensures(parse_centroids_single, (&CentroidInput::List(items),), r),
    ensures
        r matches Ok(v) ==> v@.len() == items@.len() && forall|i: int|
            0 <= i < items@.len() ==> #[trigger] items@[i] == Some(v@[i]),
        r is Err <==> exists|i: int| 0 <= i < items@.len() && #[trigger] items@[i] is None,
        r is Err ==> r == Err::<Vec<Centroid>, CentroidInputError>(CentroidInputError::Item),
{
    if r is Ok {
        let v = r->Ok_0;
        assert forall|i: int| 0 <= i < items@.len() implies #[trigger] items@[i] == Some(
            v@[i],
        ) by {
            assert(Some(v@[i]) == items@[i]);
        }
    }
}

/// Solves and centroids go together by their places: the first solve with the
/// first set of centroids, and so on, none left over.
pub proof fn law_pairs_keep_their_places<S: Copy, F: Copy>(
    items: Vec<SolveItem<S, F>>,
    sets: Vec<CentroidInput>,
    whole: CentroidInput,
    solves: Vec<Result<S, F>>,
    all: Vec<Vec<Centroid>>,
    i: int,
)
    requires
        call_ensures(
            parse_solve_results_and_centroids::<S, F>,
            (&SolveInput::List(items), &(CentroidSets { whole, items: Some(sets) })),
            Ok::<Pairing<S, F>, PairingError>((solves, all)),
        ),
        0 <= i < items@.len(),
    ensures
        solves@.len() == items@.len(),
        all@.len() == items@.len(),
        sets@.len() == items@.len(),
        match items@[i] {
            SolveItem::Solution(s) => solves@[i] == Ok::<S, F>(s),
            SolveItem::Failure(f) => solves@[i] == Err::<S, F>(f),
            SolveItem::Other => false,
        },
        is_centroid_set(sets@[i], Ok(all@[i])),
{
    assert(is_solve(items@[i], solves@[i]));
    assert(is_centroid_set(sets@[i], Ok(all@[i])));
}

/// An image keeps its shape, as many columns wide as the array has and as many rows
/// high, and its pixels keep their places and their values: integers and singles
/// exactly, doubles rounded, so that a double which is a single comes out as that
/// single.
pub proof fn law_pixels_keep_their_values(
    p: Pixels,
    rows: usize,
    columns: usize,
    image: (Vec<F32>, u32, u32),
    i: int,
    s: F32,
)
    requires
        call_ensures(image_to_f32, (&p, rows, columns), image),
        0 <= i < image.0@.len(),
        !s.nan(),
    ensures
        columns <= u32::MAX ==> image.1 == columns,
        rows <= u32::MAX ==> image.2 == rows,
        match p {
            Pixels::F64(v) => image.0@.len() == v@.len() && (same_number(s, v@[i]) ==> image.0@[i]
                == s),
            Pixels::F32(v) => image.0@ == v@,
            Pixels::U8(v) => image.0@.len() == v@.len() && (s.is_integer(v@[i] as int)
                ==> image.0@[i] == s),
            Pixels::U16(v) => image.0@.len() == v@.len() && (s.is_integer(v@[i] as int)
                ==> image.0@[i] == s),
            Pixels::I16(v) => image.0@.len() == v@.len() && (s.is_integer(v@[i] as int)
                ==> image.0@[i] == s),
        },
{
    let out = image.0@[i];
    assert(p.is_single(i, out));
    match p {
        Pixels::F64(v) => {
            if same_number(s, v@[i]) {
                law_narrow_undoes_widen(s, v@[i], out);
            }
        },
        Pixels::F32(v) => {
            assert forall|k: int| 0 <= k < v@.len() implies image.0@[k] == v@[k] by {
                assert(p.is_single(k, image.0@[k]));
            }
            assert(image.0@ =~= v@);
        },
        Pixels::U8(v) => {
            if s.is_integer(v@[i] as int) {
                lemma_integer_unique(s, out, v@[i] as int);
            }
        },
        Pixels::U16(v) => {
            if s.is_integer(v@[i] as int) {
                lemma_integer_unique(s, out, v@[i] as int);
            }
        },
        Pixels::I16(v) => {
            if s.is_integer(v@[i] as int) {
                lemma_integer_unique(s, out, v@[i] as int);
            }
        },
    }
}

/// An angle in radians comes through as it is, where it is a single; one in
/// degrees is converted; and the two ways to ask for an angle agree wherever one
/// is given.
pub proof fn law_angles<R: Fn(F32) -> F32>(
    to_radians: R,
    deg: Option<F64>,
    rad: Option<F64>,
    s: F32,
    at_most: Result<Option<F32>, AngleError>,
    exactly: Result<F32, AngleError>,
)
    requires
        call_ensures(at_most_one_angle_rad::<R>, (deg, rad, &to_radians), at_most),
        call_ensures(exactly_one_angle_rad::<R>, (deg, rad, &to_radians), exactly),
        !s.nan(),
        deg matches Some(d) ==> same_number(s, d),
        rad matches Some(d) ==> same_number(s, d),
    ensures
        at_most is Ok <==> deg is None || rad is None,
        exactly is Ok <==> (deg is None) != (rad is None),
        deg is None && rad is None ==> at_most == Ok::<Option<F32>, AngleError>(None) && exactly
            == Err::<F32, AngleError>(AngleError::Neither),
        deg is None && rad is Some ==> at_most == Ok::<Option<F32>, AngleError>(Some(s)) && exactly
            == Ok::<F32, AngleError>(s),
        deg is Some && rad is None ==> {
            &&& at_most matches Ok(Some(a)) && call_ensures(to_radians, (s,), a)
            &&& exactly matches Ok(a) && call_ensures(to_radians, (s,), a)
        },
{
    match (deg, rad) {
        (Some(d), None) => {
            let a = at_most->Ok_0->0;
            let t = choose|t: F32| #[trigger]
                is_narrowed(d, t) && call_ensures(to_radians, (t,), a);
            law_narrow_undoes_widen(s, d, t);
            let b = exactly->Ok_0;
            let u = choose|u: F32| #[trigger]
                is_narrowed(d, u) && call_ensures(to_radians, (u,), b);
            law_narrow_undoes_widen(s, d, u);
        },
        (None, Some(d)) => {
            law_narrow_undoes_widen(s, d, at_most->Ok_0->0);
            law_narrow_undoes_widen(s, d, exactly->Ok_0);
        },
        _ => {},
    }
}

/// The settings that an extraction has by default are those of a call that passes
/// them on and leaves blends alone; and each setting that a call passes arrives
/// under its own name.
pub proof fn law_arguments_arrive(
    a: ExtractionArguments,
    name: &str,
    plain: CentroidExtractionConfig,
    r: Option<CentroidExtractionConfig>,
)
    requires
        call_ensures(extraction_config, (&a, name), r),
        call_ensures(
            <CentroidExtractionConfig as Default>::default,
            (),
            plain,
        ),
    ensures
        r is Some <==> name@ == seq!['o', 'f', 'f'] || name@ == seq![
            'r',
            'e',
            'j',
            'e',
            'c',
            't',
        ],
        r matches Some(c) ==> {
            &&& c.deblend == DeblendMode::Reject <==> name@.len() == 6
            &&& c.sigma_clip_iterations == plain.sigma_clip_iterations
            &&& c.sigma_clip_factor == plain.sigma_clip_factor
            &&& c.use_8_connectivity == plain.use_8_connectivity
            &&& c.sigma_threshold == a.sigma_threshold
            &&& c.min_pixels == a.min_pixels
            &&& c.max_pixels == a.max_pixels
            &&& c.max_centroids == a.max_centroids
            &&& c.local_bg_block_size == a.local_bg_block_size
            &&& c.max_elongation == a.max_elongation
            &&& c.matched_filter_sigma == a.matched_filter_sigma
            &&& c.max_sharpness == a.max_sharpness
            &&& c.saturation_level == a.saturation_level
            &&& c.border_margin == a.border_margin
        },
{
    reveal_strlit("off");
    reveal_strlit("reject");
    assert("off"@ =~= seq!['o', 'f', 'f']);
    assert("reject"@ =~= seq!['r', 'e', 'j', 'e', 'c', 't']);
    assert("off"@.len() == 3 && "reject"@.len() == 6);
}

/// What is handed to callers stands for the numbers of the result: rounded back,
/// each is the number it came from.
pub proof fn law_result_is_handed_on(
    r: CentroidExtractionResult,
    d: ExtractionData,
    mean: F32,
    sigma: F32,
    threshold: F32,
)
    requires
        call_ensures(ExtractionData::from_result, (r,), d),
        is_narrowed(d.background_mean, mean),
        is_narrowed(d.background_sigma, sigma),
        is_narrowed(d.threshold, threshold),
    ensures
        d.centroids@ == r.centroids@,
        d.image_width == r.image_width,
        d.image_height == r.image_height,
        d.num_blobs_raw == r.num_blobs_raw,
        !r.background_mean.nan() ==> mean == r.background_mean,
        !r.background_sigma.nan() ==> sigma == r.background_sigma,
        !r.threshold.nan() ==> threshold == r.threshold,
{
    if !r.background_mean.nan() {
        law_narrow_undoes_widen(r.background_mean, d.background_mean, mean);
    }
    if !r.background_sigma.nan() {
        law_narrow_undoes_widen(r.background_sigma, d.background_sigma, sigma);
    }
    if !r.threshold.nan() {
        law_narrow_undoes_widen(r.threshold, d.threshold, threshold);
    }
}

/// Bad input of either sort is a value error and only that, a file problem an I/O
/// error and only that; and the words in front of a message tell a bad catalog
/// from other bad input.
pub proof fn law_exceptions(kind: ErrorKind, r: (Exception, &'static str))
    requires
        call_ensures(exception_for, (kind,), r),
    ensures
        r.0 == Exception::Io <==> kind == ErrorKind::Io,
        r.0 == Exception::Value <==> kind == ErrorKind::InvalidInput || kind
            == ErrorKind::InvalidCatalog,
        r.1@.len() == 0 <==> kind == ErrorKind::InvalidInput || kind == ErrorKind::Io,
        r.1@.len() > 0 ==> (r.1@[0] == 'i' <==> kind == ErrorKind::InvalidCatalog),
{
    reveal_strlit("");
    reveal_strlit("invalid catalog: ");
    reveal_strlit("postcard error: ");
}

/// An array is read where it has two dimensions, the machine's byte order, and a
/// kind of number that pixels may have; one in the other byte order is converted
/// first, whatever it holds.
pub proof fn law_images_that_are_read(
    info: ArrayInfo<'_>,
    r: Result<ImageAction, ImageError>,
)
    requires
        call_ensures(image_action, (Some(info),), r),
    ensures
        r == Ok::<ImageAction, ImageError>(ImageAction::ToNative) <==> info.ndim == 2
            && !info.is_native,
        r matches Ok(ImageAction::Read(k)) ==> info.is_native && match k {
            PixelKind::F64 => info.kind@ == seq!['f'] && info.itemsize == 8,
            PixelKind::F32 => info.kind@ == seq!['f'] && info.itemsize == 4,
            PixelKind::U8 => info.kind@ == seq!['u'] && info.itemsize == 1,
            PixelKind::U16 => info.kind@ == seq!['u'] && info.itemsize == 2,
            PixelKind::I16 => info.kind@ == seq!['i'] && info.itemsize == 2,
        },
        r == Err::<ImageAction, ImageError>(ImageError::Kind) ==> {
            &&& info.ndim == 2
            &&& info.is_native
            &&& !(info.kind@ == seq!['f'] && (info.itemsize == 4 || info.itemsize == 8))
            &&& !(info.kind@ == seq!['u'] && (info.itemsize == 1 || info.itemsize == 2))
            &&& !(info.kind@ == seq!['i'] && info.itemsize == 2)
        },
        r matches Err(ImageError::Dimensions(n)) ==> n == info.ndim && n != 2,
        !(r == Err::<ImageAction, ImageError>(ImageError::NotAnArray)),
{
    law_pixel_kinds(info.kind@, info.itemsize);
}

} // verus!
