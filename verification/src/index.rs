use crate::error::{invalid_index, Error, ErrorModel};
use crate::pe::{va_of, Function, FunctionModel, ImageModel, PeImage};
use crate::sorted::strictly_increasing;
use crate::text::{concat, decimal, decimal_string};
use vstd::prelude::*;

verus! {

/// The four bytes that open a serialized index: `RDXI`.
pub const MAGIC: [u8; 4] = [0x52, 0x44, 0x58, 0x49];

/// The version of the serialized index format.
pub const FORMAT_VERSION: u8 = 1;

/// A compact, reusable cache of recovered functions from one PE image.
#[derive(Debug)]
pub struct AnalysisIndex {
    image_base: u64,
    size_of_image: u32,
    functions: Vec<Function>,
}

/// The mathematical value of an [`AnalysisIndex`].
pub struct IndexModel {
    pub image_base: u64,
    pub size_of_image: u32,
    pub functions: Seq<FunctionModel>,
}

impl View for AnalysisIndex {
    type V = IndexModel;

    closed spec fn view(&self) -> IndexModel {
        IndexModel {
            image_base: self.image_base,
            size_of_image: self.size_of_image,
            functions: self.functions@.map_values(|f: Function| f@),
        }
    }
}

impl Clone for AnalysisIndex {
    fn clone(&self) -> (r: Self)
        ensures
            r@ == self@,
    {
        let functions = self.functions.clone();
        proof {
            assert(functions@.map_values(|f: Function| f@) =~= self.functions@.map_values(
                |f: Function| f@,
            ));
        }
        AnalysisIndex { image_base: self.image_base, size_of_image: self.size_of_image, functions }
    }
}

/// The function covers `rva`: it starts at or before it, and `rva` lies
/// within its byte size.
pub open spec fn covers(f: FunctionModel, rva: u32) -> bool {
    rva >= f.rva && rva - f.rva < f.byte_size
}

/// The index of the first function at or after `i` that covers `rva`.
pub open spec fn first_covering(functions: Seq<FunctionModel>, rva: u32, i: nat) -> Option<nat>
    decreases functions.len() - i,
{
    if i >= functions.len() {
        None
    } else if covers(functions[i as int], rva) {
        Some(i)
    } else {
        first_covering(functions, rva, i + 1)
    }
}

impl IndexModel {
    /// The function of the index containing `rva`, or the error.
    pub open spec fn function_at(self, rva: u32) -> Result<FunctionModel, ErrorModel> {
        if rva >= self.size_of_image {
            Err(ErrorModel::OutsideCode(va_of(self.image_base, rva)))
        } else {
            match first_covering(self.functions, rva, 0) {
                None => Err(ErrorModel::NoFunction(va_of(self.image_base, rva))),
                Some(k) => Ok(self.functions[k as int]),
            }
        }
    }

    /// The function of the index containing the virtual address `va`, or
    /// the error.
    pub open spec fn function_at_va(self, va: u64) -> Result<FunctionModel, ErrorModel> {
        if va < self.image_base || va - self.image_base > u32::MAX {
            Err(ErrorModel::OutsideCode(va))
        } else {
            self.function_at((va - self.image_base) as u32)
        }
    }
}

impl AnalysisIndex {
    /// Build an index from its parts: the image base, the image size and the
    /// recovered functions in address order.
    pub fn new(image_base: u64, size_of_image: u32, functions: Vec<Function>) -> (r: Self)
        ensures
            r@ == (IndexModel {
                image_base,
                size_of_image,
                functions: functions@.map_values(|f: Function| f@),
            }),
    {
        AnalysisIndex { image_base, size_of_image, functions }
    }

    /// Build an index by recovering all functions from a parsed image.
    pub fn from_image(image: &PeImage) -> (r: Self)
        ensures
            r@ == (IndexModel {
                image_base: image@.image_base,
                size_of_image: image@.size_of_image,
                functions: image@.recoverable(),
            }),
    {
        AnalysisIndex {
            image_base: image.image_base(),
            size_of_image: image.size_of_image(),
            functions: image.recoverable_functions(),
        }
    }

    /// Return the preferred image base captured in the index.
    pub fn image_base(&self) -> (r: u64)
        ensures
            r == self@.image_base,
    {
        self.image_base
    }

    /// Return the mapped image size captured in the index.
    pub fn size_of_image(&self) -> (r: u32)
        ensures
            r == self@.size_of_image,
    {
        self.size_of_image
    }

    /// Return all recovered functions in address order.
    pub fn functions(&self) -> (r: &[Function])
        ensures
            r@.map_values(|f: Function| f@) == self@.functions,
    {
        self.functions.as_slice()
    }

    /// Return the function containing a virtual address.
    pub fn function_at_va(&self, va: u64) -> (r: Result<Function, Error>)
        ensures
            match self@.function_at_va(va) {
                Ok(m) => r matches Ok(f) && f@ == m,
                Err(e) => r matches Err(x) && x@ == e,
            },
    {
        let offset = match va.checked_sub(self.image_base) {
            Some(v) => v,
            None => return Err(Error::OutsideCode(va)),
        };
        if offset > u32::MAX as u64 {
            return Err(Error::OutsideCode(va));
        }
        assert(self@.function_at_va(va) == self@.function_at(offset as u32));
        self.function_at_rva(offset as u32)
    }

    /// Return the function containing an RVA.
    pub fn function_at_rva(&self, rva: u32) -> (r: Result<Function, Error>)
        ensures
            match self@.function_at(rva) {
                Ok(m) => r matches Ok(f) && f@ == m,
                Err(e) => r matches Err(x) && x@ == e,
            },
    {
        if rva >= self.size_of_image {
            return Err(Error::OutsideCode(self.image_base.wrapping_add(rva as u64)));
        }
        let mut i: usize = 0;
        while i < self.functions.len()
            invariant
                i <= self.functions@.len(),
                rva < self@.size_of_image,
                self@.functions == self.functions@.map_values(|f: Function| f@),
                first_covering(self@.functions, rva, 0) == first_covering(self@.functions, rva, i as nat),
            decreases self.functions@.len() - i,
        {
            let function = &self.functions[i];
            assert(self@.functions[i as int] == function@);
            if rva >= function.rva && rva.saturating_sub(function.rva) < function.byte_size {
                assert(first_covering(self@.functions, rva, i as nat) == Some(i as nat));
                return Ok(function.clone());
            }
            i = i + 1;
        }
        Err(Error::NoFunction(self.image_base.wrapping_add(rva as u64)))
    }
}

/// The serialized form of an index: the magic bytes, the format version and
/// the payload.
pub open spec fn framed(payload: Seq<u8>) -> Seq<u8> {
    MAGIC@ + seq![FORMAT_VERSION] + payload
}

/// The payload of a serialized index, or the error for bytes that do not
/// open with the magic bytes and the supported version.
pub open spec fn spec_unframe(bytes: Seq<u8>) -> Result<Seq<u8>, ErrorModel> {
    if bytes.len() < 5 || bytes.subrange(0, 4) != MAGIC@ {
        Err(ErrorModel::InvalidIndex("missing RDXI header"@))
    } else if bytes[4] != FORMAT_VERSION {
        Err(ErrorModel::InvalidIndex("unsupported format version "@ + decimal(bytes[4] as nat)))
    } else {
        Ok(bytes.subrange(5, bytes.len() as int))
    }
}

/// Frames an encoded index payload: the magic bytes, the format version,
/// then the payload.
pub fn frame_index(payload: &[u8]) -> (r: Vec<u8>)
    ensures
        r@ == framed(payload@),
{
    let mut bytes: Vec<u8> = Vec::new();
    bytes.push(MAGIC[0]);
    bytes.push(MAGIC[1]);
    bytes.push(MAGIC[2]);
    bytes.push(MAGIC[3]);
    bytes.push(FORMAT_VERSION);
    let mut i: usize = 0;
    while i < payload.len()
        invariant
            i <= payload@.len(),
            bytes@ == MAGIC@ + seq![FORMAT_VERSION] + payload@.take(i as int),
        decreases payload@.len() - i,
    {
        bytes.push(payload[i]);
        proof {
            assert(payload@.take(i + 1) =~= payload@.take(i as int).push(payload@[i as int]));
        }
        i = i + 1;
    }
    proof {
        assert(payload@.take(i as int) =~= payload@);
    }
    bytes
}

/// Checks the magic bytes and version of a serialized index and returns its
/// payload.
pub fn unframe_index(bytes: &[u8]) -> (r: Result<&[u8], Error>)
    ensures
        match spec_unframe(bytes@) {
            Ok(p) => r matches Ok(x) && x@ == p,
            Err(e) => r matches Err(x) && x@ == e,
        },
{
    if bytes.len() < 5 || bytes[0] != MAGIC[0] || bytes[1] != MAGIC[1] || bytes[2] != MAGIC[2]
        || bytes[3] != MAGIC[3] {
        proof {
            if bytes@.len() >= 5 && bytes@.subrange(0, 4) == MAGIC@ {
                assert(bytes@.subrange(0, 4)[0] == bytes@[0]);
                assert(bytes@.subrange(0, 4)[1] == bytes@[1]);
                assert(bytes@.subrange(0, 4)[2] == bytes@[2]);
                assert(bytes@.subrange(0, 4)[3] == bytes@[3]);
            }
        }
        return Err(invalid_index("missing RDXI header"));
    }
    assert(bytes@.subrange(0, 4) =~= MAGIC@);
    if bytes[4] != FORMAT_VERSION {
        let message = concat("unsupported format version ", decimal_string(bytes[4] as u64).as_str());
        return Err(Error::InvalidIndex(message));
    }
    Ok(&bytes[5..bytes.len()])
}

/// Unframing a framed payload gives the payload back.
pub proof fn lemma_unframe_framed(payload: Seq<u8>)
    ensures
        spec_unframe(framed(payload)) == Ok::<Seq<u8>, ErrorModel>(payload),
{
    let b = framed(payload);
    assert(b.subrange(0, 4) =~= MAGIC@);
    assert(b.subrange(5, b.len() as int) =~= payload);
}


/// The function ranges of the image do not overlap: each ends at or before
/// the next one starts.
pub open spec fn ranges_disjoint(img: ImageModel) -> bool {
    forall|i: int, j: int| 0 <= i < j < img.ranges.len() ==> (#[trigger] img.ranges[i]).1 <= (#[trigger] img.ranges[j]).0
}

/// With non-empty ranges that do not overlap, the range search from `i`
/// finds the one range that contains a point inside it.
proof fn lemma_range_found(img: ImageModel, x: u32, j: int, i: nat)
    requires
        ranges_disjoint(img),
        i <= j < img.ranges.len(),
        img.ranges[j].0 <= x < img.ranges[j].1,
    ensures
        img.range_index_from(x, i) == Some(j as nat),
    decreases j - i,
{
    if i < j {
        assert(img.ranges[i as int].1 <= img.ranges[j].0);
        lemma_range_found(img, x, j, i + 1);
    }
}

/// The range that the search from `i` finds contains the point.
proof fn lemma_range_index(img: ImageModel, x: u32, i: nat)
    ensures
        img.range_index_from(x, i) matches Some(k) ==> i <= k < img.ranges.len() && img.ranges[k as int].0
            <= x < img.ranges[k as int].1,
    decreases img.ranges.len() - i,
{
    if i < img.ranges.len() {
        lemma_range_index(img, x, i + 1);
    }
}

/// The first function at or after `i` that covers `rva` covers it, and no
/// function before it from `i` on does.
proof fn lemma_first_covering(functions: Seq<FunctionModel>, rva: u32, i: nat)
    ensures
        first_covering(functions, rva, i) matches Some(p) ==> i <= p < functions.len() && covers(
            functions[p as int],
            rva,
        ),
        first_covering(functions, rva, i) is None ==> forall|q: int|
            i <= q < functions.len() ==> !covers(#[trigger] functions[q], rva),
    decreases functions.len() - i,
{
    if i < functions.len() {
        lemma_first_covering(functions, rva, i + 1);
    }
}

/// The functions decoded from the first `m` ranges: each one that covers
/// `rva` is the function `g` of range `k`, and once range `k` is among
/// them, one of them covers `rva`.
proof fn lemma_recovered_cover(img: ImageModel, rva: u32, k: int, g: FunctionModel, m: nat)
    requires
        ranges_disjoint(img),
        forall|j: int| 0 <= j < img.ranges.len() ==> (#[trigger] img.ranges[j]).0 < img.ranges[j].1
            && img.executable_rva(img.ranges[j].0),
        0 <= k < img.ranges.len(),
        img.ranges[k].0 <= rva < img.ranges[k].1,
        img.function_at(img.ranges[k].0) == Ok::<FunctionModel, ErrorModel>(g),
        m <= img.ranges.len(),
    ensures
        forall|q: int|
            0 <= q < img.functions_upto(m).len() && covers(#[trigger] img.functions_upto(m)[q], rva) ==> img.functions_upto(m)[q] == g,
        m > k ==> exists|q: int| 0 <= q < img.functions_upto(m).len() && covers(#[trigger] img.functions_upto(m)[q], rva),
    decreases m,
{
    if m > 0 {
        lemma_recovered_cover(img, rva, k, g, (m - 1) as nat);
        let prev = img.functions_upto((m - 1) as nat);
        let cur = img.functions_upto(m);
        let j = m - 1;
        let start = img.ranges[j as int].0;
        lemma_range_found(img, start, j as int, 0);
        match img.function_at(start) {
            Ok(f) => {
                assert(cur == prev + seq![f]);
                if j == k {
                    assert(f == g);
                } else if covers(f, rva) {
                    if (j as int) < k {
                        assert(img.ranges[j as int].1 <= img.ranges[k].0);
                    } else {
                        assert(img.ranges[k].1 <= img.ranges[j as int].0);
                    }
                }
                assert forall|q: int| 0 <= q < cur.len() && covers(#[trigger] cur[q], rva) implies cur[q] == g by {
                    if q < prev.len() {
                        assert(cur[q] == prev[q]);
                    }
                }
                if m > k {
                    if j == k {
                        assert(cur[prev.len() as int] == g);
                        assert(covers(cur[prev.len() as int], rva));
                    } else {
                        let q = choose|q: int| 0 <= q < prev.len() && covers(#[trigger] prev[q], rva);
                        assert(cur[q] == prev[q]);
                    }
                }
            },
            Err(_) => {
                assert(cur =~= prev);
            },
        }
    }
}

/// The heuristic ranges of the first `k` increasing starts do not overlap,
/// and end at or before the next start.
proof fn lemma_heuristic_disjoint(img: ImageModel, starts: Seq<u32>, k: nat)
    requires
        strictly_increasing(starts),
        k <= starts.len(),
    ensures
        forall|i: int, j: int|
            0 <= i < j < img.heuristic_ranges(starts, k).len() ==> (#[trigger] img.heuristic_ranges(starts, k)[i]).1
                <= (#[trigger] img.heuristic_ranges(starts, k)[j]).0,
        k < starts.len() ==> forall|p: int|
            0 <= p < img.heuristic_ranges(starts, k).len() ==> (#[trigger] img.heuristic_ranges(starts, k)[p]).1
                <= starts[k as int],
    decreases k,
{
    if k > 0 {
        lemma_heuristic_disjoint(img, starts, (k - 1) as nat);
        let a = img.heuristic_ranges(starts, (k - 1) as nat);
        let b = img.heuristic_range(starts, k - 1);
        let h = img.heuristic_ranges(starts, k);
        assert(h == a + b);
        assert forall|i: int, j: int| 0 <= i < j < h.len() implies (#[trigger] h[i]).1 <= (#[trigger] h[j]).0 by {
            assert(h[i] == a[i]);
            if j < a.len() {
                assert(h[j] == a[j]);
            } else {
                assert(h[j] == b[j - a.len()]);
            }
        }
        if k < starts.len() {
            assert(starts[k - 1] < starts[k as int]);
            assert forall|p: int| 0 <= p < h.len() implies (#[trigger] h[p]).1 <= starts[k as int] by {
                if p < a.len() {
                    assert(h[p] == a[p]);
                } else {
                    assert(h[p] == b[p - a.len()]);
                }
            }
        }
    }
}

/// Ranges recovered without a valid exception table do not overlap.
proof fn lemma_heuristic_ranges_disjoint(img: ImageModel)
    requires
        img.recovered_ranges(img.ranges),
        !img.has_pdata(),
    ensures
        ranges_disjoint(img),
{
    let starts = choose|starts: Seq<u32>|
        strictly_increasing(starts) && (forall|x: u32| #[trigger] starts.contains(x) <==> img.start_candidate(x))
            && img.ranges == img.heuristic_ranges(starts, starts.len());
    lemma_heuristic_disjoint(img, starts, starts.len());
}

/// The index built from an image answers a lookup by RVA as the image
/// does, wherever the image finds a function, for an image whose function
/// ranges do not overlap: every image without a valid exception table, and
/// those whose exception-table entries do not overlap.
pub proof fn lemma_index_agrees_with_image(img: ImageModel, rva: u32)
    requires
        img.recovered_ranges(img.ranges),
        forall|i: int|
            0 <= i < img.sections.len() ==> (#[trigger] img.sections[i]).virtual_address
                + img.sections[i].mapped_size() <= img.size_of_image,
        !img.has_pdata() || ranges_disjoint(img),
        img.function_at(rva) is Ok,
    ensures
        (IndexModel {
            image_base: img.image_base,
            size_of_image: img.size_of_image,
            functions: img.recoverable(),
        }).function_at(rva) == img.function_at(rva),
{
    img.lemma_recovered_ranges_shape(img.ranges);
    if !img.has_pdata() {
        lemma_heuristic_ranges_disjoint(img);
    }
    let g = img.function_at(rva)->Ok_0;
    let k = img.range_index_from(rva, 0)->Some_0 as int;
    lemma_range_index(img, rva, 0);
    let start = img.ranges[k].0;
    lemma_range_found(img, start, k, 0);
    assert(img.function_at(start) == img.function_at(rva));
    let n = img.ranges.len();
    lemma_recovered_cover(img, rva, k, g, n);
    let fs = img.recoverable();
    lemma_first_covering(fs, rva, 0);
    let i = choose|i: int| 0 <= i < img.sections.len() && #[trigger] img.sections[i].executable()
        && img.sections[i].contains(rva);
    assert(img.sections[i].contains(rva));
    assert(rva < img.size_of_image);
}

} // verus!
