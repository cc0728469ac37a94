//! Batches of evaluated elements, and which of their coordinates are supported.

use vstd::prelude::*;
use vstd::slice::slice_to_vec;
use vstd::string::StringExecFns;
use crate::element::{filled, TensorElement};
use crate::error::{Error, Result};
use crate::request::{coords_of, BatchRequest, request_coords, request_fits};
use crate::schema::{Layout, product_fits};

verus! {

/// The most elements that one batch may hold, whatever storage blocks hold.
pub const MAX_BATCH_ELEMENTS: usize = 4096;

/// `<[T]>::swap`: the items at two places change places, and the others stay.
#[verifier::external_body]
fn swap_items<T>(items: &mut Vec<T>, a: usize, b: usize)
    requires
        a < old(items)@.len(),
        b < old(items)@.len(),
    ensures
        final(items)@ == old(items)@.update(a as int, old(items)@[b as int]).update(
            b as int,
            old(items)@[a as int],
        ),
{
    items.swap(a, b)
}

pub fn validate_len(context: &str, actual: usize, expected: usize) -> (result: Result<()>)
    ensures
        actual == expected ==> result is Ok,
        actual != expected ==> result matches Err(Error::InvalidLayout(_)),
{
    if actual != expected {
        return Err(
            Error::InvalidLayout(
                context.to_string().concat(": expected ").concat(
                    expected.to_string().as_str(),
                ).concat(" elements, got ").concat(actual.to_string().as_str()),
            ),
        );
    }
    Ok(())
}

pub fn validate_bound(context: &str, actual: usize) -> (result: Result<()>)
    ensures
        actual <= MAX_BATCH_ELEMENTS ==> result is Ok,
        actual > MAX_BATCH_ELEMENTS ==> result matches Err(Error::InvalidLayout(_)),
{
    if actual > MAX_BATCH_ELEMENTS {
        return Err(
            Error::InvalidLayout(
                context.to_string().concat(": expected at most ").concat(
                    MAX_BATCH_ELEMENTS.to_string().as_str(),
                ).concat(" elements, got ").concat(actual.to_string().as_str()),
            ),
        );
    }
    Ok(())
}

/// The mask of a batch, by its contents. No mask means that every element is supported.
pub open spec fn mask_of(support: Option<Vec<u8>>) -> Option<Seq<u8>> {
    match support {
        Some(mask) => Some(mask@),
        None => None,
    }
}

/// The mask, if there is one, has one byte per element.
pub open spec fn mask_fits(support: Option<Seq<u8>>, len: int) -> bool {
    support matches Some(mask) ==> mask.len() == len
}

pub fn validate_support(support: &Option<Vec<u8>>, expected: usize) -> (result: Result<()>)
    ensures
        mask_fits(mask_of(*support), expected as int) ==> result is Ok,
        !mask_fits(mask_of(*support), expected as int) ==> result matches Err(
            Error::InvalidLayout(_),
        ),
{
    if let Some(mask) = support {
        validate_len("batch support", mask.len(), expected)?;
    }
    Ok(())
}

/// The element at a place is supported.
pub open spec fn supported(support: Option<Seq<u8>>, place: int) -> bool {
    support matches Some(mask) ==> mask[place] != 0
}

/// The mask of a batch has a zero at a place.
pub open spec fn has_no_support(support: Option<Vec<u8>>, place: int) -> bool {
    support matches Some(mask) && mask@[place] == 0
}

/// What an expression has at each coordinate, and where it has support.
pub ghost struct Source<T> {
    pub value: spec_fn(Seq<u64>) -> T,
    pub supported: spec_fn(Seq<u64>) -> bool,
}

/// The batch is what the source has at the coordinates.
pub open spec fn answers<T>(
    source: Source<T>,
    coords: Seq<Seq<u64>>,
    values: Seq<T>,
    mask: Option<Seq<u8>>,
) -> bool {
    &&& values.len() == coords.len()
    &&& mask matches Some(mask) ==> mask.len() == coords.len()
    &&& forall|i: int|
        0 <= i < coords.len() ==> values[i] == (source.value)(#[trigger] coords[i]) && (supported(
            mask,
            i,
        ) <==> (source.supported)(coords[i]))
}

/// The masks of two batches, joined byte by byte. Where one batch is supported everywhere,
/// so is the union.
pub open spec fn joined(left: Option<Seq<u8>>, right: Option<Seq<u8>>) -> Option<Seq<u8>> {
    match (left, right) {
        (Some(left), Some(right)) => Some(Seq::new(left.len(), |i: int| left[i] | right[i])),
        _ => None,
    }
}

/// The mask, if there is one, is no longer than a batch.
pub open spec fn mask_bounded(support: Option<Seq<u8>>) -> bool {
    support matches Some(mask) ==> mask.len() <= MAX_BATCH_ELEMENTS
}

/// What is supported in either of two batches, without looking at their values.
pub fn union_support(left: Option<Vec<u8>>, right: Option<Vec<u8>>) -> (result: Result<
    Option<Vec<u8>>,
>)
    ensures
        result is Ok <==> {
            &&& mask_bounded(mask_of(left))
            &&& mask_bounded(mask_of(right))
            &&& left matches Some(left) ==> mask_fits(mask_of(right), left@.len() as int)
        },
        result matches Ok(support) ==> mask_of(support) == joined(mask_of(left), mask_of(right)),
        result matches Err(error) ==> error is InvalidLayout,
{
    if let Some(mask) = &left {
        validate_bound("support union", mask.len())?;
    }
    if let Some(mask) = &right {
        validate_bound("support union", mask.len())?;
    }
    match (left, right) {
        (Some(left), Some(right)) => {
            let ghost before = left@;
            let mut left = left;
            validate_len("support union", right.len(), left.len())?;
            let mut i: usize = 0;
            while i < left.len()
                invariant
                    i <= left.len(),
                    left.len() == right.len(),
                    left@.len() == before.len(),
                    forall|j: int| 0 <= j < i ==> #[trigger] left@[j] == before[j] | right@[j],
                    forall|j: int| i <= j < left@.len() ==> #[trigger] left@[j] == before[j],
                decreases left.len() - i,
            {
                let byte: u8 = left[i] | right[i];
                left.set(i, byte);
                i += 1;
            }
            proof {
                assert(left@ =~= Seq::new(before.len(), |i: int| before[i] | right@[i]));
            }
            Ok(Some(left))
        },
        _ => Ok(None),
    }
}

proof fn lemma_or_nonzero(a: u8, b: u8)
    ensures
        (a | b) != 0 <==> a != 0 || b != 0,
        a | b == b | a,
{
    assert((a | b) != 0u8 <==> a != 0u8 || b != 0u8) by (bit_vector);
    assert(a | b == b | a) by (bit_vector);
}

proof fn lemma_or_associative(a: u8, b: u8, c: u8)
    ensures
        (a | b) | c == a | (b | c),
{
    assert((a | b) | c == a | (b | c)) by (bit_vector);
}

/// The union supports exactly what either side supports.
pub proof fn union_supports_what_either_side_supports(
    left: Option<Seq<u8>>,
    right: Option<Seq<u8>>,
    len: int,
    place: int,
)
    requires
        mask_fits(left, len),
        mask_fits(right, len),
        0 <= place < len,
    ensures
        supported(joined(left, right), place) <==> supported(left, place) || supported(
            right,
            place,
        ),
        mask_fits(joined(left, right), len),
{
    if let (Some(left), Some(right)) = (left, right) {
        lemma_or_nonzero(left[place], right[place]);
    }
}

/// The union does not depend on the order of its sides, nor on how three are grouped.
pub proof fn union_is_commutative_and_associative(
    a: Option<Seq<u8>>,
    b: Option<Seq<u8>>,
    c: Option<Seq<u8>>,
    len: int,
)
    requires
        mask_fits(a, len),
        mask_fits(b, len),
        mask_fits(c, len),
    ensures
        joined(a, b) == joined(b, a),
        joined(joined(a, b), c) == joined(a, joined(b, c)),
{
    if let (Some(x), Some(y)) = (a, b) {
        assert forall|i: int| 0 <= i < len implies x[i] | y[i] == y[i] | x[i] by {
            lemma_or_nonzero(x[i], y[i]);
        }
        assert(joined(a, b)->0 =~= joined(b, a)->0);
        if let Some(z) = c {
            assert forall|i: int| 0 <= i < len implies (x[i] | y[i]) | z[i] == x[i] | (y[i]
                | z[i]) by {
                lemma_or_associative(x[i], y[i], z[i]);
            }
            assert(joined(joined(a, b), c)->0 =~= joined(a, joined(b, c))->0);
        }
    }
}

/// The elements of one request, evaluated.
#[derive(Debug)]
pub struct EvaluatedBatch<T> {
    pub values: Vec<T>,
    pub support: Option<Vec<u8>>,
}

/// The values at supported places, in order.
pub open spec fn supported_values<T>(values: Seq<T>, support: Option<Seq<u8>>) -> Seq<T>
    decreases values.len(),
{
    if values.len() == 0 {
        Seq::empty()
    } else {
        let rest = supported_values(
            values.drop_last(),
            match support {
                Some(mask) => Some(mask.drop_last()),
                None => None,
            },
        );
        if supported(support, values.len() - 1) {
            rest.push(values.last())
        } else {
            rest
        }
    }
}

proof fn lemma_supported_everywhere<T>(values: Seq<T>)
    ensures
        supported_values(values, None) == values,
    decreases values.len(),
{
    if values.len() > 0 {
        lemma_supported_everywhere(values.drop_last());
        assert(supported_values(values, None) =~= values);
    } else {
        assert(supported_values(values, None) =~= values);
    }
}

/// The batch answers a request of a length.
pub open spec fn batch_fits<T>(values: Seq<T>, support: Option<Seq<u8>>, len: int) -> bool {
    &&& values.len() == len
    &&& values.len() <= MAX_BATCH_ELEMENTS
    &&& mask_fits(support, len)
}

impl<T> EvaluatedBatch<T> {
    pub fn validate(&self, expected: usize) -> (result: Result<()>)
        ensures
            batch_fits(self.values@, mask_of(self.support), expected as int) ==> result is Ok,
            !batch_fits(self.values@, mask_of(self.support), expected as int)
                ==> result matches Err(Error::InvalidLayout(_)),
    {
        validate_bound("evaluated batch", self.values.len())?;
        validate_len("evaluated batch", self.values.len(), expected)?;
        validate_support(&self.support, expected)
    }

    /// The supported values, in order, in the memory that held them all.
    pub fn populated(self) -> (result: Result<Vec<T>>)
        ensures
            result is Ok <==> batch_fits(
                self.values@,
                mask_of(self.support),
                self.values@.len() as int,
            ),
            result matches Ok(values) ==> values@ == supported_values(
                self.values@,
                mask_of(self.support),
            ),
            result matches Err(error) ==> error is InvalidLayout,
    {
        self.validate(self.values.len())?;
        let EvaluatedBatch { values, support } = self;
        let mut values = values;
        let ghost before = values@;
        match support {
            Some(mask) => {
                let mut kept: usize = 0;
                let mut i: usize = 0;
                proof {
                    assert(supported_values(before.take(0), Some(mask@.take(0)))
                        =~= values@.take(0));
                }
                while i < mask.len()
                    invariant
                        kept <= i <= mask.len(),
                        mask.len() == values.len(),
                        values@.len() == before.len(),
                        values@.take(kept as int) == supported_values(
                            before.take(i as int),
                            Some(mask@.take(i as int)),
                        ),
                        forall|j: int| i <= j < values@.len() ==> #[trigger] values@[j] == before[j],
                    decreases mask.len() - i,
                {
                    let ghost old_values = values@;
                    proof {
                        assert(before.take(i + 1).drop_last() =~= before.take(i as int));
                        assert(mask@.take(i + 1).drop_last() =~= mask@.take(i as int));
                        assert(before.take(i + 1).last() == before[i as int]);
                        assert(mask@.take(i + 1)[i as int] == mask@[i as int]);
                    }
                    if mask[i] != 0 {
                        swap_items(&mut values, kept, i);
                        proof {
                            assert(values@ =~= old_values.update(
                                kept as int,
                                old_values[i as int],
                            ).update(i as int, old_values[kept as int]));
                            assert(values@.take(kept + 1) =~= old_values.take(kept as int).push(
                                before[i as int],
                            ));
                        }
                        kept += 1;
                    }
                    i += 1;
                }
                proof {
                    assert(before.take(i as int) =~= before);
                    assert(mask@.take(i as int) =~= mask@);
                    assert(values@.take(kept as int) =~= values@.subrange(0, kept as int));
                }
                values.truncate(kept);
            },
            None => {
                proof {
                    lemma_supported_everywhere(before);
                }
            },
        }
        Ok(values)
    }
}

/// The coordinates and values that are not zero, in order.
pub open spec fn nonzero_elements<T: TensorElement>(
    coords: Seq<Seq<u64>>,
    values: Seq<T>,
) -> Seq<(Seq<u64>, T)>
    decreases values.len(),
{
    if values.len() == 0 {
        Seq::empty()
    } else {
        let rest = nonzero_elements(coords.drop_last(), values.drop_last());
        if values.last().spec_is_zero() {
            rest
        } else {
            rest.push((coords.last(), values.last()))
        }
    }
}

/// Coordinates and values, by their contents.
pub open spec fn elements_of<T>(elements: Seq<(Vec<u64>, T)>) -> Seq<(Seq<u64>, T)> {
    Seq::new(elements.len(), |i: int| (elements[i].0@, elements[i].1))
}

/// The elements of a batch that are not zero, with their coordinates: in the order of the
/// request, and as often as it names them.
pub fn sparse_elements<T: TensorElement>(
    request: BatchRequest,
    batch: EvaluatedBatch<T>,
    shape: &[u64],
) -> (result: Result<Vec<(Vec<u64>, T)>>)
    requires
        request.wf(),
    ensures
        result is Ok <==> {
            &&& batch_fits(batch.values@, mask_of(batch.support), request.spec_len())
            &&& request@ is Explicit || request_fits(request@, shape@)
        },
        result matches Ok(elements) ==> elements_of(elements@) == nonzero_elements(
            request_coords(request@, shape@),
            batch.values@,
        ),
        (result matches Err(Error::InvalidLayout(_))) <==> !batch_fits(
            batch.values@,
            mask_of(batch.support),
            request.spec_len(),
        ),
        (result matches Err(Error::InvalidSchema(_))) <==> batch_fits(
            batch.values@,
            mask_of(batch.support),
            request.spec_len(),
        ) && request@ is Linear && !product_fits(shape@),
        result matches Err(error) ==> error is InvalidLayout || error is InvalidSchema
            || error is InvalidCoord,
{
    batch.validate(request.len())?;
    let ghost all = request_coords(request@, shape@);
    proof {
        request.lemma_wf();
        if let crate::request::Requested::Rectangles(boxes) = request@ {
            crate::request::lemma_boxes_len(boxes);
        }
    }
    let coords = request.into_coordinates(shape)?;
    assert(coords@.len() == coords_of(coords@).len());
    validate_len("sparse output coordinates", coords.len(), batch.values.len())?;
    let ghost values = batch.values@;
    let mut elements: Vec<(Vec<u64>, T)> = Vec::new();
    let mut i: usize = 0;
    proof {
        assert(elements_of(elements@) =~= nonzero_elements(all.take(0), values.take(0)));
    }
    while i < coords.len()
        invariant
            i <= coords.len(),
            coords.len() == batch.values.len(),
            coords_of(coords@) == all,
            values == batch.values@,
            elements_of(elements@) == nonzero_elements(
                all.take(i as int),
                values.take(i as int),
            ),
        decreases coords.len() - i,
    {
        let value: T = batch.values[i];
        let ghost before = elements_of(elements@);
        proof {
            assert(all.take(i + 1).drop_last() =~= all.take(i as int));
            assert(values.take(i + 1).drop_last() =~= values.take(i as int));
            assert(all[i as int] == coords@[i as int]@);
        }
        if !value.is_zero() {
            let coord = vstd::slice::slice_to_vec(coords[i].as_slice());
            elements.push((coord, value));
            proof {
                assert(elements_of(elements@) =~= before.push((all[i as int], value)));
            }
        }
        i += 1;
    }
    proof {
        assert(all.take(i as int) =~= all);
        assert(values.take(i as int) =~= values);
    }
    Ok(elements)
}

/// The values with zero at every place that is not supported.
pub open spec fn masked_values<T: TensorElement>(
    values: Seq<T>,
    support: Option<Seq<u8>>,
) -> Seq<T> {
    Seq::new(
        values.len(),
        |i: int|
            if supported(support, i) {
                values[i]
            } else {
                T::spec_zero()
            },
    )
}

/// Some place is not supported.
fn has_gap(mask: &[u8]) -> (found: bool)
    ensures
        found <==> exists|i: int| 0 <= i < mask@.len() && #[trigger] mask@[i] == 0,
{
    let mut i: usize = 0;
    while i < mask.len()
        invariant
            i <= mask.len(),
            forall|j: int| 0 <= j < i ==> #[trigger] mask@[j] != 0,
        decreases mask.len() - i,
    {
        if mask[i] == 0 {
            return true;
        }
        i += 1;
    }
    false
}

impl<T: TensorElement> EvaluatedBatch<T> {
    /// Put zero at every place that is not supported. The support itself stays.
    pub fn masked(self) -> (result: Result<Self>)
        ensures
            result is Ok <==> batch_fits(
                self.values@,
                mask_of(self.support),
                self.values@.len() as int,
            ),
            result matches Ok(batch) ==> batch.values@ == masked_values(
                self.values@,
                mask_of(self.support),
            ) && mask_of(batch.support) == mask_of(self.support),
            result matches Err(error) ==> error is InvalidLayout,
    {
        let len: usize = self.values.len();
        validate_bound("batch expression", len)?;
        validate_support(&self.support, len)?;
        let values = match &self.support {
            Some(mask) => {
                if has_gap(mask.as_slice()) {
                    let condition = slice_to_vec(mask.as_slice());
                    let zeros = filled(T::zero(), len);
                    let ghost first = self.values@;
                    let values = T::select(condition, self.values, zeros)?;
                    assert(values@ =~= masked_values(first, mask_of(self.support)));
                    values
                } else {
                    assert(self.values@ =~= masked_values(self.values@, mask_of(self.support)));
                    self.values
                }
            },
            None => {
                assert(self.values@ =~= masked_values(self.values@, None));
                self.values
            },
        };
        Ok(EvaluatedBatch { values, support: self.support })
    }
}

/// A batch whose unsupported places are zero keeps its values, and masking twice is masking once.
pub proof fn masking_twice_is_masking_once<T: TensorElement>(
    values: Seq<T>,
    support: Option<Seq<u8>>,
)
    ensures
        masked_values(masked_values(values, support), support) == masked_values(values, support),
{
    assert(masked_values(masked_values(values, support), support) =~= masked_values(
        values,
        support,
    ));
}

/// One for each value that is not zero, zero for the others.
pub open spec fn nonzero_mask<T: TensorElement>(values: Seq<T>) -> Seq<u8> {
    Seq::new(
        values.len(),
        |i: int|
            if values[i].spec_is_zero() {
                0u8
            } else {
                1u8
            },
    )
}

/// The mask of a batch as it was read from storage.
pub open spec fn stored_mask<T: TensorElement>(values: Seq<T>, layout: Layout) -> Option<Seq<u8>> {
    match layout {
        Layout::Sparse { .. } => Some(nonzero_mask(values)),
        Layout::Dense => None,
    }
}

/// A batch as it was read from storage. Of a sparse tensor the stored elements are supported,
/// which are those that are not zero; of a dense one, all.
pub fn stored_batch<T: TensorElement>(values: Vec<T>, layout: Layout) -> (batch: EvaluatedBatch<T>)
    ensures
        batch.values@ == values@,
        mask_of(batch.support) == stored_mask(values@, layout),
{
    let support = match layout {
        Layout::Dense => None,
        Layout::Sparse { .. } => {
            let mut mask: Vec<u8> = Vec::new();
            let mut i: usize = 0;
            while i < values.len()
                invariant
                    i <= values.len(),
                    mask@ == nonzero_mask(values@).take(i as int),
                decreases values.len() - i,
            {
                mask.push(
                    if values[i].is_zero() {
                        0
                    } else {
                        1
                    },
                );
                i += 1;
                assert(mask@ =~= nonzero_mask(values@).take(i as int));
            }
            assert(mask@ =~= nonzero_mask(values@));
            Some(mask)
        },
    };
    EvaluatedBatch { values, support }
}

} // verus!
