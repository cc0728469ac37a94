//! Transposes and diagonals of matrices.

use vstd::prelude::*;
use vstd::slice::{slice_subrange, slice_to_vec};
use vstd::string::StringExecFns;
use crate::error::{Error, Result};
use crate::expression::MAX_BATCH_ELEMENTS;
use crate::geometry::{
    all_positive, coordinate_at, in_box, lemma_coordinate_position, lemma_position_coordinate,
    position_of, volume,
};
use crate::inline::{Axes, Bound, Coord, Range, Shape, Strides};
use crate::mapping::{
    broadcasted, chosen_permutation, contiguous, CoordinateMap, flip_fits, flipped, identity_map,
    is_permutation, lemma_identity_offset, lemma_unravel, Mapping, offset_at, reshaped, resolves,
    slice_fits, sliced, squeeze_base_fits, squeezed, transposed, unsqueezed,
};

use crate::request::{BatchRequest, coords_of, request_coords, request_fits, request_len, Requested};
use crate::room::{map_room, transforms_stay_in_range};
use crate::schema::{are_strides, contiguous_strides, Layout, product_fits, valid_dims};
use crate::storage_read::all_resolve;
use crate::traits::{TensorGeometry, TensorTransform, TensorViewSemantics};
use crate::transform::{
    lemma_broadcast_places, lemma_flip_places, lemma_reshape_places, lemma_slice_places,
    lemma_squeeze_places, lemma_transpose_places, lemma_unsqueeze_places, place_in, permuted_shape,
    unpermuted,
};
use crate::validate::list_dims;

verus! {

/// The last two numbers exchanged.
pub open spec fn last_two_swapped(values: Seq<u64>) -> Seq<u64> {
    let n = values.len() as int;
    values.update(n - 2, values[n - 1]).update(n - 1, values[n - 2])
}

/// The axes in order, but for the last two.
pub open spec fn matrix_order(rank: nat) -> Seq<usize> {
    Seq::new(
        rank,
        |i: int|
            if i == rank - 2 {
                (rank - 1) as usize
            } else if i == rank - 1 {
                (rank - 2) as usize
            } else {
                i as usize
            },
    )
}

proof fn lemma_matrix_order(rank: nat)
    requires
        2 <= rank <= usize::MAX,
    ensures
        is_permutation(matrix_order(rank), rank),
        forall|values: Seq<u64>|
            values.len() == rank ==> permuted_shape(matrix_order(rank), values)
                == #[trigger] last_two_swapped(values) && unpermuted(matrix_order(rank), values)
                == last_two_swapped(values),
{
    let order = matrix_order(rank);
    assert forall|values: Seq<u64>| values.len() == rank implies permuted_shape(order, values)
        == #[trigger] last_two_swapped(values) && unpermuted(order, values) == last_two_swapped(
        values,
    ) by {
        assert(permuted_shape(order, values) =~= last_two_swapped(values));
        assert forall|j: int| 0 <= j < rank implies #[trigger] unpermuted(order, values)[j]
            == last_two_swapped(values)[j] by {
            let to = order[j] as int;
            assert(order[to] == j);
            let p = place_in(order, j);
            assert(0 <= p < order.len() && order[p] == j);
            assert(p == to);
        }
        assert(unpermuted(order, values) =~= last_two_swapped(values));
    }
}

/// The matrices of a batch transposed: the last two axes exchanged.
pub fn mt<V: TensorTransform>(view: V) -> (result: Result<V>)
    requires
        view.inv(),
    ensures
        result is Ok <==> view.spec_shape().len() >= 2,
        result matches Ok(out) ==> {
            &&& out.inv()
            &&& out.spec_shape() == last_two_swapped(view.spec_shape())
            &&& out.spec_layout() == view.spec_layout()
            &&& forall|coord: Seq<u64>| #[trigger]
                in_box(coord, out.spec_shape()) ==> out.places(coord) == view.places(
                    last_two_swapped(coord),
                )
        },
        result matches Err(error) ==> error is InvalidLayout,
{
    let rank: usize = view.ndim();
    if rank < 2 {
        return Err(
            Error::InvalidLayout(
                "matrix transpose requires rank >= 2: ".to_string().concat(
                    list_dims(view.shape()).as_str(),
                ),
            ),
        );
    }
    let mut axes: Vec<usize> = Vec::new();
    let mut i: usize = 0;
    while i < rank
        invariant
            i <= rank,
            rank >= 2,
            axes@ == matrix_order(rank as nat).take(i as int),
        decreases rank - i,
    {
        axes.push(
            if i == rank - 2 {
                rank - 1
            } else if i == rank - 1 {
                rank - 2
            } else {
                i
            },
        );
        i += 1;
        assert(axes@ =~= matrix_order(rank as nat).take(i as int));
    }
    proof {
        assert(axes@ =~= matrix_order(rank as nat));
        lemma_matrix_order(rank as nat);
        let shape = view.spec_shape();
        assert(permuted_shape(matrix_order(rank as nat), shape) == last_two_swapped(shape));
    }
    let out = view.transpose(Some(Axes::from_vec(axes)))?;
    proof {
        assert forall|coord: Seq<u64>| #[trigger]
            in_box(coord, out.spec_shape()) implies out.places(coord) == view.places(
            last_two_swapped(coord),
        ) by {
            assert(coord.len() == rank);
            assert(unpermuted(matrix_order(rank as nat), coord) == last_two_swapped(coord));
        }
    }
    Ok(out)
}

/// A matrix transposed twice is the matrix.
pub proof fn transposing_matrices_twice_gives_them_back(coord: Seq<u64>)
    requires
        coord.len() >= 2,
    ensures
        last_two_swapped(last_two_swapped(coord)) == coord,
{
    assert(last_two_swapped(last_two_swapped(coord)) =~= coord);
}

/// The coordinate on the diagonal: the last index twice.
pub open spec fn on_diagonal(coord: Seq<u64>) -> Seq<u64> {
    coord.push(coord.last())
}

/// The last two dimensions are those of square matrices.
pub open spec fn is_square(shape: Seq<u64>) -> bool {
    shape.len() >= 2 && shape[shape.len() - 2] == shape[shape.len() - 1]
}

/// A lazy view of the diagonals of square matrices. Transforms address the diagonal. Support is
/// that of the elements on the diagonal.
#[derive(Clone, Debug)]
pub struct DiagView<Source> {
    source: Source,
    output_shape: Shape,
    output_strides: Strides,
    mapping: CoordinateMap,
}

impl<S> DiagView<S> {
    pub closed spec fn spec_source(&self) -> S {
        self.source
    }

    pub closed spec fn spec_mapping(&self) -> Mapping {
        self.mapping@
    }

    /// The other view is one of the same diagonals.
    pub open spec fn same_source(&self, other: &Self) -> bool {
        &&& self.spec_source() == other.spec_source()
        &&& self.spec_output_strides() == other.spec_output_strides()
    }

    pub closed spec fn spec_output_strides(&self) -> Seq<u64> {
        self.output_strides@
    }

    pub fn source(&self) -> (source: &S)
        ensures
            *source == self.spec_source(),
    {
        &self.source
    }
}

impl<S: TensorGeometry> DiagView<S> {
    pub closed spec fn wf(&self) -> bool {
        &&& is_square(self.source.spec_shape())
        &&& self.output_shape@ == self.source.spec_shape().drop_last()
        &&& all_positive(self.output_shape@)
        &&& are_strides(self.output_strides@, self.output_shape@)
        &&& self.mapping.wf()
    }

    /// The shape of the diagonals before any transform.
    pub open spec fn spec_output_shape(&self) -> Seq<u64> {
        self.spec_source().spec_shape().drop_last()
    }

    /// The diagonals of a source.
    pub fn new(source: S) -> (result: Result<Self>)
        ensures
            result is Ok <==> {
                let shape = source.spec_shape();
                &&& is_square(shape)
                &&& valid_dims(shape.drop_last())
                &&& volume(shape.drop_last().skip(1)) <= u64::MAX
            },
            result matches Ok(view) ==> {
                &&& view.wf()
                &&& view.spec_source() == source
                &&& view.spec_shape() == view.spec_output_shape()
                &&& are_strides(view.spec_output_strides(), view.spec_output_shape())
                &&& view.spec_mapping() == identity_map(
                    view.spec_output_shape(),
                    view.spec_output_strides(),
                )
            },
            (result matches Err(Error::InvalidLayout(_))) <==> !is_square(source.spec_shape()),
            result matches Err(error) ==> error is InvalidLayout || error is InvalidSchema,
    {
        let rank: usize = source.ndim();
        let dims = source.shape();
        if rank < 2 || dims[rank - 2] != dims[rank - 1] {
            return Err(
                Error::InvalidLayout(
                    "diagonal requires rank >= 2 and square final dimensions: ".to_string().concat(
                        list_dims(dims).as_str(),
                    ),
                ),
            );
        }
        let output_shape = Shape::from_slice(slice_subrange(dims, 0, rank - 1));
        proof {
            assert(output_shape@ =~= source.spec_shape().drop_last());
        }
        let output_strides = contiguous_strides(output_shape.as_slice())?;
        let mapping = CoordinateMap::identity(output_shape.clone(), output_strides.as_slice());
        Ok(DiagView { source, output_shape, output_strides, mapping })
    }

    /// What to ask of the source for a request of the diagonals: each element by itself, since
    /// diagonals are no box.
    pub fn source_request(&self, request: &BatchRequest) -> (result: Result<BatchRequest>)
        requires
            self.wf(),
            request.wf(),
        ensures
            ({
                let map = self.spec_mapping();
                let shape = self.spec_output_shape();
                let coords = request_coords(request@, map.shape);
                &&& result is Ok <==> request_fits(request@, map.shape) && all_resolve(
                    map,
                    coords,
                    shape,
                    self.spec_output_strides(),
                )
                &&& result matches Ok(asked) ==> asked.wf() && asked@ == Requested::Explicit(
                    diagonal_coords(map, coords, shape),
                )
                &&& (result matches Err(Error::InvalidSchema(_))) <==> request@ is Linear
                    && !product_fits(map.shape)
                &&& result matches Err(error) ==> error is InvalidSchema || error is InvalidCoord
            }),
    {
        let ghost map = self.mapping@;
        let ghost shape = self.output_shape@;
        let ghost coords = request_coords(request@, map.shape);
        let ghost target = diagonal_coords(map, coords, shape);
        let mut cursor = request.cursor(self.mapping.shape.as_slice())?;
        let mut coord = Coord::new();
        let mut mapped = Coord::new();
        let mut coordinates: Vec<Vec<u64>> = Vec::new();
        let ghost mut n = 0int;
        proof {
            request.lemma_wf();
        }
        let mut more = cursor.next_into(&mut coord);
        while more
            invariant
                self.wf(),
                request.wf(),
                map == self.mapping@,
                shape == self.output_shape@,
                shape.len() >= 1,
                coords == request_coords(request@, map.shape),
                target == diagonal_coords(map, coords, shape),
                cursor.wf(),
                cursor.spec_request() == request@,
                cursor.spec_shape() == map.shape,
                coords.len() == request_len(request@),
                coords.len() <= MAX_BATCH_ELEMENTS,
                request_fits(request@, map.shape),
                0 <= n <= coords.len(),
                coordinates@.len() == n,
                coords_of(coordinates@) == target.take(n),
                forall|o: int|
                    0 <= o < n ==> resolves(
                        map,
                        #[trigger] coords[o],
                        shape,
                        self.output_strides@,
                    ),
                more ==> n < coords.len() && coord@ == coords[n] && cursor.spec_position() == n + 1,
                !more ==> n == coords.len(),
            decreases coords.len() - n,
        {
            self.mapping.resolve_into(
                coord.as_slice(),
                self.output_shape.as_slice(),
                self.output_strides.as_slice(),
                &mut mapped,
            )?;
            proof {
                assert(resolves(map, coords[n], shape, self.output_strides@));
                lemma_unravel(offset_at(map, coords[n]), shape, self.output_strides@);
            }
            let ghost at = mapped@;
            let index: u64 = mapped.as_slice()[mapped.len() - 1];
            mapped.push(index);
            coordinates.push(slice_to_vec(mapped.as_slice()));
            proof {
                assert(mapped@ == on_diagonal(at));
                assert(coords_of(coordinates@) =~= target.take(n + 1));
                n = n + 1;
            }
            more = cursor.next_into(&mut coord);
        }
        proof {
            assert(target.take(n) =~= target);
        }
        BatchRequest::explicit(coordinates)
    }
}

/// The elements of the source that a request of its diagonals names.
pub open spec fn diagonal_coords(
    map: Mapping,
    coords: Seq<Seq<u64>>,
    shape: Seq<u64>,
) -> Seq<Seq<u64>> {
    Seq::new(coords.len(), |o: int| on_diagonal(coordinate_at(offset_at(map, coords[o]), shape)))
}

/// The layout of an expression over one source: sparse where it is, with no axis of its own.
pub open spec fn derived_layout(source: Layout) -> Layout {
    match source {
        Layout::Dense => Layout::Dense,
        Layout::Sparse { .. } => Layout::Sparse { axis: None },
    }
}

pub fn derive_layout(source: Layout) -> (layout: Layout)
    ensures
        layout == derived_layout(source),
{
    match source {
        Layout::Dense => Layout::Dense,
        Layout::Sparse { .. } => Layout::Sparse { axis: None },
    }
}

impl<S: TensorGeometry> TensorGeometry for DiagView<S> {
    open spec fn spec_shape(&self) -> Seq<u64> {
        self.spec_mapping().shape
    }

    open spec fn spec_layout(&self) -> Layout {
        derived_layout(self.spec_source().spec_layout())
    }

    fn shape(&self) -> (shape: &[u64]) {
        self.mapping.shape.as_slice()
    }

    fn layout(&self) -> (layout: Layout) {
        derive_layout(self.source.layout())
    }
}

impl<S: TensorGeometry> TensorViewSemantics for DiagView<S> {
    open spec fn spec_is_base(&self) -> bool {
        false
    }

    open spec fn spec_writes_through(&self) -> bool {
        false
    }

    fn is_base_tensor(&self) -> (base: bool) {
        false
    }

    fn supports_write_through(&self) -> (writes: bool) {
        false
    }
}

impl<S: TensorGeometry> TensorTransform for DiagView<S> {
    closed spec fn inv(&self) -> bool {
        self.wf()
    }

    open spec fn places(&self, coord: Seq<u64>) -> Seq<int> {
        seq![offset_at(self.spec_mapping(), coord)]
    }

    open spec fn is_contiguous(&self) -> bool {
        contiguous(self.spec_mapping())
    }

    open spec fn room(&self, n: int) -> bool {
        map_room(self.spec_mapping(), n)
    }

    open spec fn flips_in_range(&self, axis: int) -> bool {
        flip_fits(self.spec_mapping(), axis)
    }

    open spec fn slices_in_range(&self, range: Seq<Bound>) -> bool {
        slice_fits(self.spec_mapping(), range)
    }

    open spec fn squeezes_in_range(&self, axes: Seq<usize>) -> bool {
        squeeze_base_fits(self.spec_mapping(), axes)
    }

    proof fn lemma_in_range(&self, n: int) {
        assert(self.mapping.axes.len() == self.mapping@.axes.len());
        transforms_stay_in_range(self.mapping@, n);
    }

    fn reshape(self, shape: Shape) -> (result: Result<Self>)
        ensures
            result matches Ok(view) ==> view.same_source(&self) && view.spec_mapping()
                == reshaped(self.spec_mapping(), shape@),
    {
        let ghost map = self.mapping@;
        let mapping = self.mapping.reshape(shape)?;
        proof {
            lemma_reshape_places(map, shape@);
        }
        Ok(
            Self {
                source: self.source,
                output_shape: self.output_shape,
                output_strides: self.output_strides,
                mapping,
            },
        )
    }

    fn broadcast(self, shape: Shape) -> (result: Result<Self>)
        ensures
            result matches Ok(view) ==> view.same_source(&self) && view.spec_mapping()
                == broadcasted(self.spec_mapping(), shape@),
    {
        let ghost map = self.mapping@;
        let mapping = self.mapping.broadcast(shape)?;
        proof {
            lemma_broadcast_places(map, shape@);
        }
        Ok(
            Self {
                source: self.source,
                output_shape: self.output_shape,
                output_strides: self.output_strides,
                mapping,
            },
        )
    }

    fn flip(self, axis: usize) -> (result: Result<Self>)
        ensures
            result matches Ok(view) ==> view.same_source(&self) && view.spec_mapping()
                == flipped(self.spec_mapping(), axis as int),
    {
        let ghost map = self.mapping@;
        let mapping = self.mapping.flip(axis)?;
        proof {
            lemma_flip_places(map, axis as int);
        }
        Ok(
            Self {
                source: self.source,
                output_shape: self.output_shape,
                output_strides: self.output_strides,
                mapping,
            },
        )
    }

    fn slice(self, range: Range) -> (result: Result<Self>)
        ensures
            result matches Ok(view) ==> view.same_source(&self) && view.spec_mapping()
                == sliced(self.spec_mapping(), range@),
    {
        let ghost map = self.mapping@;
        let mapping = self.mapping.slice(range)?;
        proof {
            lemma_slice_places(map, range@);
        }
        Ok(
            Self {
                source: self.source,
                output_shape: self.output_shape,
                output_strides: self.output_strides,
                mapping,
            },
        )
    }

    fn squeeze(self, axes: Axes) -> (result: Result<Self>)
        ensures
            result matches Ok(view) ==> view.same_source(&self) && view.spec_mapping()
                == squeezed(self.spec_mapping(), axes@),
    {
        let ghost map = self.mapping@;
        let rank: usize = self.mapping.shape.len();
        let mapping = self.mapping.squeeze(axes)?;
        proof {
            assert(rank == map.shape.len());
            lemma_squeeze_places(map, axes@);
        }
        Ok(
            Self {
                source: self.source,
                output_shape: self.output_shape,
                output_strides: self.output_strides,
                mapping,
            },
        )
    }

    fn transpose(self, permutation: Option<Axes>) -> (result: Result<Self>)
        ensures
            result matches Ok(view) ==> view.same_source(&self) && view.spec_mapping()
                == transposed(
                    self.spec_mapping(),
                    chosen_permutation(permutation, self.spec_shape().len()),
                ),
    {
        let ghost map = self.mapping@;
        let rank: usize = self.mapping.shape.len();
        let mapping = self.mapping.transpose(permutation)?;
        proof {
            assert(rank == map.shape.len());
            lemma_transpose_places(map, chosen_permutation(permutation, map.shape.len()));
        }
        Ok(
            Self {
                source: self.source,
                output_shape: self.output_shape,
                output_strides: self.output_strides,
                mapping,
            },
        )
    }

    fn unsqueeze(self, axes: Axes) -> (result: Result<Self>)
        ensures
            result matches Ok(view) ==> view.same_source(&self) && view.spec_mapping()
                == unsqueezed(self.spec_mapping(), axes@),
    {
        let ghost map = self.mapping@;
        let mapping = self.mapping.unsqueeze(axes)?;
        proof {
            lemma_unsqueeze_places(map, axes@);
        }
        Ok(
            Self {
                source: self.source,
                output_shape: self.output_shape,
                output_strides: self.output_strides,
                mapping,
            },
        )
    }
}

/// What is asked of the source for an element of the diagonals stands on a diagonal of it: its row
/// and its column are the same, and without the column it is the coordinate that the view shows,
/// which for the diagonals themselves is the one that was requested.
pub proof fn diagonals_have_their_row_for_their_column<S: TensorGeometry>(
    view: DiagView<S>,
    coords: Seq<Seq<u64>>,
    o: int,
)
    requires
        view.wf(),
        0 <= o < coords.len(),
        resolves(
            view.spec_mapping(),
            coords[o],
            view.spec_output_shape(),
            view.spec_output_strides(),
        ),
    ensures
        ({
            let source = view.spec_source().spec_shape();
            let shape = view.spec_output_shape();
            let asked = diagonal_coords(view.spec_mapping(), coords, shape)[o];
            let rank = source.len();
            &&& rank >= 2
            &&& in_box(asked, source)
            &&& asked[rank - 1] == asked[rank - 2]
            &&& in_box(asked.take(rank - 1), shape)
            &&& position_of(asked.take(rank - 1), shape) == view.places(coords[o])[0]
            &&& view.spec_mapping() == identity_map(shape, view.spec_output_strides())
                ==> asked.take(rank - 1) == coords[o]
        }),
{
    let source = view.spec_source().spec_shape();
    let shape = view.spec_output_shape();
    let map = view.spec_mapping();
    let at = coordinate_at(offset_at(map, coords[o]), shape);
    let asked = diagonal_coords(map, coords, shape)[o];
    let rank = source.len();
    lemma_coordinate_position(offset_at(map, coords[o]), shape);
    assert(asked.take(rank - 1) =~= at);
    assert forall|i: int| 0 <= i < rank implies #[trigger] asked[i] < source[i] by {
        if i < rank - 1 {
            assert(at[i] < shape[i]);
        } else {
            assert(at[rank - 2] < shape[rank - 2]);
        }
    }
    if map == identity_map(shape, view.spec_output_strides()) {
        lemma_identity_offset(shape, view.spec_output_strides(), coords[o]);
        lemma_position_coordinate(coords[o], shape);
    }
}

} // verus!
