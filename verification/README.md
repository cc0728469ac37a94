# fensor

Block-stored tensors, dense and sparse, with lazy expressions over them that are evaluated in bounded
batches. The library plans and computes; `app/` adds the filesystem and asynchronous execution.

## Layout

- `src/schema.rs`, `src/metadata.rs`, `src/tensor.rs`: shapes, blocks, and where an element is stored.
- `src/write.rs`, `src/read.rs`, `src/copy.rs`, `src/copy_laws.rs`: the steps of a write, what a read
  takes from which block, how copied batches are grouped, and what a whole copy holds.
- `src/regions.rs`, `src/index_page.rs`, `src/occupied.rs`, `src/slice_plan.rs`: reading a slice by
  the rows of a sparse index, a page of rows at a time.
- `src/request.rs`, `src/batches.rs`, `src/slice.rs`, `src/storage_read.rs`: requests of at most one
  batch and the blocks behind them.
- `src/mapping.rs`, `src/transform.rs`, `src/transform_laws.rs`, `src/room.rs`, `src/view.rs`:
  geometric views.
- `src/unary.rs`, `src/scalar.rs`, `src/binary.rs`, `src/selection.rs`, `src/matrix.rs`,
  `src/matmul_plan.rs`, `src/matmul.rs`, `src/matmul_laws.rs`, `src/reduce.rs`, `src/groups.rs`,
  `src/reduce_laws.rs`: expressions.
- `src/backend.rs`, `src/inline.rs`: the calls into ha-ndarray and smallvec, with what they are
  taken to do.
- `app/`: files, sparse indices, streams, and elements of floating-point type.

## What is proved

Each public function states what it returns for every input, and when it fails. Beside them stand
laws that relate functions to each other. Among others:

- Requests cover every coordinate once, and a transform shows the elements it says it shows.
- A write of any value is read back and changes no other element. A sparse row is removed once all
  its elements are zero.
- A read that finds its blocks through the index, or in the grid of a dense tensor, gives the
  elements of storage.
- A copy holds the elements of its source, and a sparse copy has rows only where some element is not
  zero.
- A page of a sparse index holds the first rows behind the last one, as many as a batch has room for,
  and pages visit each row once.
- Squeezing the new axes of an unsqueezed view gives the view back.
- A batch of a reduction holds the reductions of its groups, however their parts are cut or ordered.
- A batch of a matrix product holds the products of rows and columns.

Arithmetic on bytes wraps around, and division and remainder by zero give zero. A computed element
without support is zero.
