//! Fixed-shape multi-dimensional arrays with verified axis projection.
//!
//! An [`Array`] stores the items of a multi-dimensional array in one flat,
//! dense, row-major buffer together with its shape, an ordered list of
//! extents.  The shape-arithmetic layer converts between positions
//! (coordinate tuples) and linear indices, and attaches or detaches one
//! axis of a shape.  Projecting an axis at a fixed offset yields a
//! [`View`] or [`ViewMut`]: a shape-reduced window whose items are read,
//! and written, through the host array, without copying.  [`Positions`]
//! enumerates every position of a shape in increasing linear-index order.
//!
//! Every fallible operation reports an out-of-range position, offset or
//! index by an absent result; no operation panics.

mod array;
mod positions;
mod shape;
mod view;

pub use array::Array;
pub use positions::Positions;
pub use shape::AttachAxis;
pub use shape::DetachAxis;
pub use shape::Shape;
pub use shape::capacity_of;
pub use shape::checked_capacity;
pub use shape::in_bounds;
pub use shape::index_of;
pub use shape::index_to_position;
pub use shape::lemma_attach_detach_inverse;
pub use shape::lemma_detach_attach_inverse;
pub use shape::lemma_index_round_trip;
pub use shape::lemma_position_round_trip;
pub use shape::lemma_positions_distinct;
pub use shape::position_of;
pub use shape::position_to_index;
pub use shape::subd;
pub use shape::subd_of;
pub use view::Iter;
pub use view::IterMut;
pub use view::View;
pub use view::ViewMut;
pub use view::all_free;
pub use view::free_count;
pub use view::free_extents;
pub use view::host_position;
pub use view::lemma_axis_write_visible;
pub use view::lemma_single_axis_view;
pub use view::mask_wf;
