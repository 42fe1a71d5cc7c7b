//! Update tracking and read buffering logic of the CocoonFS storage
//! filesystem.
use vstd::prelude::*;

pub mod align;
pub mod alloc_bitmap;
pub mod apply;
pub mod block_buffer;
pub mod block_state;
pub mod block_state_laws;
pub mod buffered_read;
pub mod buffered_read_authenticate;
pub mod buffered_read_finish;
pub mod buffered_read_init;
pub mod buffered_read_laws;
pub mod buffered_read_poll;
pub mod buffered_read_region_laws;
pub mod buffered_read_request;
pub mod buffered_read_sizes;
pub mod digest;
pub mod fill;
pub mod fs;
pub mod fs_future;
pub mod insert;
pub mod iter;
pub mod journal;
pub mod layout;
pub mod offsets;
pub mod prune;
pub mod read_buffer;
pub mod read_buffer_laws;
pub mod read_context;
pub mod read_missing_data;
pub mod read_poll;
pub mod read_progress;
pub mod read_region;
pub mod read_region_laws;
pub mod read_request;
pub mod read_request_laws;
pub mod regions;
pub mod staged;
pub mod states;
pub mod states_index;
pub mod states_laws;
pub mod storage_laws;
pub mod sync_types;
pub mod tracking_laws;
pub mod transaction;

verus! {

} // verus!
