//! Unversioned building blocks: ordered keys and the ordered map built on them.

pub mod mapx_ord;
pub mod mapx_raw;
pub mod ord_key;
