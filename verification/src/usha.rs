//! Experimental digests.

pub mod usha0;
