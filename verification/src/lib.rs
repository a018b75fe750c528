//! A content-addressable paste store: items are uploaded blobs or redirect
//! targets, addressed by a short mutable label and by a long salted content
//! digest. The library holds the verified core — the identifier codec, the
//! field ingestion state machine, content classification, the lookup and
//! visibility policy, read-triggered self-destruction and the sunset sweep —
//! while transport and durable persistence stay with the caller.

pub mod codec;
pub mod ingest;
pub mod item;
pub mod store;

use vstd::prelude::*;

verus! {

/// Sigil that marks a client-supplied label (`~`).
pub const LABEL_SIGIL: u8 = 126;

/// Sigil that marks a digest-qualified external identifier (`+`).
pub const DIGEST_SIGIL: u8 = 43;

} // verus!
