//! The raw byte-store backend shared by remote indexers and storages, and
//! the per-chunk component-id bookkeeping on top of it.

use crate::error::MonolithErr;
use vstd::prelude::*;

verus! {

/// A raw key-value byte store with `get`/`set`. The remote backend and the
/// in-memory dry-run backend implement it; the abstract view is the map of
/// stored entries.
pub trait TiKvRawBackend: Sized {
    /// The entries the backend holds.
    spec fn view(&self) -> Map<Seq<u8>, Seq<u8>>;

    fn set(&mut self, key: Vec<u8>, value: Vec<u8>) -> (r: Result<(), MonolithErr>)
        ensures
            r is Ok ==> final(self).view() == old(self).view().insert(key@, value@),
            r matches Err(e) ==> final(self).view() == old(self).view() && e is IoError,
    ;

    fn get(&self, key: Vec<u8>) -> (r: Result<Option<Vec<u8>>, MonolithErr>)
        ensures
            r matches Ok(opt) ==> {
                &&& (opt matches Some(v) ==> self.view().contains_key(key@) && v@
                    == self.view()[key@])
                &&& (opt is None ==> !self.view().contains_key(key@))
            },
            r matches Err(e) ==> e is IoError,
    ;
}

/// The rows of a shared backend that sit under `prefix`, keyed by the rest
/// of their key.
pub open spec fn prefixed_view(bview: Map<Seq<u8>, Seq<u8>>, prefix: Seq<u8>) -> Map<
    Seq<u8>,
    Seq<u8>,
> {
    Map::new(|k: Seq<u8>| bview.contains_key(prefix + k), |k: Seq<u8>| bview[prefix + k])
}

/// Equal-length prefixes cancel: concatenations agree only on equal tails.
pub proof fn lemma_prefix_cancel(prefix: Seq<u8>, a: Seq<u8>, b: Seq<u8>)
    requires
        prefix + a == prefix + b,
    ensures
        a == b,
{
    assert((prefix + a).len() == prefix.len() + a.len());
    assert((prefix + b).len() == prefix.len() + b.len());
    assert(a.len() == b.len());
    assert forall|i: int| 0 <= i < a.len() implies a[i] == b[i] by {
        assert((prefix + a)[prefix.len() + i] == a[i]);
        assert((prefix + b)[prefix.len() + i] == b[i]);
    }
    assert(a =~= b);
}

/// Inserting under a prefixed key inserts into the prefixed view.
pub proof fn lemma_prefixed_insert(
    bview: Map<Seq<u8>, Seq<u8>>,
    prefix: Seq<u8>,
    k0: Seq<u8>,
    v: Seq<u8>,
)
    ensures
        prefixed_view(bview.insert(prefix + k0, v), prefix) == prefixed_view(
            bview,
            prefix,
        ).insert(k0, v),
{
    let lhs = prefixed_view(bview.insert(prefix + k0, v), prefix);
    let rhs = prefixed_view(bview, prefix).insert(k0, v);
    assert forall|k: Seq<u8>| #[trigger] lhs.contains_key(k) == rhs.contains_key(k) && (
    lhs.contains_key(k) ==> lhs[k] == rhs[k]) by {
        if prefix + k == prefix + k0 {
            lemma_prefix_cancel(prefix, k, k0);
        }
    }
    assert(lhs =~= rhs);
}

/// A fresh 16-byte identifier.
///
/// Relies on uuid::Uuid::new_v4 and Uuid::as_bytes: a version-4 UUID is
/// random, so nothing is promised beyond its 16-byte length.
#[verifier::external_body]
fn fresh_identifier() -> (r: Vec<u8>)
    ensures
        r@.len() == 16,
{
    uuid::Uuid::new_v4().as_bytes().to_vec()
}

/// The 32-byte component record stored under a chunk id: the indexer's
/// 16-byte identifier followed by the storage's.
pub open spec fn component_record(
    old_record: Seq<u8>,
    fresh: Seq<u8>,
    is_indexer: bool,
) -> Seq<u8> {
    if is_indexer {
        fresh + old_record.subrange(16, 32)
    } else {
        old_record.subrange(0, 16) + fresh
    }
}

/// The stored component record under a chunk id, or 32 zero bytes when none
/// (or a malformed one) is stored.
pub open spec fn stored_record(view: Map<Seq<u8>, Seq<u8>>, chunk_id: Seq<u8>) -> Seq<u8> {
    if view.contains_key(chunk_id) && view[chunk_id].len() == 32 {
        view[chunk_id]
    } else {
        Seq::new(32, |i: int| 0u8)
    }
}

/// Assign and persist a per-chunk component identifier: a fresh 16-byte id
/// written into the indexer or storage half of the chunk's 32-byte record,
/// keeping the other half.
pub fn init_component<B: TiKvRawBackend>(
    backend: &mut B,
    chunk_identifier: Vec<u8>,
    is_indexer: bool,
) -> (r: Result<Vec<u8>, MonolithErr>)
    ensures
        r matches Ok(id) ==> {
            &&& id@.len() == 16
            &&& final(backend).view() == old(backend).view().insert(
                chunk_identifier@,
                component_record(
                    stored_record(old(backend).view(), chunk_identifier@),
                    id@,
                    is_indexer,
                ),
            )
        },
{
    let existing = match backend.get(chunk_identifier.clone()) {
        Ok(v) => v,
        Err(e) => {
            return Err(e);
        },
    };
    let base: Vec<u8> = match existing {
        Some(v) => {
            if v.len() == 32 {
                v
            } else {
                crate::gorilla::vec_with_len(32)
            }
        },
        None => crate::gorilla::vec_with_len(32),
    };
    proof {
        assert(base@ =~= stored_record(backend.view(), chunk_identifier@));
    }
    let id = fresh_identifier();
    let mut record: Vec<u8> = Vec::new();
    if is_indexer {
        let mut id_copy = id.clone();
        record.append(&mut id_copy);
        let mut i: usize = 16;
        while i < 32
            invariant
                16 <= i <= 32,
                base@.len() == 32,
                id@.len() == 16,
                record@ == id@ + base@.subrange(16, i as int),
            decreases 32 - i,
        {
            let b = base[i];
            record.push(b);
            proof {
                assert(id@ + base@.subrange(16, i + 1) =~= (id@ + base@.subrange(16, i as int)).push(
                    base@[i as int],
                ));
            }
            i = i + 1;
        }
        proof {
            assert(record@ == component_record(base@, id@, true));
        }
    } else {
        let mut i: usize = 0;
        while i < 16
            invariant
                i <= 16,
                base@.len() == 32,
                record@ == base@.subrange(0, i as int),
            decreases 16 - i,
        {
            let b = base[i];
            record.push(b);
            proof {
                assert(base@.subrange(0, i + 1) =~= base@.subrange(0, i as int).push(
                    base@[i as int],
                ));
            }
            i = i + 1;
        }
        let mut id_copy = id.clone();
        record.append(&mut id_copy);
        proof {
            assert(record@ == component_record(base@, id@, false));
        }
    }
    match backend.set(chunk_identifier, record) {
        Ok(_) => Ok(id),
        Err(e) => Err(e),
    }
}

} // verus!
