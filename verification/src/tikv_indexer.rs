//! Indexer over a shared raw byte backend, namespaced by a per-chunk
//! 16-byte indexer identifier in front of each logical key.

use crate::backend::{init_component, lemma_prefixed_insert, prefixed_view, TiKvRawBackend};
use crate::error::MonolithErr;
use crate::indexer::{
    decode_pairs, id_key_chars, index_after_create, joined_pairs, matches_all, posting_ids, postings_updated,
    rev_key_chars, set_key_chars, utf8, utf8_parses_to, Indexer,
};
use crate::label::{Label, Labels};
use crate::ops::is_strictly_sorted;
use crate::sled_indexer::KvIndexerProcessor;
use crate::time_series::TimeSeriesId;
use crate::utils::{dec_rep, intersect_time_series_id_vec, parse_u64_dec, u64_to_dec_string,
    utf8_to_string};
use vstd::prelude::*;

verus! {

/// Indexer over a shared backend; all rows live under the chunk's indexer
/// identifier.
pub struct TiKvIndexer<B: TiKvRawBackend> {
    pub client: B,
    pub chunk_identifier: Vec<u8>,
    pub indexer_identifier: Vec<u8>,
}

impl<B: TiKvRawBackend> TiKvIndexer<B> {
    /// Namespace a logical key with the chunk's indexer identifier.
    fn add_indexer_id(&self, key: &mut Vec<u8>) -> (r: Vec<u8>)
        ensures
            r@ == self.indexer_identifier@ + old(key)@,
    {
        let mut res = self.indexer_identifier.clone();
        res.append(key);
        res
    }

    /// Read a stored row as text.
    fn get_row(&self, key: &String) -> (r: Result<Option<String>, MonolithErr>)
        ensures
            r matches Ok(opt) ==> {
                &&& (opt matches Some(v) ==> self.iview().contains_key(utf8(key@))
                    && vstd::utf8::valid_utf8(self.iview()[utf8(key@)]) && v@
                    == vstd::utf8::decode_utf8(self.iview()[utf8(key@)]))
                &&& (opt is None ==> !self.iview().contains_key(utf8(key@)))
            },
            r matches Err(e) ==> (e is IoError || e is ParseErr),
    {
        let mut kb = key.as_str().as_bytes_vec();
        proof {
            broadcast use vstd::string::is_ascii_spec_bytes;

            assert(kb@ == utf8(key@));
        }
        let full = self.add_indexer_id(&mut kb);
        match self.client.get(full) {
            Ok(Some(v)) => match utf8_to_string(v) {
                Some(s) => Ok(Some(s)),
                None => Err(MonolithErr::ParseErr),
            },
            Ok(None) => Ok(None),
            Err(e) => Err(e),
        }
    }

    /// Write a stored row.
    fn set_row(&mut self, key_bytes: Vec<u8>, value: Vec<u8>) -> (r: Result<(), MonolithErr>)
        ensures
            r is Ok ==> final(self).iview() == old(self).iview().insert(key_bytes@, value@),
            r matches Err(e) ==> final(self).iview() == old(self).iview() && e is IoError,
            final(self).indexer_identifier == old(self).indexer_identifier,
    {
        let mut kb = key_bytes;
        let ghost k0 = kb@;
        let ghost pre = self.client.view();
        let full = self.add_indexer_id(&mut kb);
        match self.client.set(full, value) {
            Ok(_) => {
                proof {
                    lemma_prefixed_insert(pre, self.indexer_identifier@, k0, value@);
                }
                Ok(())
            },
            Err(e) => Err(e),
        }
    }

    /// The posting list of one label, parsed.
    fn get_id(&self, label: &Label) -> (r: Result<Option<Vec<TimeSeriesId>>, MonolithErr>)
        ensures
            r matches Ok(opt) ==> {
                &&& (opt matches Some(ids) ==> ids@ == posting_ids(self.iview(), label@))
                &&& (opt is None ==> !self.iview().contains_key(utf8(rev_key_chars(label@))))
            },
    {
        let key = KvIndexerProcessor::encode_label(label);
        match self.get_row(&key) {
            Ok(Some(val)) => {
                match KvIndexerProcessor::parse_id_list(val.as_str()) {
                    Ok(ids) => {
                        proof {
                            broadcast use vstd::utf8::decode_utf8_encode_utf8;

                            assert(posting_ids(self.iview(), label@) == ids@);
                        }
                        Ok(Some(ids))
                    },
                    Err(e) => Err(e),
                }
            },
            Ok(None) => Ok(None),
            Err(e) => Err(e),
        }
    }
}

impl<B: TiKvRawBackend> Indexer for TiKvIndexer<B> {
    open spec fn iview(&self) -> Map<Seq<u8>, Seq<u8>> {
        prefixed_view(self.client.view(), self.indexer_identifier@)
    }

    #[verifier::rlimit(50)]
    fn get_series_metadata_contains_labels(&self, labels: Labels) -> (r: Result<
        Vec<(TimeSeriesId, Labels)>,
        MonolithErr,
    >) {
        let ids = match self.get_series_id_contains_labels(labels) {
            Ok(ids) => ids,
            Err(e) => {
                return Err(e);
            },
        };
        proof {
            assert forall|x: TimeSeriesId| #[trigger] ids@.contains(x) implies matches_all(
                self.iview(),
                labels@,
                x,
            ) by {}
            assert forall|x: TimeSeriesId| matches_all(self.iview(), labels@, x) implies ids@.contains(
                x,
            ) by {}
        }
        let n = ids.len();
        let mut res: Vec<(TimeSeriesId, Labels)> = Vec::new();
        let mut i: usize = 0;
        while i < n
            invariant
                i <= n,
                n == ids@.len(),
                crate::ops::strictly_sorted_ids(ids@),
                forall|x: TimeSeriesId|
                    #[trigger] ids@.contains(x) <==> matches_all(self.iview(), labels@, x),
                forall|j: int|
                    0 <= j < res@.len() ==> {
                        &&& matches_all(self.iview(), labels@, (#[trigger] res@[j]).0)
                        &&& self.iview().contains_key(utf8(id_key_chars(res@[j].0)))
                        &&& vstd::utf8::valid_utf8(self.iview()[utf8(id_key_chars(res@[j].0))])
                        &&& decode_pairs(
                            vstd::utf8::decode_utf8(self.iview()[utf8(id_key_chars(res@[j].0))]),
                        ) == Option::Some(res@[j].1@)
                    },
                forall|a: int, b: int|
                    0 <= a < b < res@.len() ==> (#[trigger] res@[a]).0 < (#[trigger] res@[b]).0,
                forall|j: int|
                    0 <= j < res@.len() ==> exists|k: int|
                        0 <= k < i && ids@[k] == (#[trigger] res@[j]).0,
                forall|k: int|
                    0 <= k < i && self.iview().contains_key(
                        utf8(id_key_chars(#[trigger] ids@[k])),
                    ) ==> exists|j: int| 0 <= j < res@.len() && (#[trigger] res@[j]).0 == ids@[k],
            decreases n - i,
        {
            let id = ids[i];
            let key = KvIndexerProcessor::encode_time_series_id(id);
            match self.get_row(&key) {
                Ok(Some(labels_str)) => {
                    match KvIndexerProcessor::decode_labels(labels_str, false) {
                        Ok(ls) => {
                            proof {
                                assert(ids@.contains(id)) by {
                                    assert(ids@[i as int] == id);
                                }
                                assert forall|a: int| 0 <= a < res@.len() implies (
                                #[trigger] res@[a]).0 < id by {
                                    let k = choose|k: int| 0 <= k < i && ids@[k] == res@[a].0;
                                    assert(ids@[k] < ids@[i as int]);
                                }
                            }
                            let ghost pre_res = res@;
                            res.push((id, ls));
                            proof {
                                assert(res@.last().0 == ids@[i as int]);
                                assert forall|k: int|
                                    0 <= k < i + 1 && self.iview().contains_key(
                                        utf8(id_key_chars(#[trigger] ids@[k])),
                                    ) implies exists|j: int|
                                    0 <= j < res@.len() && (#[trigger] res@[j]).0 == ids@[k] by {
                                    if k == i {
                                        assert(res@[res@.len() - 1].0 == ids@[k]);
                                    } else {
                                        let j = choose|j: int|
                                            0 <= j < pre_res.len() && (#[trigger] pre_res[j]).0
                                                == ids@[k];
                                        assert(res@[j].0 == ids@[k]);
                                    }
                                }
                            }
                        },
                        Err(e) => {
                            return Err(e);
                        },
                    }
                },
                Ok(None) => {},
                Err(e) => {
                    return Err(e);
                },
            }
            i = i + 1;
        }
        proof {
            assert forall|id: TimeSeriesId|
                #[trigger] matches_all(self.iview(), labels@, id) && self.iview().contains_key(
                    utf8(id_key_chars(id)),
                ) implies exists|j: int| 0 <= j < res@.len() && (#[trigger] res@[j]).0 == id by {
                assert(ids@.contains(id));
                let k = choose|k: int| 0 <= k < ids@.len() && ids@[k] == id;
            }
        }
        Ok(res)
    }

    fn get_series_id_contains_labels(&self, labels: Labels) -> (r: Result<
        Vec<TimeSeriesId>,
        MonolithErr,
    >) {
        let v = labels.vec();
        let n = v.len();
        let mut lists: Vec<Vec<TimeSeriesId>> = Vec::new();
        let mut i: usize = 0;
        while i < n
            invariant
                i <= n,
                n == v@.len(),
                v@.map(|k: int, l: Label| l@) == labels@,
                lists@.len() == i,
                forall|k: int|
                    0 <= k < i ==> (#[trigger] lists@[k])@ == posting_ids(
                        self.iview(),
                        labels@[k],
                    ),
                forall|k: int|
                    0 <= k < i ==> crate::ops::strictly_sorted_ids((#[trigger] lists@[k])@),
            decreases n - i,
        {
            proof {
                assert(v@.map(|k: int, l: Label| l@)[i as int] == v@[i as int]@);
            }
            match self.get_id(&v[i]) {
                Ok(Some(ids)) => {
                    if !is_strictly_sorted(&ids) {
                        return Err(
                            MonolithErr::InternalErr(
                                String::from_str("posting list out of order"),
                            ),
                        );
                    }
                    lists.push(ids);
                },
                Ok(None) => {
                    let empty: Vec<u64> = Vec::new();
                    proof {
                        assert(posting_ids(self.iview(), labels@[i as int])
                            =~= Seq::<u64>::empty());
                        assert(empty@ =~= Seq::<u64>::empty());
                    }
                    lists.push(empty);
                },
                Err(e) => {
                    return Err(e);
                },
            }
            i = i + 1;
        }
        let r = match intersect_time_series_id_vec(lists) {
            Ok(r) => r,
            Err(e) => {
                return Err(e);
            },
        };
        proof {
            assert forall|x: u64| #[trigger]
                r@.contains(x) <==> (labels@.len() > 0 && (forall|k: int|
                    0 <= k < labels@.len() ==> posting_ids(
                        self.iview(),
                        #[trigger] labels@[k],
                    ).contains(x))) by {
                if labels@.len() == 0 {
                } else {
                    if r@.contains(x) {
                        assert(crate::utils::in_all_lists(lists@, x));
                        assert forall|k: int| 0 <= k < labels@.len() implies posting_ids(
                            self.iview(),
                            #[trigger] labels@[k],
                        ).contains(x) by {
                            assert(lists@[k]@.contains(x));
                        }
                    }
                    if (forall|k: int|
                        0 <= k < labels@.len() ==> posting_ids(
                            self.iview(),
                            #[trigger] labels@[k],
                        ).contains(x)) {
                        assert forall|k: int|
                            0 <= k < lists@.len() implies (#[trigger] lists@[k])@.contains(x) by {
                            assert(posting_ids(self.iview(), labels@[k]).contains(x));
                        }
                        assert(crate::utils::in_all_lists(lists@, x));
                    }
                }
            }
        }
        Ok(r)
    }

    fn get_series_id_by_labels(&self, labels: Labels) -> (r: Result<
        Option<TimeSeriesId>,
        MonolithErr,
    >) {
        let key = KvIndexerProcessor::encode_labels(&labels, true);
        let ghost sl = choose|sl: Seq<(Seq<char>, Seq<char>)>|
            #[trigger] crate::indexer::is_sorted_perm(sl, labels@) && key@ == set_key_chars(sl);
        match self.get_row(&key) {
            Ok(Some(val)) => {
                match parse_u64_dec(val.as_str()) {
                    Ok(id) => {
                        proof {
                            assert(utf8_parses_to(self.iview()[utf8(set_key_chars(sl))], id));
                        }
                        Ok(Some(id))
                    },
                    Err(e) => Err(e),
                }
            },
            Ok(None) => Ok(None),
            Err(e) => Err(e),
        }
    }

    fn create_index(&mut self, labels: Labels, time_series_id: TimeSeriesId) -> (r: Result<
        (),
        MonolithErr,
    >) {
        let mut sorted = labels.duplicate();
        sorted.sort();
        let ghost sl = sorted@;
        // The label-set row: refuse a duplicate registration.
        let mut set_key = String::new();
        set_key.append("L");
        let joined = KvIndexerProcessor::join_labels(&sorted);
        set_key.append(joined.as_str());
        proof {
            reveal_strlit("L");
            assert(set_key@ =~= set_key_chars(sl));
        }
        match self.get_row(&set_key) {
            Ok(Some(_)) => {
                proof {
                    assert(crate::indexer::is_sorted_perm(sl, labels@));
                    assert(old(self).iview().contains_key(utf8(set_key_chars(sl))));
                }
                return Err(
                    MonolithErr::InternalErr(
                        String::from_str("Duplicate label => id pair found in storage"),
                    ),
                );
            },
            Ok(None) => {},
            Err(e) => {
                return Err(e);
            },
        }
        let ghost view0 = self.iview();
        let set_key_bytes = set_key.as_str().as_bytes_vec();
        proof {
            broadcast use vstd::string::is_ascii_spec_bytes;

            assert(set_key_bytes@ == utf8(set_key_chars(sl)));
        }
        // Label set to series id.
        let id_str = u64_to_dec_string(time_series_id);
        match self.set_row(set_key_bytes, id_str.as_str().as_bytes_vec()) {
            Ok(_) => {},
            Err(e) => {
                return Err(e);
            },
        }
        // Series id to label set.
        let id_key = KvIndexerProcessor::encode_time_series_id(time_series_id);
        let id_key_bytes = id_key.as_str().as_bytes_vec();
        match self.set_row(id_key_bytes, joined.as_str().as_bytes_vec()) {
            Ok(_) => {},
            Err(e) => {
                return Err(e);
            },
        }
        let ghost base = self.iview();
        proof {
            broadcast use vstd::string::is_ascii_spec_bytes;

            assert(base == view0.insert(
                utf8(set_key_chars(sl)),
                utf8(dec_rep(time_series_id as int)),
            ).insert(utf8(id_key_chars(time_series_id)), utf8(joined_pairs(sl))));
        }
        // Reverse postings, one per label in the original order.
        let v = labels.vec();
        let n = v.len();
        let mut i: usize = 0;
        while i < n
            invariant
                i <= n,
                n == v@.len(),
                v@.map(|k: int, l: Label| l@) == labels@,
                self.iview() == postings_updated(base, labels@.take(i as int), time_series_id),
            decreases n - i,
        {
            proof {
                assert(v@.map(|k: int, l: Label| l@)[i as int] == v@[i as int]@);
            }
            let rev_key = KvIndexerProcessor::encode_label(&v[i]);
            let rev_key_bytes = rev_key.as_str().as_bytes_vec();
            proof {
                broadcast use vstd::string::is_ascii_spec_bytes;

                assert(rev_key_bytes@ == utf8(rev_key_chars(labels@[i as int])));
            }
            let new_value: Vec<u8> = match self.get_row(&rev_key) {
                Ok(Some(old_text)) => {
                    let mut old_bytes = old_text.as_str().as_bytes_vec();
                    proof {
                        broadcast use vstd::utf8::decode_utf8_encode_utf8;
                        broadcast use vstd::string::is_ascii_spec_bytes;

                        assert(old_bytes@ == self.iview()[utf8(rev_key_chars(
                            labels@[i as int],
                        ))]);
                    }
                    let mut suffix = String::new();
                    suffix.append(",");
                    let dec = u64_to_dec_string(time_series_id);
                    suffix.append(dec.as_str());
                    proof {
                        reveal_strlit(",");
                        assert(suffix@ =~= seq![','] + dec_rep(time_series_id as int));
                    }
                    let mut suffix_bytes = suffix.as_str().as_bytes_vec();
                    old_bytes.append(&mut suffix_bytes);
                    old_bytes
                },
                Ok(None) => {
                    let dec = u64_to_dec_string(time_series_id);
                    dec.as_str().as_bytes_vec()
                },
                Err(e) => {
                    return Err(e);
                },
            };
            proof {
                assert(new_value@ == crate::indexer::posting_append(
                    self.iview(),
                    utf8(rev_key_chars(labels@[i as int])),
                    time_series_id,
                ));
            }
            match self.set_row(rev_key_bytes, new_value) {
                Ok(_) => {},
                Err(e) => {
                    return Err(e);
                },
            }
            proof {
                assert(labels@.take(i + 1).drop_last() =~= labels@.take(i as int));
                assert(labels@.take(i + 1).last() == labels@[i as int]);
            }
            i = i + 1;
        }
        proof {
            assert(labels@.take(n as int) =~= labels@);
            assert(crate::indexer::is_sorted_perm(sl, labels@));
            assert(self.iview() == index_after_create(view0, sl, labels@, time_series_id));
        }
        Ok(())
    }
}

/// Builds shared-backend indexers for a chunk.
pub struct TiKvIndexerBuilder<B: TiKvRawBackend> {
    pub backend: B,
}

impl<B: TiKvRawBackend> TiKvIndexerBuilder<B> {
    pub fn new(backend: B) -> TiKvIndexerBuilder<B> {
        TiKvIndexerBuilder { backend }
    }

    /// Assign the chunk's indexer identifier on the shared backend and hand
    /// the backend to the new indexer.
    pub fn build(self, chunk_identifier: Vec<u8>) -> Result<TiKvIndexer<B>, MonolithErr> {
        let mut backend = self.backend;
        let id_copy = chunk_identifier.clone();
        let indexer_identifier = match init_component(&mut backend, id_copy, true) {
            Ok(id) => id,
            Err(e) => {
                return Err(e);
            },
        };
        Ok(
            TiKvIndexer {
                client: backend,
                chunk_identifier,
                indexer_identifier,
            },
        )
    }
}

} // verus!
