//! Sled-backed indexer and the canonical key-value encoding of labels.

use crate::error::MonolithErr;
use crate::indexer::{
    decode_ids, decode_pair, decode_pairs, first_comma, first_eq, id_key_chars, index_after_create,
    matches_all,
    joined_pairs, pair_str, posting_ids, postings_updated, rev_key_chars, set_key_chars, utf8,
    utf8_parses_to, Indexer,
};
use crate::label::{Label, Labels};
use crate::ops::is_strictly_sorted;
use crate::sled_kv::{
    sled_contains, sled_error_message, sled_flush, sled_get, sled_insert, sled_open, sled_contents,
};
use crate::time_series::TimeSeriesId;
use crate::utils::{dec_rep, intersect_time_series_id_vec, parse_u64_dec, u64_to_dec_string,
    utf8_to_string};
use vstd::prelude::*;

verus! {

/// Sled-backed indexer: searches time-series ids by labels through three
/// stored mappings (reverse postings, label set to id, id to label set).
pub struct SledIndexer {
    pub storage: sled::Db,
}

/// Translates labels and ids to and from their stored string forms.
pub struct KvIndexerProcessor {}

impl KvIndexerProcessor {
    /// `key=value` form of one label.
    pub fn raw_encode_label(label: &Label) -> (r: String)
        ensures
            r@ == pair_str(label@),
    {
        let mut s = String::new();
        s.append(label.key().as_str());
        s.append("=");
        s.append(label.value().as_str());
        proof {
            reveal_strlit("=");
            assert(s@ =~= pair_str(label@));
        }
        s
    }

    /// Encode a single label as a reverse-posting key: `LR{key}={value}`.
    pub fn encode_label(label: &Label) -> (r: String)
        ensures
            r@ == rev_key_chars(label@),
    {
        let mut s = String::new();
        s.append("LR");
        s.append(KvIndexerProcessor::raw_encode_label(label).as_str());
        proof {
            reveal_strlit("LR");
            assert(s@ =~= rev_key_chars(label@));
        }
        s
    }

    /// Join already-sorted labels as `k1=v1,k2=v2,...`.
    pub fn join_labels(labels: &Labels) -> (r: String)
        ensures
            r@ == joined_pairs(labels@),
    {
        let v = labels.vec();
        let n = v.len();
        let mut s = String::new();
        let mut i: usize = 0;
        proof {
            assert(labels@.take(0int) =~= Seq::<(Seq<char>, Seq<char>)>::empty());
        }
        while i < n
            invariant
                i <= n,
                n == v@.len(),
                v@.map(|k: int, l: Label| l@) == labels@,
                s@ == joined_pairs(labels@.take(i as int)),
            decreases n - i,
        {
            if i > 0 {
                s.append(",");
            }
            let piece = KvIndexerProcessor::raw_encode_label(&v[i]);
            s.append(piece.as_str());
            proof {
                reveal_strlit(",");
                assert(v@.map(|k: int, l: Label| l@)[i as int] == v@[i as int]@);
                assert(labels@.take(i + 1).drop_last() =~= labels@.take(i as int));
                assert(labels@.take(i + 1).last() == labels@[i as int]);
                if i > 0 {
                    assert(s@ =~= joined_pairs(labels@.take(i as int)) + seq![','] + pair_str(
                        labels@[i as int],
                    ));
                } else {
                    assert(s@ =~= pair_str(labels@[0]));
                    assert(labels@.take(1int).len() == 1);
                }
            }
            i = i + 1;
        }
        proof {
            assert(labels@.take(n as int) =~= labels@);
        }
        s
    }

    /// Encode a label set: sort a copy by key, join with commas, and prefix
    /// with `L` when the string is used as a key.
    pub fn encode_labels(labels: &Labels, with_prefix: bool) -> (r: String)
        ensures
            exists|sl: Seq<(Seq<char>, Seq<char>)>|
                {
                    &&& #[trigger] crate::indexer::is_sorted_perm(sl, labels@)
                    &&& r@ == if with_prefix {
                        set_key_chars(sl)
                    } else {
                        joined_pairs(sl)
                    }
                },
    {
        let mut sorted = labels.duplicate();
        sorted.sort();
        let joined = KvIndexerProcessor::join_labels(&sorted);
        let ghost sl = sorted@;
        if with_prefix {
            let mut s = String::new();
            s.append("L");
            s.append(joined.as_str());
            proof {
                reveal_strlit("L");
                assert(s@ =~= set_key_chars(sl));
                assert(crate::indexer::is_sorted_perm(sl, labels@));
            }
            s
        } else {
            proof {
                assert(crate::indexer::is_sorted_perm(sl, labels@));
            }
            joined
        }
    }

    /// Decode a stored label-set string; `is_key` strips the leading `L`.
    /// Fails with `InternalErr` exactly when some comma-separated segment
    /// holds no `=` (or a key form is empty).
    pub fn decode_labels(labels_str: String, is_key: bool) -> (r: Result<Labels, MonolithErr>)
        ensures
            ({
                let body = if is_key {
                    labels_str@.skip(1)
                } else {
                    labels_str@
                };
                &&& (r matches Ok(ls) ==> (labels_str@.len() > 0 || !is_key) && decode_pairs(body)
                    == Option::Some(ls@))
                &&& (r is Err ==> (is_key && labels_str@.len() == 0) || decode_pairs(body)
                    is None)
            }),
    {
        let s = labels_str.as_str();
        let len = s.unicode_len();
        if is_key {
            if len == 0 {
                return Err(
                    MonolithErr::InternalErr(String::from_str("Cannot parse label data")),
                );
            }
            let body = s.substring_char(1, len);
            match KvIndexerProcessor::decode_segments(body) {
                Ok(v) => Ok(Labels::from_vec(v)),
                Err(e) => Err(e),
            }
        } else {
            match KvIndexerProcessor::decode_segments(s) {
                Ok(v) => Ok(Labels::from_vec(v)),
                Err(e) => Err(e),
            }
        }
    }

    /// Parse comma-separated `key=value` segments, splitting each at its
    /// first `=`.
    fn decode_segments(s: &str) -> (r: Result<Vec<Label>, MonolithErr>)
        ensures
            r matches Ok(v) ==> decode_pairs(s@) == Option::Some(
                v@.map(|i: int, l: Label| l@),
            ),
            r is Err ==> decode_pairs(s@) is None,
        decreases s@.len(),
    {
        let len = s.unicode_len();
        let mut c: usize = 0;
        while c < len && !char_is_comma(s.get_char(c))
            invariant
                c <= len,
                len == s@.len(),
                forall|j: int| 0 <= j < c ==> s@[j] != ',',
            decreases len - c,
        {
            c = c + 1;
        }
        proof {
            lemma_first_comma_at(s@, c as int);
        }
        let mut e: usize = 0;
        while e < c && !char_is_eq(s.get_char(e))
            invariant
                e <= c,
                c <= len,
                len == s@.len(),
                forall|j: int| 0 <= j < e ==> s@[j] != '=',
            decreases c - e,
        {
            e = e + 1;
        }
        let ghost seg = s@.take(c as int);
        proof {
            assert(forall|j: int| 0 <= j < c ==> seg[j] == #[trigger] s@[j]);
            if e < c {
                lemma_first_eq_at(seg, e as int);
            } else {
                lemma_first_eq_at(seg, c as int);
            }
        }
        if e == c {
            // The segment has no `=`: the stored data is corrupt.
            return Err(MonolithErr::InternalErr(String::from_str("Cannot parse label data")));
        }
        let key = s.substring_char(0, e);
        let value = s.substring_char(e + 1, c);
        let label = Label::from_key_value(key, value);
        proof {
            assert(seg.take(e as int) =~= s@.subrange(0, e as int));
            assert(seg.skip(e + 1int) =~= s@.subrange(e + 1, c as int));
            assert(decode_pair(seg) == Option::Some((key@, value@)));
        }
        if c == len {
            let mut v: Vec<Label> = Vec::new();
            v.push(label);
            proof {
                assert(v@.map(|i: int, l: Label| l@) =~= seq![(key@, value@)]);
            }
            return Ok(v);
        }
        let rest = s.substring_char(c + 1, len);
        proof {
            assert(rest@ =~= s@.skip(c + 1int));
        }
        match KvIndexerProcessor::decode_segments(rest) {
            Ok(mut tail) => {
                let ghost tail_pairs = tail@.map(|i: int, l: Label| l@);
                tail.insert(0, label);
                proof {
                    assert(tail@.map(|i: int, l: Label| l@) =~= seq![(key@, value@)] + tail_pairs);
                }
                Ok(tail)
            },
            Err(err) => Err(err),
        }
    }

    /// Parse a stored posting value: comma-separated decimal ids.
    pub(crate) fn parse_id_list(s: &str) -> (r: Result<Vec<TimeSeriesId>, MonolithErr>)
        ensures
            r matches Ok(v) ==> decode_ids(s@) == Option::Some(v@),
            r is Err ==> decode_ids(s@) is None,
        decreases s@.len(),
    {
        let len = s.unicode_len();
        let mut c: usize = 0;
        while c < len && !char_is_comma(s.get_char(c))
            invariant
                c <= len,
                len == s@.len(),
                forall|j: int| 0 <= j < c ==> s@[j] != ',',
            decreases len - c,
        {
            c = c + 1;
        }
        proof {
            lemma_first_comma_at(s@, c as int);
        }
        let seg = s.substring_char(0, c);
        proof {
            assert(seg@ =~= s@.take(c as int));
        }
        let id = match parse_u64_dec(seg) {
            Ok(n) => n,
            Err(_) => {
                return Err(MonolithErr::ParseErr);
            },
        };
        if c == len {
            let mut v: Vec<u64> = Vec::new();
            v.push(id);
            proof {
                assert(v@ =~= seq![id]);
            }
            return Ok(v);
        }
        let rest = s.substring_char(c + 1, len);
        proof {
            assert(rest@ =~= s@.skip(c + 1int));
        }
        match KvIndexerProcessor::parse_id_list(rest) {
            Ok(mut tail) => {
                let ghost tail_ids = tail@;
                tail.insert(0, id);
                proof {
                    assert(tail@ =~= seq![id] + tail_ids);
                }
                Ok(tail)
            },
            Err(err) => Err(err),
        }
    }

    /// Encode a series id as its metadata key: `I{id}`.
    pub fn encode_time_series_id(id: TimeSeriesId) -> (r: String)
        ensures
            r@ == id_key_chars(id),
    {
        let mut s = String::new();
        s.append("I");
        let dec = u64_to_dec_string(id);
        s.append(dec.as_str());
        proof {
            reveal_strlit("I");
            assert(s@ =~= id_key_chars(id));
        }
        s
    }

    /// Decode a series id from its metadata key, stripping the `I` prefix.
    pub fn decode_time_series_id(id_str: String) -> (r: Result<TimeSeriesId, MonolithErr>)
        ensures
            r matches Ok(id) ==> {
                &&& id_str@.len() > 1
                &&& crate::utils::all_dec(id_str@.skip(1))
                &&& id == crate::utils::dec_value(id_str@.skip(1))
            },
            r is Ok <==> (id_str@.len() > 1 && crate::utils::all_dec(id_str@.skip(1))
                && crate::utils::dec_value(id_str@.skip(1)) < 0x10000000000000000),
            r matches Err(e) ==> e is ParseErr,
    {
        let s = id_str.as_str();
        let len = s.unicode_len();
        if len == 0 {
            return Err(MonolithErr::ParseErr);
        }
        let body = s.substring_char(1, len);
        proof {
            assert(body@ =~= id_str@.skip(1));
        }
        parse_u64_dec(body)
    }
}

/// Builds sled-backed indexers under a chunk directory.
pub struct SledIndexerBuilder {}

impl SledIndexerBuilder {
    pub fn new() -> SledIndexerBuilder {
        SledIndexerBuilder {}
    }

    /// Open the indexer under `{path}/indexer`; the caller joins the path,
    /// since path handling lives at the edge.
    pub fn build(&self, path: &str) -> Result<SledIndexer, MonolithErr> {
        SledIndexer::new(path)
    }
}

impl SledIndexer {
    pub fn new(dir: &str) -> (r: Result<SledIndexer, MonolithErr>) {
        match sled_open(dir) {
            Ok(db) => Ok(SledIndexer { storage: db }),
            Err(e) => Err(MonolithErr::IoError(sled_error_message(&e))),
        }
    }

    /// Read a stored row as text.
    pub fn get(&self, key: &String) -> (r: Result<Option<String>, MonolithErr>)
        ensures
            r matches Ok(opt) ==> {
                &&& (opt matches Some(v) ==> self.iview().contains_key(utf8(key@))
                    && vstd::utf8::valid_utf8(self.iview()[utf8(key@)]) && v@
                    == vstd::utf8::decode_utf8(self.iview()[utf8(key@)]))
                &&& (opt is None ==> !self.iview().contains_key(utf8(key@)))
            },
    {
        let kb = key.as_str().as_bytes_vec();
        proof {
            broadcast use vstd::string::is_ascii_spec_bytes;

            assert(kb@ == utf8(key@));
        }
        match sled_get(&self.storage, kb.as_slice()) {
            Ok(Some(v)) => match utf8_to_string(v) {
                Some(s) => Ok(Some(s)),
                None => Err(MonolithErr::ParseErr),
            },
            Ok(None) => Ok(None),
            Err(e) => Err(MonolithErr::IoError(sled_error_message(&e))),
        }
    }

    /// The posting list of one label, parsed.
    fn get_id(&self, label: &Label) -> (r: Result<Option<Vec<TimeSeriesId>>, MonolithErr>)
        ensures
            r matches Ok(opt) ==> {
                &&& (opt matches Some(ids) ==> ids@ == posting_ids(self.iview(), label@))
                &&& (opt is None ==> !self.iview().contains_key(utf8(rev_key_chars(label@))))
            },
    {
        let key = KvIndexerProcessor::encode_label(label);
        match self.get(&key) {
            Ok(Some(val)) => {
                match KvIndexerProcessor::parse_id_list(val.as_str()) {
                    Ok(ids) => {
                        proof {
                            broadcast use vstd::utf8::decode_utf8_encode_utf8;

                            assert(posting_ids(self.iview(), label@) == ids@);
                        }
                        Ok(Some(ids))
                    },
                    Err(e) => Err(e),
                }
            },
            Ok(None) => Ok(None),
            Err(e) => Err(e),
        }
    }
}

impl Indexer for SledIndexer {
    open spec fn iview(&self) -> Map<Seq<u8>, Seq<u8>> {
        sled_contents(&self.storage)
    }

    #[verifier::rlimit(50)]
    fn get_series_metadata_contains_labels(&self, labels: Labels) -> (r: Result<
        Vec<(TimeSeriesId, Labels)>,
        MonolithErr,
    >) {
        let ids = match self.get_series_id_contains_labels(labels) {
            Ok(ids) => ids,
            Err(e) => {
                return Err(e);
            },
        };
        proof {
            assert forall|x: TimeSeriesId| #[trigger] ids@.contains(x) implies matches_all(
                self.iview(),
                labels@,
                x,
            ) by {}
            assert forall|x: TimeSeriesId| matches_all(self.iview(), labels@, x) implies ids@.contains(
                x,
            ) by {}
        }
        let n = ids.len();
        let mut res: Vec<(TimeSeriesId, Labels)> = Vec::new();
        let mut i: usize = 0;
        while i < n
            invariant
                i <= n,
                n == ids@.len(),
                crate::ops::strictly_sorted_ids(ids@),
                forall|x: TimeSeriesId|
                    #[trigger] ids@.contains(x) <==> matches_all(self.iview(), labels@, x),
                forall|j: int|
                    0 <= j < res@.len() ==> {
                        &&& matches_all(self.iview(), labels@, (#[trigger] res@[j]).0)
                        &&& self.iview().contains_key(utf8(id_key_chars(res@[j].0)))
                        &&& vstd::utf8::valid_utf8(self.iview()[utf8(id_key_chars(res@[j].0))])
                        &&& decode_pairs(
                            vstd::utf8::decode_utf8(self.iview()[utf8(id_key_chars(res@[j].0))]),
                        ) == Option::Some(res@[j].1@)
                    },
                forall|a: int, b: int|
                    0 <= a < b < res@.len() ==> (#[trigger] res@[a]).0 < (#[trigger] res@[b]).0,
                forall|j: int|
                    0 <= j < res@.len() ==> exists|k: int|
                        0 <= k < i && ids@[k] == (#[trigger] res@[j]).0,
                forall|k: int|
                    0 <= k < i && self.iview().contains_key(
                        utf8(id_key_chars(#[trigger] ids@[k])),
                    ) ==> exists|j: int| 0 <= j < res@.len() && (#[trigger] res@[j]).0 == ids@[k],
            decreases n - i,
        {
            let id = ids[i];
            let key = KvIndexerProcessor::encode_time_series_id(id);
            match self.get(&key) {
                Ok(Some(labels_str)) => {
                    match KvIndexerProcessor::decode_labels(labels_str, false) {
                        Ok(ls) => {
                            proof {
                                assert(ids@.contains(id)) by {
                                    assert(ids@[i as int] == id);
                                }
                                assert forall|a: int| 0 <= a < res@.len() implies (
                                #[trigger] res@[a]).0 < id by {
                                    let k = choose|k: int| 0 <= k < i && ids@[k] == res@[a].0;
                                    assert(ids@[k] < ids@[i as int]);
                                }
                            }
                            let ghost pre_res = res@;
                            res.push((id, ls));
                            proof {
                                assert(res@.last().0 == ids@[i as int]);
                                assert forall|k: int|
                                    0 <= k < i + 1 && self.iview().contains_key(
                                        utf8(id_key_chars(#[trigger] ids@[k])),
                                    ) implies exists|j: int|
                                    0 <= j < res@.len() && (#[trigger] res@[j]).0 == ids@[k] by {
                                    if k == i {
                                        assert(res@[res@.len() - 1].0 == ids@[k]);
                                    } else {
                                        let j = choose|j: int|
                                            0 <= j < pre_res.len() && (#[trigger] pre_res[j]).0
                                                == ids@[k];
                                        assert(res@[j].0 == ids@[k]);
                                    }
                                }
                            }
                        },
                        Err(e) => {
                            return Err(e);
                        },
                    }
                },
                Ok(None) => {},
                Err(e) => {
                    return Err(e);
                },
            }
            i = i + 1;
        }
        proof {
            assert forall|id: TimeSeriesId|
                #[trigger] matches_all(self.iview(), labels@, id) && self.iview().contains_key(
                    utf8(id_key_chars(id)),
                ) implies exists|j: int| 0 <= j < res@.len() && (#[trigger] res@[j]).0 == id by {
                assert(ids@.contains(id));
                let k = choose|k: int| 0 <= k < ids@.len() && ids@[k] == id;
            }
        }
        Ok(res)
    }

    fn get_series_id_contains_labels(&self, labels: Labels) -> (r: Result<
        Vec<TimeSeriesId>,
        MonolithErr,
    >) {
        let v = labels.vec();
        let n = v.len();
        let mut lists: Vec<Vec<TimeSeriesId>> = Vec::new();
        let mut i: usize = 0;
        while i < n
            invariant
                i <= n,
                n == v@.len(),
                v@.map(|k: int, l: Label| l@) == labels@,
                lists@.len() == i,
                forall|k: int|
                    0 <= k < i ==> (#[trigger] lists@[k])@ == posting_ids(
                        self.iview(),
                        labels@[k],
                    ),
                forall|k: int|
                    0 <= k < i ==> crate::ops::strictly_sorted_ids((#[trigger] lists@[k])@),
            decreases n - i,
        {
            proof {
                assert(v@.map(|k: int, l: Label| l@)[i as int] == v@[i as int]@);
            }
            match self.get_id(&v[i]) {
                Ok(Some(ids)) => {
                    if !is_strictly_sorted(&ids) {
                        return Err(
                            MonolithErr::InternalErr(
                                String::from_str("posting list out of order"),
                            ),
                        );
                    }
                    lists.push(ids);
                },
                Ok(None) => {
                    let empty: Vec<u64> = Vec::new();
                    proof {
                        assert(posting_ids(self.iview(), labels@[i as int])
                            =~= Seq::<u64>::empty());
                        assert(empty@ =~= Seq::<u64>::empty());
                    }
                    lists.push(empty);
                },
                Err(e) => {
                    return Err(e);
                },
            }
            i = i + 1;
        }
        let r = match intersect_time_series_id_vec(lists) {
            Ok(r) => r,
            Err(e) => {
                return Err(e);
            },
        };
        proof {
            assert forall|x: u64| #[trigger]
                r@.contains(x) <==> (labels@.len() > 0 && (forall|k: int|
                    0 <= k < labels@.len() ==> posting_ids(
                        self.iview(),
                        #[trigger] labels@[k],
                    ).contains(x))) by {
                if labels@.len() == 0 {
                } else {
                    if r@.contains(x) {
                        assert(crate::utils::in_all_lists(lists@, x));
                        assert forall|k: int| 0 <= k < labels@.len() implies posting_ids(
                            self.iview(),
                            #[trigger] labels@[k],
                        ).contains(x) by {
                            assert(lists@[k]@.contains(x));
                        }
                    }
                    if (forall|k: int|
                        0 <= k < labels@.len() ==> posting_ids(
                            self.iview(),
                            #[trigger] labels@[k],
                        ).contains(x)) {
                        assert forall|k: int|
                            0 <= k < lists@.len() implies (#[trigger] lists@[k])@.contains(x) by {
                            assert(posting_ids(self.iview(), labels@[k]).contains(x));
                        }
                        assert(crate::utils::in_all_lists(lists@, x));
                    }
                }
            }
        }
        Ok(r)
    }

    fn get_series_id_by_labels(&self, labels: Labels) -> (r: Result<
        Option<TimeSeriesId>,
        MonolithErr,
    >) {
        let key = KvIndexerProcessor::encode_labels(&labels, true);
        let ghost sl = choose|sl: Seq<(Seq<char>, Seq<char>)>|
            #[trigger] crate::indexer::is_sorted_perm(sl, labels@) && key@ == set_key_chars(sl);
        match self.get(&key) {
            Ok(Some(val)) => {
                match parse_u64_dec(val.as_str()) {
                    Ok(id) => {
                        proof {
                            assert(utf8_parses_to(self.iview()[utf8(set_key_chars(sl))], id));
                        }
                        Ok(Some(id))
                    },
                    Err(e) => Err(e),
                }
            },
            Ok(None) => Ok(None),
            Err(e) => Err(e),
        }
    }

    fn create_index(&mut self, labels: Labels, time_series_id: TimeSeriesId) -> (r: Result<
        (),
        MonolithErr,
    >) {
        let mut sorted = labels.duplicate();
        sorted.sort();
        let ghost sl = sorted@;
        // The label-set row: refuse a duplicate registration.
        let mut set_key = String::new();
        set_key.append("L");
        let joined = KvIndexerProcessor::join_labels(&sorted);
        set_key.append(joined.as_str());
        proof {
            reveal_strlit("L");
            assert(set_key@ =~= set_key_chars(sl));
        }
        let set_key_bytes = set_key.as_str().as_bytes_vec();
        proof {
            broadcast use vstd::string::is_ascii_spec_bytes;

            assert(set_key_bytes@ == utf8(set_key_chars(sl)));
        }
        match sled_contains(&self.storage, set_key_bytes.as_slice()) {
            Ok(true) => {
                proof {
                    assert(crate::indexer::is_sorted_perm(sl, labels@));
                    assert(old(self).iview().contains_key(utf8(set_key_chars(sl))));
                }
                return Err(
                    MonolithErr::InternalErr(
                        String::from_str("Duplicate label => id pair found in storage"),
                    ),
                );
            },
            Ok(false) => {},
            Err(e) => {
                return Err(MonolithErr::IoError(sled_error_message(&e)));
            },
        }
        let ghost view0 = self.iview();
        // Label set to series id.
        let id_str = u64_to_dec_string(time_series_id);
        match sled_insert(
            &mut self.storage,
            set_key_bytes.as_slice(),
            id_str.as_str().as_bytes_vec(),
        ) {
            Ok(_) => {},
            Err(e) => {
                return Err(MonolithErr::IoError(sled_error_message(&e)));
            },
        }
        // Series id to label set.
        let id_key = KvIndexerProcessor::encode_time_series_id(time_series_id);
        let id_key_bytes = id_key.as_str().as_bytes_vec();
        match sled_insert(
            &mut self.storage,
            id_key_bytes.as_slice(),
            joined.as_str().as_bytes_vec(),
        ) {
            Ok(_) => {},
            Err(e) => {
                return Err(MonolithErr::IoError(sled_error_message(&e)));
            },
        }
        let ghost base = self.iview();
        proof {
            broadcast use vstd::string::is_ascii_spec_bytes;

            assert(base == view0.insert(
                utf8(set_key_chars(sl)),
                utf8(dec_rep(time_series_id as int)),
            ).insert(utf8(id_key_chars(time_series_id)), utf8(joined_pairs(sl))));
        }
        // Reverse postings, one per label in the original order.
        let v = labels.vec();
        let n = v.len();
        let mut i: usize = 0;
        while i < n
            invariant
                i <= n,
                n == v@.len(),
                v@.map(|k: int, l: Label| l@) == labels@,
                self.iview() == postings_updated(base, labels@.take(i as int), time_series_id),
            decreases n - i,
        {
            proof {
                assert(v@.map(|k: int, l: Label| l@)[i as int] == v@[i as int]@);
            }
            let rev_key = KvIndexerProcessor::encode_label(&v[i]);
            let rev_key_bytes = rev_key.as_str().as_bytes_vec();
            proof {
                broadcast use vstd::string::is_ascii_spec_bytes;

                assert(rev_key_bytes@ == utf8(rev_key_chars(labels@[i as int])));
            }
            let new_value: Vec<u8> = match sled_get(&self.storage, rev_key_bytes.as_slice()) {
                Ok(Some(mut old_bytes)) => {
                    let mut suffix = String::new();
                    suffix.append(",");
                    let dec = u64_to_dec_string(time_series_id);
                    suffix.append(dec.as_str());
                    proof {
                        reveal_strlit(",");
                        assert(suffix@ =~= seq![','] + dec_rep(time_series_id as int));
                    }
                    let mut suffix_bytes = suffix.as_str().as_bytes_vec();
                    old_bytes.append(&mut suffix_bytes);
                    old_bytes
                },
                Ok(None) => {
                    let dec = u64_to_dec_string(time_series_id);
                    dec.as_str().as_bytes_vec()
                },
                Err(e) => {
                    return Err(MonolithErr::IoError(sled_error_message(&e)));
                },
            };
            proof {
                assert(new_value@ == crate::indexer::posting_append(
                    self.iview(),
                    utf8(rev_key_chars(labels@[i as int])),
                    time_series_id,
                ));
            }
            match sled_insert(&mut self.storage, rev_key_bytes.as_slice(), new_value) {
                Ok(_) => {},
                Err(e) => {
                    return Err(MonolithErr::IoError(sled_error_message(&e)));
                },
            }
            match sled_flush(&mut self.storage) {
                Ok(_) => {},
                Err(e) => {
                    return Err(MonolithErr::IoError(sled_error_message(&e)));
                },
            }
            proof {
                assert(labels@.take(i + 1).drop_last() =~= labels@.take(i as int));
                assert(labels@.take(i + 1).last() == labels@[i as int]);
            }
            i = i + 1;
        }
        proof {
            assert(labels@.take(n as int) =~= labels@);
            assert(crate::indexer::is_sorted_perm(sl, labels@));
            assert(self.iview() == index_after_create(view0, sl, labels@, time_series_id));
        }
        Ok(())
    }
}

/// Whether `c` is a comma. (Keeps character literals out of loop
/// conditions.)
fn char_is_comma(c: char) -> (r: bool)
    ensures
        r == (c == ','),
{
    c == ','
}

/// Whether `c` is an equals sign.
fn char_is_eq(c: char) -> (r: bool)
    ensures
        r == (c == '='),
{
    c == '='
}

/// A position with no comma before it, and a comma (or the end) at it, is
/// the first comma.
pub proof fn lemma_first_comma_at(s: Seq<char>, m: int)
    requires
        0 <= m <= s.len(),
        forall|j: int| 0 <= j < m ==> s[j] != ',',
        m < s.len() ==> s[m] == ',',
    ensures
        first_comma(s) == m,
    decreases m,
{
    if s.len() == 0 {
    } else if s[0] == ',' {
        assert(m == 0);
    } else {
        assert(m >= 1);
        assert(forall|j: int| 0 <= j < m - 1 ==> s.skip(1)[j] == #[trigger] s[j + 1]);
        if m < s.len() {
            assert(s.skip(1)[m - 1] == s[m]);
        }
        lemma_first_comma_at(s.skip(1), m - 1);
    }
}

/// A position with no `=` before it, and an `=` (or the end) at it, is the
/// first `=`.
pub proof fn lemma_first_eq_at(s: Seq<char>, m: int)
    requires
        0 <= m <= s.len(),
        forall|j: int| 0 <= j < m ==> s[j] != '=',
        m < s.len() ==> s[m] == '=',
    ensures
        first_eq(s) == m,
    decreases m,
{
    if s.len() == 0 {
    } else if s[0] == '=' {
        assert(m == 0);
    } else {
        assert(m >= 1);
        assert(forall|j: int| 0 <= j < m - 1 ==> s.skip(1)[j] == #[trigger] s[j + 1]);
        if m < s.len() {
            assert(s.skip(1)[m - 1] == s[m]);
        }
        lemma_first_eq_at(s.skip(1), m - 1);
    }
}

/// For a run of two or more pairs, the joined form starts with the first
/// pair and a comma.
proof fn lemma_joined_cons(sl: Seq<(Seq<char>, Seq<char>)>)
    requires
        sl.len() >= 2,
    ensures
        joined_pairs(sl) == pair_str(sl[0]) + seq![','] + joined_pairs(sl.drop_first()),
    decreases sl.len(),
{
    if sl.len() == 2 {
        assert(sl.drop_last() =~= seq![sl[0]]);
        assert(sl.drop_first() =~= seq![sl[1]]);
        assert(joined_pairs(seq![sl[0]]) == pair_str(sl[0]));
        assert(joined_pairs(seq![sl[1]]) == pair_str(sl[1]));
        assert(joined_pairs(sl) =~= pair_str(sl[0]) + seq![','] + joined_pairs(sl.drop_first()));
    } else {
        lemma_joined_cons(sl.drop_last());
        assert(sl.drop_last()[0] == sl[0]);
        assert(sl.drop_last().drop_first() =~= sl.drop_first().drop_last());
        assert(sl.drop_first().len() >= 2);
        assert(sl.drop_first().last() == sl.last());
        assert(joined_pairs(sl) == joined_pairs(sl.drop_last()) + seq![','] + pair_str(sl.last()));
        assert(joined_pairs(sl.drop_first()) == joined_pairs(sl.drop_first().drop_last()) + seq![
            ','] + pair_str(sl.last()));
        assert(joined_pairs(sl) =~= pair_str(sl[0]) + seq![','] + joined_pairs(sl.drop_first()));
    }
}

/// A valid pair's string has no comma at all.
proof fn lemma_pair_no_comma(p: (Seq<char>, Seq<char>))
    requires
        crate::indexer::valid_pair(p),
    ensures
        forall|j: int| 0 <= j < pair_str(p).len() ==> pair_str(p)[j] != ',',
{
    assert forall|j: int| 0 <= j < pair_str(p).len() implies pair_str(p)[j] != ',' by {
        if j < p.0.len() {
            assert(pair_str(p)[j] == p.0[j]);
        } else if j == p.0.len() {
            assert(pair_str(p)[j] == '=');
        } else {
            assert(pair_str(p)[j] == p.1[j - p.0.len() - 1]);
        }
    }
}

/// Splitting a valid pair's string at its first `=` recovers the pair.
proof fn lemma_decode_one_pair(p: (Seq<char>, Seq<char>))
    requires
        crate::indexer::valid_pair(p),
    ensures
        decode_pair(pair_str(p)) == Option::Some(p),
{
    let s = pair_str(p);
    assert(forall|j: int| 0 <= j < p.0.len() ==> s[j] == #[trigger] p.0[j]);
    assert(s[p.0.len() as int] == '=');
    lemma_first_eq_at(s, p.0.len() as int);
    assert(s.take(p.0.len() as int) =~= p.0);
    assert(s.skip(p.0.len() + 1int) =~= p.1);
    assert(decode_pair(s) == Option::Some((p.0, p.1)));
    assert((p.0, p.1) == p);
}

/// Decoding the canonical join of valid pairs yields the pairs themselves:
/// the encode/decode pair of the indexer inverts on any sorted label run
/// whose keys are word characters and whose values are comma-free.
pub proof fn lemma_labels_roundtrip(sl: Seq<(Seq<char>, Seq<char>)>)
    requires
        crate::indexer::valid_pairs(sl),
        sl.len() > 0,
    ensures
        decode_pairs(joined_pairs(sl)) == Option::Some(sl),
        decode_pairs(set_key_chars(sl).skip(1)) == Option::Some(sl),
    decreases sl.len(),
{
    let s = joined_pairs(sl);
    if sl.len() == 1 {
        assert(s == pair_str(sl[0]));
        lemma_pair_no_comma(sl[0]);
        lemma_first_comma_at(s, s.len() as int);
        assert(s.take(s.len() as int) =~= s);
        lemma_decode_one_pair(sl[0]);
        assert(decode_pairs(s) == Option::Some(seq![sl[0]]));
        assert(seq![sl[0]] =~= sl);
    } else {
        lemma_joined_cons(sl);
        let head = pair_str(sl[0]);
        let m = head.len() as int;
        lemma_pair_no_comma(sl[0]);
        assert(forall|j: int| 0 <= j < m ==> s[j] == #[trigger] head[j]);
        assert(s[m] == ',');
        lemma_first_comma_at(s, m);
        assert(s.take(m) =~= head);
        lemma_decode_one_pair(sl[0]);
        assert(crate::indexer::valid_pairs(sl.drop_first())) by {
            assert(forall|k: int|
                0 <= k < sl.len() - 1 ==> #[trigger] sl.drop_first()[k] == sl[k + 1]);
        }
        lemma_labels_roundtrip(sl.drop_first());
        assert(s.skip(m + 1) =~= joined_pairs(sl.drop_first()));
        assert(decode_pairs(s) == Option::Some(seq![sl[0]] + sl.drop_first()));
        assert(seq![sl[0]] + sl.drop_first() =~= sl);
    }
    assert(set_key_chars(sl).skip(1) =~= s);
}

} // verus!
