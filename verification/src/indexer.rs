//! The label indexer: three mappings per chunk (label to posting list,
//! label set to id, id to label set), their canonical string encodings, and
//! the indexer interface.

use crate::error::MonolithErr;
use crate::label::{sorted_by_key, Labels};
use crate::ops::strictly_sorted_ids;
use crate::time_series::TimeSeriesId;
use crate::utils::dec_rep;
use vstd::prelude::*;

verus! {

/// One label pair as characters: `key=value`.
pub open spec fn pair_str(p: (Seq<char>, Seq<char>)) -> Seq<char> {
    p.0 + seq!['='] + p.1
}

/// Label pairs joined with commas.
pub open spec fn joined_pairs(ls: Seq<(Seq<char>, Seq<char>)>) -> Seq<char>
    decreases ls.len(),
{
    if ls.len() == 0 {
        Seq::<char>::empty()
    } else if ls.len() == 1 {
        pair_str(ls[0])
    } else {
        joined_pairs(ls.drop_last()) + seq![','] + pair_str(ls.last())
    }
}

/// Decimal ids joined with commas.
pub open spec fn joined_ids(ids: Seq<u64>) -> Seq<char>
    decreases ids.len(),
{
    if ids.len() == 0 {
        Seq::<char>::empty()
    } else if ids.len() == 1 {
        dec_rep(ids[0] as int)
    } else {
        joined_ids(ids.drop_last()) + seq![','] + dec_rep(ids.last() as int)
    }
}

/// `sl` is `ls` sorted by key.
pub open spec fn is_sorted_perm(
    sl: Seq<(Seq<char>, Seq<char>)>,
    ls: Seq<(Seq<char>, Seq<char>)>,
) -> bool {
    sorted_by_key(sl) && sl.to_multiset() == ls.to_multiset()
}

/// The reverse-posting key of one label: `LR{key}={value}`.
pub open spec fn rev_key_chars(p: (Seq<char>, Seq<char>)) -> Seq<char> {
    seq!['L', 'R'] + pair_str(p)
}

/// The label-set key of a sorted label run: `L{k1}={v1},{k2}={v2},...`.
pub open spec fn set_key_chars(sl: Seq<(Seq<char>, Seq<char>)>) -> Seq<char> {
    seq!['L'] + joined_pairs(sl)
}

/// The id key of a series: `I{id}`.
pub open spec fn id_key_chars(id: TimeSeriesId) -> Seq<char> {
    seq!['I'] + dec_rep(id as int)
}

/// The UTF-8 bytes of a character run, as stored in the key-value backend.
pub open spec fn utf8(s: Seq<char>) -> Seq<u8> {
    vstd::utf8::encode_utf8(s)
}

/// Index of the first comma, or the length when there is none.
pub open spec fn first_comma(s: Seq<char>) -> nat
    decreases s.len(),
{
    if s.len() == 0 {
        0
    } else if s[0] == ',' {
        0
    } else {
        1 + first_comma(s.skip(1))
    }
}

/// Index of the first `=`, or the length when there is none.
pub open spec fn first_eq(s: Seq<char>) -> nat
    decreases s.len(),
{
    if s.len() == 0 {
        0
    } else if s[0] == '=' {
        0
    } else {
        1 + first_eq(s.skip(1))
    }
}

/// Parse one `key=value` segment at its first `=`.
pub open spec fn decode_pair(seg: Seq<char>) -> Option<(Seq<char>, Seq<char>)> {
    let e = first_eq(seg);
    if e >= seg.len() {
        Option::None
    } else {
        Option::Some((seg.take(e as int), seg.skip(e + 1int)))
    }
}

/// Parse comma-separated `key=value` pairs; fails when a segment has no
/// `=`.
pub open spec fn decode_pairs(s: Seq<char>) -> Option<Seq<(Seq<char>, Seq<char>)>>
    decreases s.len(),
{
    let c = first_comma(s);
    match decode_pair(s.take(c as int)) {
        Option::None => Option::None,
        Option::Some(p) => {
            if c >= s.len() {
                Option::Some(seq![p])
            } else {
                match decode_pairs(s.skip(c + 1int)) {
                    Option::None => Option::None,
                    Option::Some(rest) => Option::Some(seq![p] + rest),
                }
            }
        },
    }
}

/// Parse comma-separated decimal ids.
pub open spec fn decode_ids(s: Seq<char>) -> Option<Seq<u64>>
    decreases s.len(),
{
    let c = first_comma(s);
    let seg = s.take(c as int);
    if !(crate::utils::all_dec(seg) && seg.len() > 0 && crate::utils::dec_value(seg)
        < 0x10000000000000000) {
        Option::None
    } else {
        let id = crate::utils::dec_value(seg) as u64;
        if c >= s.len() {
            Option::Some(seq![id])
        } else {
            match decode_ids(s.skip(c + 1int)) {
                Option::None => Option::None,
                Option::Some(rest) => Option::Some(seq![id] + rest),
            }
        }
    }
}

/// A label fit for the canonical encoding: key and value are non-empty, the
/// key holds neither `=` nor `,` (its charset is word characters), and the
/// value holds no `,`.
pub open spec fn valid_pair(p: (Seq<char>, Seq<char>)) -> bool {
    &&& p.0.len() > 0
    &&& p.1.len() > 0
    &&& forall|i: int| 0 <= i < p.0.len() ==> #[trigger] p.0[i] != '=' && p.0[i] != ','
    &&& forall|i: int| 0 <= i < p.1.len() ==> #[trigger] p.1[i] != ','
}

pub open spec fn valid_pairs(ls: Seq<(Seq<char>, Seq<char>)>) -> bool {
    forall|k: int| 0 <= k < ls.len() ==> valid_pair(#[trigger] ls[k])
}

/// The posting list stored for one label, as ids; empty when the key is
/// absent or does not parse.
pub open spec fn posting_ids(view: Map<Seq<u8>, Seq<u8>>, p: (Seq<char>, Seq<char>)) -> Seq<u64> {
    if view.contains_key(utf8(rev_key_chars(p))) {
        match parse_posting(view[utf8(rev_key_chars(p))]) {
            Option::Some(ids) => ids,
            Option::None => Seq::<u64>::empty(),
        }
    } else {
        Seq::<u64>::empty()
    }
}

/// Parse stored posting bytes: UTF-8 comma-joined decimal ids.
pub open spec fn parse_posting(bytes: Seq<u8>) -> Option<Seq<u64>> {
    if vstd::utf8::valid_utf8(bytes) {
        decode_ids(vstd::utf8::decode_utf8(bytes))
    } else {
        Option::None
    }
}

/// The posting value after appending one id: the id alone for a fresh key,
/// else the old bytes, a comma and the id.
pub open spec fn posting_append(view: Map<Seq<u8>, Seq<u8>>, key: Seq<u8>, id: u64) -> Seq<u8> {
    if view.contains_key(key) {
        view[key] + utf8(seq![','] + dec_rep(id as int))
    } else {
        utf8(dec_rep(id as int))
    }
}

/// The index view after appending `id` to the posting lists of every label
/// of `sl`, in order.
pub open spec fn postings_updated(
    view: Map<Seq<u8>, Seq<u8>>,
    sl: Seq<(Seq<char>, Seq<char>)>,
    id: u64,
) -> Map<Seq<u8>, Seq<u8>>
    decreases sl.len(),
{
    if sl.len() == 0 {
        view
    } else {
        let prev = postings_updated(view, sl.drop_last(), id);
        prev.insert(
            utf8(rev_key_chars(sl.last())),
            posting_append(prev, utf8(rev_key_chars(sl.last())), id),
        )
    }
}

/// The whole index view after registering a series: the set-to-id and
/// id-to-set rows under the sorted form `sl`, then the posting appends in
/// the caller's original label order `ls`.
pub open spec fn index_after_create(
    view: Map<Seq<u8>, Seq<u8>>,
    sl: Seq<(Seq<char>, Seq<char>)>,
    ls: Seq<(Seq<char>, Seq<char>)>,
    id: u64,
) -> Map<Seq<u8>, Seq<u8>> {
    postings_updated(
        view.insert(utf8(set_key_chars(sl)), utf8(dec_rep(id as int))).insert(
            utf8(id_key_chars(id)),
            utf8(joined_pairs(sl)),
        ),
        ls,
        id,
    )
}

/// Stored bytes that denote the decimal of `id`, possibly with leading
/// zeros.
pub open spec fn utf8_parses_to(bytes: Seq<u8>, id: u64) -> bool {
    &&& vstd::utf8::valid_utf8(bytes)
    &&& crate::utils::all_dec(vstd::utf8::decode_utf8(bytes))
    &&& vstd::utf8::decode_utf8(bytes).len() > 0
    &&& crate::utils::dec_value(vstd::utf8::decode_utf8(bytes)) == id
}

/// The series id carries every one of the queried labels: it sits in each
/// label's posting list. An empty query matches nothing.
pub open spec fn matches_all(
    iview: Map<Seq<u8>, Seq<u8>>,
    qlabels: Seq<(Seq<char>, Seq<char>)>,
    id: TimeSeriesId,
) -> bool {
    qlabels.len() > 0 && (forall|k: int|
        0 <= k < qlabels.len() ==> posting_ids(iview, #[trigger] qlabels[k]).contains(id))
}

/// A metadata answer is exactly right: every row belongs to a matching id
/// whose stored label set decodes to the carried labels, the ids come in
/// ascending order without repeats, and every matching id that has a
/// stored label row appears.
pub open spec fn metadata_rows_ok(
    iview: Map<Seq<u8>, Seq<u8>>,
    qlabels: Seq<(Seq<char>, Seq<char>)>,
    v: Seq<(TimeSeriesId, Labels)>,
) -> bool {
    &&& (forall|j: int|
        0 <= j < v.len() ==> {
            &&& matches_all(iview, qlabels, (#[trigger] v[j]).0)
            &&& iview.contains_key(utf8(id_key_chars(v[j].0)))
            &&& vstd::utf8::valid_utf8(iview[utf8(id_key_chars(v[j].0))])
            &&& decode_pairs(
                vstd::utf8::decode_utf8(iview[utf8(id_key_chars(v[j].0))]),
            ) == Option::Some(v[j].1@)
        })
    &&& (forall|a: int, b: int| 0 <= a < b < v.len() ==> (#[trigger] v[a]).0 < (#[trigger] v[b]).0)
    &&& (forall|id: TimeSeriesId|
        #[trigger] matches_all(iview, qlabels, id) && iview.contains_key(
            utf8(id_key_chars(id)),
        ) ==> exists|j: int| 0 <= j < v.len() && (#[trigger] v[j]).0 == id)
}

/// The indexer searches series ids by labels. Its abstract view is the map
/// of stored rows in its own keyspace.
pub trait Indexer: Sized {
    /// The stored rows.
    spec fn iview(&self) -> Map<Seq<u8>, Seq<u8>>;

    /// All series whose label sets contain every one of `labels`, with
    /// their full label sets: exactly the matching ids that have a stored
    /// label row, ascending, each with its decoded label set.
    fn get_series_metadata_contains_labels(&self, labels: Labels) -> (r: Result<
        Vec<(TimeSeriesId, Labels)>,
        MonolithErr,
    >)
        ensures
            r matches Ok(v) ==> metadata_rows_ok(self.iview(), labels@, v@),
    ;

    /// The ids of all series whose label sets contain every one of
    /// `labels`: the sorted intersection of the labels' posting lists, and
    /// empty for an empty label list.
    fn get_series_id_contains_labels(&self, labels: Labels) -> (r: Result<
        Vec<TimeSeriesId>,
        MonolithErr,
    >)
        ensures
            r matches Ok(v) ==> {
                &&& strictly_sorted_ids(v@)
                &&& forall|x: u64|
                    v@.contains(x) <==> (labels@.len() > 0 && (forall|k: int|
                        0 <= k < labels@.len() ==> posting_ids(
                            self.iview(),
                            #[trigger] labels@[k],
                        ).contains(x)))
            },
    ;

    /// The id of the series with exactly these labels, after an internal
    /// sort: `Some` exactly when the canonical label-set row is present.
    fn get_series_id_by_labels(&self, labels: Labels) -> (r: Result<
        Option<TimeSeriesId>,
        MonolithErr,
    >)
        ensures
            r matches Ok(opt) ==> exists|sl: Seq<(Seq<char>, Seq<char>)>|
                {
                    &&& #[trigger] is_sorted_perm(sl, labels@)
                    &&& (opt matches Some(id) ==> self.iview().contains_key(utf8(set_key_chars(sl)))
                        && utf8_parses_to(self.iview()[utf8(set_key_chars(sl))], id))
                    &&& (opt is None ==> !self.iview().contains_key(utf8(set_key_chars(sl))))
                },
    ;

    /// Register a new series: write the set-to-id and id-to-set rows and
    /// append the id to each label's posting list. Fails with `InternalErr`
    /// when the label set is already registered, leaving the index alone.
    fn create_index(&mut self, labels: Labels, time_series_id: TimeSeriesId) -> (r: Result<
        (),
        MonolithErr,
    >)
        ensures
            r matches Err(e) && e is InternalErr ==> final(self).iview() == old(self).iview()
                && exists|sl: Seq<(Seq<char>, Seq<char>)>|
                #[trigger] is_sorted_perm(sl, labels@) && old(self).iview().contains_key(
                    utf8(set_key_chars(sl)),
                ),
            ((exists|sl: Seq<(Seq<char>, Seq<char>)>| #[trigger] is_sorted_perm(sl, labels@)) && (
            forall|sl: Seq<(Seq<char>, Seq<char>)>|
                #[trigger] is_sorted_perm(sl, labels@) ==> old(self).iview().contains_key(
                    utf8(set_key_chars(sl)),
                ))) ==> r is Err,
            r is Ok ==> exists|sl: Seq<(Seq<char>, Seq<char>)>|
                {
                    &&& #[trigger] is_sorted_perm(sl, labels@)
                    &&& !old(self).iview().contains_key(utf8(set_key_chars(sl)))
                    &&& final(self).iview() == index_after_create(
                        old(self).iview(),
                        sl,
                        labels@,
                        time_series_id,
                    )
                },
    ;
}

/// Posting appends touch only reverse-posting keys: any other row keeps
/// its place and value.
proof fn lemma_postings_preserve(
    view: Map<Seq<u8>, Seq<u8>>,
    ls: Seq<(Seq<char>, Seq<char>)>,
    id: u64,
    key: Seq<u8>,
)
    requires
        forall|k: int| 0 <= k < ls.len() ==> utf8(rev_key_chars(#[trigger] ls[k])) != key,
    ensures
        postings_updated(view, ls, id).contains_key(key) == view.contains_key(key),
        view.contains_key(key) ==> postings_updated(view, ls, id)[key] == view[key],
    decreases ls.len(),
{
    if ls.len() > 0 {
        assert(forall|k: int|
            0 <= k < ls.len() - 1 ==> #[trigger] ls.drop_last()[k] == ls[k]);
        lemma_postings_preserve(view, ls.drop_last(), id, key);
        assert(utf8(rev_key_chars(ls.last())) != key) by {
            assert(ls[ls.len() - 1] == ls.last());
        }
    }
}

/// Exact lookup after registration: once a series is registered under its
/// Registering a fresh label set and then looking that set up composes:
/// the canonical row `create_index` writes is the row the exact lookup
/// reads, and it parses back to the registered id.
pub proof fn lemma_create_then_lookup(
    view: Map<Seq<u8>, Seq<u8>>,
    sl: Seq<(Seq<char>, Seq<char>)>,
    ls: Seq<(Seq<char>, Seq<char>)>,
    id: u64,
)
    requires
        forall|k: int|
            0 <= k < ls.len() ==> utf8(rev_key_chars(#[trigger] ls[k])) != utf8(
                set_key_chars(sl),
            ),
    ensures
        index_after_create(view, sl, ls, id).contains_key(utf8(set_key_chars(sl))),
        utf8_parses_to(index_after_create(view, sl, ls, id)[utf8(set_key_chars(sl))], id),
{
    broadcast use vstd::utf8::encode_utf8_valid_utf8, vstd::utf8::encode_utf8_decode_utf8;

    lemma_exact_lookup_after_create(view, sl, ls, id);
    crate::sled_storage::lemma_dec_roundtrip(id as int);
}

/// sorted label run `sl`, the label-set row holds exactly its id, provided
/// no reverse-posting key of the written labels collides with the set key
/// (the prefixes keep them apart for word-character keys).
pub proof fn lemma_exact_lookup_after_create(
    view: Map<Seq<u8>, Seq<u8>>,
    sl: Seq<(Seq<char>, Seq<char>)>,
    ls: Seq<(Seq<char>, Seq<char>)>,
    id: u64,
)
    requires
        forall|k: int|
            0 <= k < ls.len() ==> utf8(rev_key_chars(#[trigger] ls[k])) != utf8(
                set_key_chars(sl),
            ),
    ensures
        index_after_create(view, sl, ls, id).contains_key(utf8(set_key_chars(sl))),
        index_after_create(view, sl, ls, id)[utf8(set_key_chars(sl))] == utf8(
            dec_rep(id as int),
        ),
{
    let set_key = utf8(set_key_chars(sl));
    let id_key = utf8(id_key_chars(id));
    assert(id_key != set_key) by {
        vstd::utf8::encode_utf8_decode_utf8(set_key_chars(sl));
        vstd::utf8::encode_utf8_decode_utf8(id_key_chars(id));
        if id_key == set_key {
            assert(id_key_chars(id)[0] == 'I');
            assert(set_key_chars(sl)[0] == 'L');
        }
    }
    let base = view.insert(set_key, utf8(dec_rep(id as int))).insert(
        id_key,
        utf8(joined_pairs(sl)),
    );
    assert(base.contains_key(set_key) && base[set_key] == utf8(dec_rep(id as int)));
    lemma_postings_preserve(base, ls, id, set_key);
}

} // verus!
