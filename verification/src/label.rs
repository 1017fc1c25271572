//! Labels: (key, value) string pairs identifying a time series, ordered
//! lexicographically by key.

use vstd::prelude::*;

verus! {

/// Lexicographic order on character sequences. Because UTF-8 encoding
/// preserves code-point order, this agrees with Rust's byte-wise string order.
pub open spec fn lex_lt(a: Seq<char>, b: Seq<char>) -> bool
    decreases a.len(),
{
    if b.len() == 0 {
        false
    } else if a.len() == 0 {
        true
    } else if a[0] != b[0] {
        (a[0] as u32) < (b[0] as u32)
    } else {
        lex_lt(a.skip(1), b.skip(1))
    }
}

/// `a` is lexicographically at most `b`.
pub open spec fn lex_le(a: Seq<char>, b: Seq<char>) -> bool {
    lex_lt(a, b) || a == b
}

/// Compare two strings in lexicographic (code-point) order.
pub fn str_lt(a: &str, b: &str) -> (r: bool)
    ensures
        r == lex_lt(a@, b@),
{
    let a_len = a.unicode_len();
    let b_len = b.unicode_len();
    let mut i: usize = 0;
    proof {
        assert(a@.skip(0int) =~= a@);
        assert(b@.skip(0int) =~= b@);
    }
    loop
        invariant
            i <= a_len,
            i <= b_len,
            a_len == a@.len(),
            b_len == b@.len(),
            forall|j: int| 0 <= j < i ==> a@[j] == b@[j],
            lex_lt(a@, b@) == lex_lt(a@.skip(i as int), b@.skip(i as int)),
        decreases a_len - i,
    {
        if i == b_len {
            proof {
                assert(b@.skip(i as int).len() == 0);
            }
            return false;
        }
        if i == a_len {
            proof {
                assert(a@.skip(i as int).len() == 0);
                assert(b@.skip(i as int).len() > 0);
            }
            return true;
        }
        let ca = a.get_char(i);
        let cb = b.get_char(i);
        if ca != cb {
            proof {
                assert(a@.skip(i as int)[0] == a@[i as int]);
                assert(b@.skip(i as int)[0] == b@[i as int]);
            }
            return (ca as u32) < (cb as u32);
        }
        proof {
            assert(a@.skip(i as int)[0] == a@[i as int]);
            assert(b@.skip(i as int)[0] == b@[i as int]);
            assert(a@.skip(i as int).skip(1) =~= a@.skip(i + 1));
            assert(b@.skip(i as int).skip(1) =~= b@.skip(i + 1));
        }
        i = i + 1;
    }
}

/// A single (key, value) label. Two labels are equal if and only if they have
/// the same key and the same value; ordering for sorting is by key alone.
#[derive(Clone)]
pub struct Label {
    key: String,
    value: String,
}

impl View for Label {
    type V = (Seq<char>, Seq<char>);

    closed spec fn view(&self) -> (Seq<char>, Seq<char>) {
        (self.key@, self.value@)
    }
}

impl Label {
    pub fn new(key: String, value: String) -> (r: Label)
        ensures
            r@ == (key@, value@),
    {
        Label { key, value }
    }

    /// Build a label from the name/value pair of a remote-read matcher.
    pub fn from_label_matcher(name: &str, value: &str) -> (r: Label)
        ensures
            r@ == (name@, value@),
    {
        Label { key: name.to_owned(), value: value.to_owned() }
    }

    pub fn from_key_value(key: &str, value: &str) -> (r: Label)
        ensures
            r@ == (key@, value@),
    {
        Label { key: key.to_owned(), value: value.to_owned() }
    }

    pub fn from(key: &str, value: &str) -> (r: Label)
        ensures
            r@ == (key@, value@),
    {
        Label { key: key.to_owned(), value: value.to_owned() }
    }

    /// An element-wise copy with known contents.
    pub fn duplicate(&self) -> (r: Label)
        ensures
            r@ == self@,
    {
        Label { key: self.key.clone(), value: self.value.clone() }
    }

    pub fn key_value(self) -> (r: (String, String))
        ensures
            r.0@ == self@.0,
            r.1@ == self@.1,
    {
        (self.key, self.value)
    }

    pub fn key(&self) -> (r: &String)
        ensures
            r@ == self@.0,
    {
        &self.key
    }

    pub fn value(&self) -> (r: &String)
        ensures
            r@ == self@.1,
    {
        &self.value
    }
}

impl PartialEq for Label {
    fn eq(&self, other: &Label) -> (r: bool) {
        self.key == other.key && self.value == other.value
    }
}

impl vstd::std_specs::cmp::PartialEqSpecImpl for Label {
    open spec fn obeys_eq_spec() -> bool {
        true
    }

    open spec fn eq_spec(&self, other: &Label) -> bool {
        self@ == other@
    }
}

/// The FNV-1a offset basis.
pub open spec fn fnv_basis() -> u64 {
    0xcbf29ce484222325u64
}

/// One FNV-1a step over a character's code point.
pub open spec fn fnv_step(h: u64, c: char) -> u64 {
    mul_wrap(h ^ (c as u64), 0x100000001b3u64)
}

/// 64-bit wrapping product.
pub open spec fn mul_wrap(a: u64, b: u64) -> u64 {
    ((a * b) % 0x10000000000000000) as u64
}

/// FNV-1a over a character sequence, starting from `h`.
pub open spec fn fnv_seq(h: u64, s: Seq<char>) -> u64
    decreases s.len(),
{
    if s.len() == 0 {
        h
    } else {
        fnv_step(fnv_seq(h, s.drop_last()), s.last())
    }
}

/// Hash of one label folded into `h`: key, `'='`, value, `','`.
pub open spec fn fnv_label(h: u64, l: (Seq<char>, Seq<char>)) -> u64 {
    fnv_step(fnv_seq(fnv_step(fnv_seq(h, l.0), '='), l.1), ',')
}

/// Hash of a label sequence folded left to right.
pub open spec fn fnv_labels(h: u64, ls: Seq<(Seq<char>, Seq<char>)>) -> u64
    decreases ls.len(),
{
    if ls.len() == 0 {
        h
    } else {
        fnv_label(fnv_labels(h, ls.drop_last()), ls.last())
    }
}

/// Fold the characters of `s` into `h` with FNV-1a.
fn fnv_str(h: u64, s: &str) -> (r: u64)
    ensures
        r == fnv_seq(h, s@),
{
    let len = s.unicode_len();
    let mut acc = h;
    let mut i: usize = 0;
    while i < len
        invariant
            i <= len,
            len == s@.len(),
            acc == fnv_seq(h, s@.take(i as int)),
        decreases len - i,
    {
        let c = s.get_char(i);
        acc = (acc ^ (c as u64)).wrapping_mul(0x100000001b3u64);
        proof {
            assert(s@.take(i + 1).drop_last() =~= s@.take(i as int));
            assert(s@.take(i + 1).last() == s@[i as int]);
        }
        i = i + 1;
    }
    proof {
        assert(s@.take(len as int) =~= s@);
    }
    acc
}

/// An ordered list of labels. An empty list is legal but never matches any
/// series.
#[derive(Clone)]
pub struct Labels(Vec<Label>);

impl View for Labels {
    type V = Seq<(Seq<char>, Seq<char>)>;

    closed spec fn view(&self) -> Seq<(Seq<char>, Seq<char>)> {
        self.0@.map(|i: int, l: Label| l@)
    }
}

/// The label sequence is sorted by key, in non-decreasing lexicographic order.
pub open spec fn sorted_by_key(ls: Seq<(Seq<char>, Seq<char>)>) -> bool {
    forall|i: int, j: int| 0 <= i < j < ls.len() ==> lex_le(#[trigger] ls[i].0, #[trigger] ls[j].0)
}

impl PartialEq for Labels {
    fn eq(&self, other: &Labels) -> (r: bool) {
        if self.0.len() != other.0.len() {
            proof {
                assert(self@.len() == self.0@.len());
                assert(other@.len() == other.0@.len());
            }
            return false;
        }
        let n = self.0.len();
        let mut i: usize = 0;
        while i < n
            invariant
                i <= n,
                n == self.0.len(),
                n == other.0.len(),
                forall|j: int| 0 <= j < i ==> self@[j] == other@[j],
            decreases n - i,
        {
            proof {
                assert(self@[i as int] == self.0@[i as int]@);
                assert(other@[i as int] == other.0@[i as int]@);
            }
            if !(self.0[i] == other.0[i]) {
                assert(self@[i as int] != other@[i as int]);
                return false;
            }
            i = i + 1;
        }
        proof {
            assert(self@ =~~= other@);
        }
        true
    }
}

impl vstd::std_specs::cmp::PartialEqSpecImpl for Labels {
    open spec fn obeys_eq_spec() -> bool {
        true
    }

    open spec fn eq_spec(&self, other: &Labels) -> bool {
        self@ == other@
    }
}

impl Labels {
    pub fn new() -> (r: Labels)
        ensures
            r@ == Seq::<(Seq<char>, Seq<char>)>::empty(),
    {
        let r = Labels(Vec::new());
        proof {
            assert(r@ =~= Seq::<(Seq<char>, Seq<char>)>::empty());
        }
        r
    }

    pub fn from_vec(label_vec: Vec<Label>) -> (r: Labels)
        ensures
            r@ == label_vec@.map(|i: int, l: Label| l@),
    {
        Labels(label_vec)
    }

    pub fn add(&mut self, label: Label)
        ensures
            final(self)@ == old(self)@.push(label@),
    {
        let ghost prev = self@;
        self.0.push(label);
        proof {
            assert(self@ =~= prev.push(label@));
        }
    }

    pub fn len(&self) -> (r: usize)
        ensures
            r == self@.len(),
    {
        self.0.len()
    }

    /// A stable hash of the label list: equal label lists hash equally.
    pub fn get_hash(&self) -> (r: u64)
        ensures
            r == fnv_labels(fnv_basis(), self@),
    {
        let n = self.0.len();
        let mut acc: u64 = 0xcbf29ce484222325u64;
        let mut i: usize = 0;
        while i < n
            invariant
                i <= n,
                n == self@.len(),
                n == self.0.len(),
                acc == fnv_labels(fnv_basis(), self@.take(i as int)),
        decreases n - i,
    {
            let l = &self.0[i];
            acc = fnv_str(acc, l.key.as_str());
            acc = (acc ^ ('=' as u64)).wrapping_mul(0x100000001b3u64);
            acc = fnv_str(acc, l.value.as_str());
            acc = (acc ^ (',' as u64)).wrapping_mul(0x100000001b3u64);
            proof {
                assert(self@.take(i + 1).drop_last() =~= self@.take(i as int));
                assert(self@.take(i + 1).last() == self@[i as int]);
            }
            i = i + 1;
        }
        proof {
            assert(self@.take(n as int) =~= self@);
        }
        acc
    }

    /// An element-wise copy with known contents.
    pub fn duplicate(&self) -> (r: Labels)
        ensures
            r@ == self@,
    {
        let n = self.0.len();
        let mut v: Vec<Label> = Vec::new();
        let mut i: usize = 0;
        while i < n
            invariant
                i <= n,
                n == self.0.len(),
                v@.len() == i,
                forall|k: int| 0 <= k < i ==> (#[trigger] v@[k])@ == self@[k],
            decreases n - i,
        {
            let l = self.0[i].duplicate();
            v.push(l);
            proof {
                assert(self@[i as int] == self.0@[i as int]@);
            }
            i = i + 1;
        }
        let r = Labels(v);
        proof {
            assert forall|k: int| 0 <= k < n implies #[trigger] r@[k] == self@[k] by {
                assert(r@[k] == v@[k]@);
            }
            assert(r@ =~= self@);
        }
        r
    }

    pub fn vec(&self) -> (r: &Vec<Label>)
        ensures
            r@.map(|i: int, l: Label| l@) == self@,
    {
        &self.0
    }

    /// Sort the labels by key, keeping exactly the same multiset of labels.
    pub fn sort(&mut self)
        ensures
            sorted_by_key(final(self)@),
            final(self)@.to_multiset() == old(self)@.to_multiset(),
            forall|key: Seq<char>|
                #[trigger] key_values(final(self)@, key) == key_values(old(self)@, key),
    {
        let n = self.0.len();
        let ghost orig = self@;
        if n == 0 {
            return;
        }
        let mut i: usize = 1;
        while i < n
            invariant
                1 <= i <= n,
                n == self.0.len(),
                self@.to_multiset() == orig.to_multiset(),
                forall|key: Seq<char>| #[trigger] key_values(self@, key) == key_values(orig, key),
                forall|a: int, b: int|
                    0 <= a < b < i ==> lex_le(#[trigger] self@[a].0, #[trigger] self@[b].0),
            decreases n - i,
        {
            let mut j: usize = i;
            while j > 0
                invariant
                    j <= i,
                    i < n,
                    n == self.0.len(),
                    self@.to_multiset() == orig.to_multiset(),
                    forall|key: Seq<char>|
                        #[trigger] key_values(self@, key) == key_values(orig, key),
                    forall|a: int, b: int|
                        0 <= a < b <= i && b != j ==> lex_le(
                            #[trigger] self@[a].0,
                            #[trigger] self@[b].0,
                        ),
                ensures
                    j <= i,
                    n == self.0.len(),
                    self@.to_multiset() == orig.to_multiset(),
                    forall|key: Seq<char>|
                        #[trigger] key_values(self@, key) == key_values(orig, key),
                    forall|a: int, b: int|
                        0 <= a < b <= i && b != j ==> lex_le(
                            #[trigger] self@[a].0,
                            #[trigger] self@[b].0,
                        ),
                    j == 0 || lex_le(self@[j - 1].0, self@[j as int].0),
                decreases j,
            {
                let swap_needed = {
                    let prev = &self.0[j - 1];
                    let cur = &self.0[j];
                    str_lt(cur.key.as_str(), prev.key.as_str())
                };
                proof {
                    assert(self@[j - 1] == self.0@[j - 1]@);
                    assert(self@[j as int] == self.0@[j as int]@);
                }
                if !swap_needed {
                    proof {
                        lemma_lex_total(self@[j - 1].0, self@[j as int].0);
                    }
                    break;
                } else {
                    let ghost before = self@;
                    let moved = self.0.remove(j);
                    self.0.insert(j - 1, moved);
                    proof {
                        assert(self@ =~= before.update(j - 1, before[j as int]).update(
                            j as int,
                            before[j - 1],
                        ));
                        lemma_swap_multiset(before, self@, j - 1, j as int);
                        assert(before[j - 1].0 != before[j as int].0) by {
                            if before[j - 1].0 == before[j as int].0 {
                                lemma_lex_lt_irrefl(before[j - 1].0);
                            }
                        }
                        lemma_key_values_swap(before, j as int);
                        assert forall|a: int, b: int|
                            0 <= a < b <= i && b != j - 1 implies lex_le(
                            #[trigger] self@[a].0,
                            #[trigger] self@[b].0,
                        ) by {
                            if a == j - 1 {
                                if b == j {
                                    assert(self@[a].0 == before[j as int].0);
                                    assert(self@[b].0 == before[j - 1].0);
                                } else {
                                    assert(self@[a].0 == before[j as int].0);
                                    assert(self@[b].0 == before[b].0);
                                }
                            } else if a == j {
                                assert(self@[a].0 == before[j - 1].0);
                                assert(self@[b].0 == before[b].0);
                            } else if b == j {
                                assert(self@[a].0 == before[a].0);
                                assert(self@[b].0 == before[j - 1].0);
                            } else {
                                assert(self@[a].0 == before[a].0);
                                assert(self@[b].0 == before[b].0);
                            }
                        }
                    }
                    j = j - 1;
                }
            }
            proof {
                assert forall|a: int, b: int| 0 <= a < b <= i implies lex_le(
                    #[trigger] self@[a].0,
                    #[trigger] self@[b].0,
                ) by {
                    if b == j {
                        assert(j > 0);
                        assert(lex_le(self@[j - 1].0, self@[j as int].0));
                        if a < j - 1 {
                            assert(lex_le(self@[a].0, self@[j - 1].0));
                            lemma_lex_le_trans(self@[a].0, self@[j - 1].0, self@[j as int].0);
                        }
                    }
                }
            }
            i = i + 1;
        }
    }

    pub fn pop(&mut self) -> (r: Option<Label>)
        ensures
            old(self)@.len() == 0 ==> r is None && final(self)@ == old(self)@,
            old(self)@.len() > 0 ==> (r matches Some(l) && l@ == old(self)@.last()
                && final(self)@ == old(self)@.drop_last()),
    {
        let ghost prev = self@;
        let r = self.0.pop();
        proof {
            if prev.len() > 0 {
                assert(self@ =~= prev.drop_last());
            } else {
                assert(self@ =~= prev);
            }
        }
        r
    }
}

/// Keys are totally ordered: if `b` is not below `a`, then `a` is at most `b`.
/// The values carried under one key, in the order the pairs stand.
pub open spec fn key_values(ls: Seq<(Seq<char>, Seq<char>)>, key: Seq<char>) -> Seq<Seq<char>>
    decreases ls.len(),
{
    if ls.len() == 0 {
        Seq::<Seq<char>>::empty()
    } else if ls.first().0 == key {
        seq![ls.first().1] + key_values(ls.drop_first(), key)
    } else {
        key_values(ls.drop_first(), key)
    }
}

/// Nothing is below itself in the lexicographic order.
proof fn lemma_lex_lt_irrefl(a: Seq<char>)
    ensures
        !lex_lt(a, a),
    decreases a.len(),
{
    if a.len() > 0 {
        lemma_lex_lt_irrefl(a.skip(1));
    }
}

/// Swapping two adjacent pairs with different keys moves no value past
/// another of its own key: every key's value run is kept.
proof fn lemma_key_values_swap(ls: Seq<(Seq<char>, Seq<char>)>, j: int)
    requires
        1 <= j < ls.len(),
        ls[j - 1].0 != ls[j].0,
    ensures
        forall|key: Seq<char>|
            #[trigger] key_values(ls.update(j - 1, ls[j]).update(j, ls[j - 1]), key)
                == key_values(ls, key),
    decreases j,
{
    let sw = ls.update(j - 1, ls[j]).update(j, ls[j - 1]);
    if j == 1 {
        assert forall|key: Seq<char>|
            #[trigger] key_values(sw, key) == key_values(ls, key) by {
            assert(sw.first() == ls[1] && ls.first() == ls[0]);
            assert(sw.drop_first().first() == ls[0] && ls.drop_first().first() == ls[1]);
            assert(sw.drop_first().drop_first() =~= ls.drop_first().drop_first());
            assert(key_values(sw, key) == if sw.first().0 == key {
                seq![sw.first().1] + key_values(sw.drop_first(), key)
            } else {
                key_values(sw.drop_first(), key)
            });
            assert(key_values(sw.drop_first(), key) == if ls[0].0 == key {
                seq![ls[0].1] + key_values(sw.drop_first().drop_first(), key)
            } else {
                key_values(sw.drop_first().drop_first(), key)
            });
            assert(key_values(ls, key) == if ls[0].0 == key {
                seq![ls[0].1] + key_values(ls.drop_first(), key)
            } else {
                key_values(ls.drop_first(), key)
            });
            assert(key_values(ls.drop_first(), key) == if ls[1].0 == key {
                seq![ls[1].1] + key_values(ls.drop_first().drop_first(), key)
            } else {
                key_values(ls.drop_first().drop_first(), key)
            });
            if ls[0].0 == key {
                assert(ls[1].0 != key);
                assert(key_values(sw, key) =~= key_values(ls, key));
            } else if ls[1].0 == key {
                assert(key_values(sw, key) =~= key_values(ls, key));
            } else {
                assert(key_values(sw, key) =~= key_values(ls, key));
            }
        }
    } else {
        lemma_key_values_swap(ls.drop_first(), j - 1);
        assert forall|key: Seq<char>|
            #[trigger] key_values(sw, key) == key_values(ls, key) by {
            assert(sw.first() == ls.first());
            assert(sw.drop_first() =~= ls.drop_first().update(j - 2, ls.drop_first()[j - 1]).update(
                j - 1,
                ls.drop_first()[j - 2],
            ));
            assert(ls.drop_first()[j - 2] == ls[j - 1] && ls.drop_first()[j - 1] == ls[j]);
            assert(key_values(sw.drop_first(), key) == key_values(ls.drop_first(), key));
        }
    }
}

proof fn lemma_lex_total(a: Seq<char>, b: Seq<char>)
    ensures
        !lex_lt(b, a) ==> lex_le(a, b),
    decreases a.len(),
{
    if a.len() == 0 && b.len() == 0 {
        assert(a =~= b);
    } else if a.len() > 0 && b.len() > 0 && a[0] != b[0] {
        assert((a[0] as u32) != (b[0] as u32)) by {
            vstd::utf8::char_u32_cast(a[0], a[0] as u32);
            vstd::utf8::char_u32_cast(b[0], b[0] as u32);
        }
    } else if a.len() > 0 && b.len() > 0 && a[0] == b[0] {
        lemma_lex_total(a.skip(1), b.skip(1));
        if !lex_lt(b, a) {
            if a.skip(1) == b.skip(1) {
                assert forall|k: int| 0 <= k < a.len() implies a[k] == b[k] by {
                    if k > 0 {
                        assert(a.skip(1)[k - 1] == b.skip(1)[k - 1]);
                    }
                }
                assert(a =~= b);
            }
        }
    }
}

/// Strict lexicographic order is transitive.
proof fn lemma_lex_lt_trans(a: Seq<char>, b: Seq<char>, c: Seq<char>)
    requires
        lex_lt(a, b),
        lex_lt(b, c),
    ensures
        lex_lt(a, c),
    decreases a.len() + b.len() + c.len(),
{
    if a.len() > 0 && b.len() > 0 && c.len() > 0 {
        if a[0] == b[0] && b[0] == c[0] {
            lemma_lex_lt_trans(a.skip(1), b.skip(1), c.skip(1));
        }
    }
}

/// Lexicographic order (allowing equality) is transitive.
proof fn lemma_lex_le_trans(a: Seq<char>, b: Seq<char>, c: Seq<char>)
    requires
        lex_le(a, b),
        lex_le(b, c),
    ensures
        lex_le(a, c),
{
    if a == b || b == c {
    } else {
        lemma_lex_lt_trans(a, b, c);
    }
}

/// Swapping two positions preserves the multiset of elements.
proof fn lemma_swap_multiset(
    before: Seq<(Seq<char>, Seq<char>)>,
    after: Seq<(Seq<char>, Seq<char>)>,
    x: int,
    y: int,
)
    requires
        0 <= x < y < before.len(),
        after == before.update(x, before[y]).update(y, before[x]),
    ensures
        after.to_multiset() == before.to_multiset(),
{
    broadcast use vstd::seq_lib::group_to_multiset_ensures;
    broadcast use vstd::multiset::group_multiset_axioms;
    broadcast use vstd::multiset::group_multiset_properties;

    let mid = before.update(x, before[y]);
    assert(mid[y] == before[y]);
    assert(before.contains(before[x]));
    assert(after.to_multiset() =~= before.to_multiset());
}

} // verus!
