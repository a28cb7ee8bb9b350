//! Base EDID blocks: validation, and matching monitors to connectors by EDID.
use vstd::prelude::*;

verus! {

/// The fixed 8-byte header of a base EDID block.
pub open spec fn edid_header() -> Seq<u8> {
    seq![0x00u8, 0xffu8, 0xffu8, 0xffu8, 0xffu8, 0xffu8, 0xffu8, 0x00u8]
}

/// The sum of all bytes.
pub open spec fn byte_sum(s: Seq<u8>) -> nat
    decreases s.len(),
{
    if s.len() == 0 {
        0
    } else {
        byte_sum(s.drop_last()) + s.last() as nat
    }
}

/// A base EDID block: 128 bytes, the fixed header, and bytes that sum to 0 modulo 256.
pub open spec fn is_base_edid(s: Seq<u8>) -> bool {
    &&& s.len() == 128
    &&& s.take(8) == edid_header()
    &&& byte_sum(s) % 256 == 0
}

/// Why an EDID was refused.
#[derive(Clone, Copy, Debug, PartialEq, Eq, Structural)]
pub enum EdidError {
    /// The EDID file was empty.
    Empty,
    /// The bytes are not a base EDID block.
    Invalid,
}

impl EdidError {
    /// The text that explains the error.
    pub fn message(&self) -> (s: &'static str)
        ensures
            self is Empty ==> s@ == "empty file"@,
            self is Invalid ==> s@ == "invalid edid"@,
    {
        match self {
            EdidError::Empty => "empty file",
            EdidError::Invalid => "invalid edid",
        }
    }
}

/// Whether `edid` is a valid base EDID block.
pub fn is_valid_base_edid(edid: &[u8]) -> (r: bool)
    ensures
        r == is_base_edid(edid@),
{
    if edid.len() != 128 {
        return false;
    }
    let header: [u8; 8] = [0x00, 0xff, 0xff, 0xff, 0xff, 0xff, 0xff, 0x00];
    let mut i: usize = 0;
    while i < 8
        invariant
            edid@.len() == 128,
            i <= 8,
            header@ == edid_header(),
            forall|j: int| 0 <= j < i ==> edid@[j] == edid_header()[j],
        decreases 8 - i,
    {
        if edid[i] != header[i] {
            assert(edid@.take(8)[i as int] != edid_header()[i as int]);
            return false;
        }
        i = i + 1;
    }
    assert(edid@.take(8) =~= edid_header());
    let mut sum: u32 = 0;
    let mut k: usize = 0;
    while k < 128
        invariant
            edid@.len() == 128,
            k <= 128,
            sum < 256,
            sum == byte_sum(edid@.take(k as int)) % 256,
        decreases 128 - k,
    {
        assert(edid@.take(k + 1).drop_last() =~= edid@.take(k as int));
        sum = (sum + edid[k] as u32) % 256;
        k = k + 1;
    }
    assert(edid@.take(128) =~= edid@);
    sum == 0
}

/// The base EDID at the start of a file's bytes.
pub open spec fn spec_base_edid(bytes: Seq<u8>) -> Result<Seq<u8>, EdidError> {
    if bytes.len() == 0 {
        Err(EdidError::Empty)
    } else {
        let block = if bytes.len() > 128 {
            bytes.take(128)
        } else {
            bytes
        };
        if is_base_edid(block) {
            Ok(block)
        } else {
            Err(EdidError::Invalid)
        }
    }
}

/// The base EDID held in the bytes of an EDID file: the first 128 bytes,
/// refused when the file is empty or they are not a valid base block.
pub fn base_edid(bytes: Vec<u8>) -> (r: Result<Vec<u8>, EdidError>)
    ensures
        match r {
            Ok(v) => spec_base_edid(bytes@) == Ok::<Seq<u8>, EdidError>(v@),
            Err(e) => spec_base_edid(bytes@) == Err::<Seq<u8>, EdidError>(e),
        },
{
    if bytes.len() == 0 {
        return Err(EdidError::Empty);
    }
    let mut edid = bytes;
    edid.truncate(128);
    assert(edid@ == if bytes@.len() > 128 {
        bytes@.take(128)
    } else {
        bytes@
    }) by {
        if bytes@.len() <= 128 {
            assert(edid@ =~= bytes@);
        }
    }
    if !is_valid_base_edid(edid.as_slice()) {
        return Err(EdidError::Invalid);
    }
    Ok(edid)
}

/// The EDID read over DDC: the first `len` bytes of `buf`, refused when they
/// are not a valid base block.
pub fn ddc_edid(buf: Vec<u8>, len: usize) -> (r: Result<Vec<u8>, EdidError>)
    ensures
        ({
            let block = if len < buf@.len() {
                buf@.take(len as int)
            } else {
                buf@
            };
            match r {
                Ok(v) => is_base_edid(block) && v@ == block,
                Err(e) => !is_base_edid(block) && e == EdidError::Invalid,
            }
        }),
{
    let mut edid = buf;
    edid.truncate(len);
    proof {
        if len >= buf@.len() {
            assert(edid@ =~= buf@);
        }
    }
    if !is_valid_base_edid(edid.as_slice()) {
        return Err(EdidError::Invalid);
    }
    Ok(edid)
}

// ---------------------------------------------------------------------------
// EDIDs that name exactly one connector
// ---------------------------------------------------------------------------

/// The pairs `(edid, name)` with each EDID taken by its bytes.
pub open spec fn edid_pairs(items: Seq<(Vec<u8>, String)>) -> Seq<(Seq<u8>, String)> {
    items.map_values(|p: (Vec<u8>, String)| (p.0@, p.1))
}

/// Per EDID, the name of its only holder, or `None` once it was seen twice.
pub open spec fn edid_counts(items: Seq<(Seq<u8>, String)>) -> Map<Seq<u8>, Option<String>>
    decreases items.len(),
{
    if items.len() == 0 {
        Map::empty()
    } else {
        let m = edid_counts(items.drop_last());
        let e = items.last().0;
        if m.contains_key(e) {
            m.insert(e, None)
        } else {
            m.insert(e, Some(items.last().1))
        }
    }
}

/// The EDIDs that occur exactly once, each with its name.
pub open spec fn spec_unique_edids(items: Seq<(Seq<u8>, String)>) -> Map<Seq<u8>, String> {
    let m = edid_counts(items);
    Map::new(|e: Seq<u8>| m.contains_key(e) && m[e] is Some, |e: Seq<u8>| m[e].unwrap())
}

/// `edid` occurs at index `i` and nowhere else.
pub open spec fn only_at(items: Seq<(Seq<u8>, String)>, edid: Seq<u8>, i: int) -> bool {
    &&& 0 <= i < items.len()
    &&& items[i].0 == edid
    &&& forall|j: int| 0 <= j < items.len() && j != i ==> #[trigger] items[j].0 != edid
}

/// An EDID stays in the table exactly when one item carries it, and then
/// with that item's name.
pub proof fn lemma_unique_edids(items: Seq<(Seq<u8>, String)>, edid: Seq<u8>)
    ensures
        edid_counts(items).contains_key(edid) <==> exists|i: int|
            0 <= i < items.len() && #[trigger] items[i].0 == edid,
        spec_unique_edids(items).contains_key(edid) <==> exists|i: int| only_at(items, edid, i),
        forall|i: int|
            only_at(items, edid, i) ==> #[trigger] spec_unique_edids(items)[edid] == items[i].1,
    decreases items.len(),
{
    if items.len() > 0 {
        let init = items.drop_last();
        let n = items.len() - 1;
        lemma_unique_edids(init, edid);
        if items[n].0 == edid {
            if edid_counts(init).contains_key(edid) {
                let i = choose|i: int| 0 <= i < init.len() && #[trigger] init[i].0 == edid;
                assert(items[i].0 == edid);
                assert forall|k: int| !only_at(items, edid, k) by {
                    if only_at(items, edid, k) {
                        if k == n {
                            assert(items[i].0 == edid);
                        } else {
                            assert(items[n].0 == edid);
                        }
                    }
                }
            } else {
                assert(only_at(items, edid, n)) by {
                    assert forall|j: int| 0 <= j < items.len() && j != n implies #[trigger] items[
                        j
                    ].0 != edid by {
                        if items[j].0 == edid {
                            assert(init[j].0 == edid);
                        }
                    }
                }
                assert forall|k: int| only_at(items, edid, k) implies k == n by {
                    if k != n {
                        assert(items[n].0 == edid);
                    }
                }
            }
        } else {
            assert forall|k: int| only_at(items, edid, k) <==> only_at(init, edid, k) by {
                if only_at(init, edid, k) {
                    assert forall|j: int| 0 <= j < items.len() && j != k implies #[trigger] items[
                        j
                    ].0 != edid by {
                        if j < n {
                            assert(init[j] == items[j]);
                        }
                    }
                }
                if only_at(items, edid, k) {
                    assert(k != n);
                    assert forall|j: int| 0 <= j < init.len() && j != k implies #[trigger] init[
                        j
                    ].0 != edid by {
                        assert(init[j] == items[j]);
                    }
                }
            }
            assert forall|i: int| 0 <= i < items.len() && #[trigger] items[i].0 == edid implies (
            exists|k: int| 0 <= k < init.len() && #[trigger] init[k].0 == edid) by {
                assert(i != n);
                assert(init[i] == items[i]);
            }
            assert forall|i: int| 0 <= i < init.len() && #[trigger] init[i].0 == edid implies (
            exists|k: int| 0 <= k < items.len() && #[trigger] items[k].0 == edid) by {
                assert(init[i] == items[i]);
            }
        }
    }
}

/// The EDIDs that exactly one item carries.
pub open spec fn single_edids(items: Seq<(Seq<u8>, String)>) -> Set<Seq<u8>> {
    Set::new(|e: Seq<u8>| exists|i: int| only_at(items, e, i))
}

/// The table holds exactly the EDIDs that one item alone carries: so it has
/// as many entries as there are such EDIDs.
pub proof fn lemma_unique_edids_count(items: Seq<(Seq<u8>, String)>)
    ensures
        spec_unique_edids(items).dom() == single_edids(items),
        single_edids(items).finite(),
        spec_unique_edids(items).dom().len() == single_edids(items).len(),
{
    assert forall|e: Seq<u8>| #[trigger] spec_unique_edids(items).dom().contains(e) == single_edids(
        items,
    ).contains(e) by {
        lemma_unique_edids(items, e);
    }
    assert(spec_unique_edids(items).dom() =~= single_edids(items));
    let all = items.map_values(|p: (Seq<u8>, String)| p.0).to_set();
    assert forall|e: Seq<u8>| single_edids(items).contains(e) implies all.contains(e) by {
        let i = choose|i: int| only_at(items, e, i);
        assert(items.map_values(|p: (Seq<u8>, String)| p.0)[i] == e);
    }
    vstd::seq_lib::seq_to_set_is_finite(items.map_values(|p: (Seq<u8>, String)| p.0));
    vstd::set_lib::lemma_set_subset_finite(all, single_edids(items));
}

/// `b` is `a` reordered: item `k` of `b` is item `p[k]` of `a`, and `p`
/// takes each index of `a` exactly once.
pub open spec fn is_reordering<A>(a: Seq<A>, b: Seq<A>, p: Seq<int>) -> bool {
    &&& a.len() == b.len()
    &&& p.len() == b.len()
    &&& forall|k: int| 0 <= k < b.len() ==> 0 <= #[trigger] p[k] < a.len() && b[k] == a[p[k]]
    &&& forall|k: int, l: int| 0 <= k < b.len() && 0 <= l < b.len() && k != l ==> #[trigger] p[k] != #[trigger] p[l]
    &&& forall|i: int|
        0 <= i < a.len() ==> exists|k: int| 0 <= k < b.len() && #[trigger] p[k] == i && b[k] == #[trigger] a[i]
}

/// The table does not depend on the order of the items.
pub proof fn lemma_unique_edids_any_order(
    a: Seq<(Seq<u8>, String)>,
    b: Seq<(Seq<u8>, String)>,
    p: Seq<int>,
)
    requires
        is_reordering(a, b, p),
    ensures
        spec_unique_edids(a) == spec_unique_edids(b),
{
    assert forall|e: Seq<u8>| #![trigger spec_unique_edids(a).contains_key(e)] #![trigger spec_unique_edids(b).contains_key(e)]
        (spec_unique_edids(a).contains_key(e) == spec_unique_edids(b).contains_key(e)) && (
        spec_unique_edids(b).contains_key(e) ==> spec_unique_edids(a)[e] == spec_unique_edids(
            b,
        )[e]) by {
        lemma_unique_edids(a, e);
        lemma_unique_edids(b, e);
        if exists|k: int| only_at(b, e, k) {
            let k = choose|k: int| only_at(b, e, k);
            let i = p[k];
            assert(a[i] == b[k]);
            assert forall|j: int| 0 <= j < a.len() && j != i implies #[trigger] a[j].0 != e by {
                let l = choose|l: int| 0 <= l < b.len() && #[trigger] p[l] == j && b[l] == a[j];
                assert(l != k);
                assert(b[l] == a[j]);
                assert(b[l].0 != e);
            }
            assert(only_at(a, e, i));
        }
        if exists|i: int| only_at(a, e, i) {
            let i = choose|i: int| only_at(a, e, i);
            let k = choose|k: int| 0 <= k < b.len() && #[trigger] p[k] == i && b[k] == a[i];
            assert(b[k] == a[i]);
            assert forall|l: int| 0 <= l < b.len() && l != k implies #[trigger] b[l].0 != e by {
                assert(p[l] != p[k]);
                assert(b[l] == a[p[l]]);
                assert(a[p[l]].0 != e);
            }
            assert(only_at(b, e, k));
        }
    }
    assert(spec_unique_edids(a) =~= spec_unique_edids(b));
}

/// A table from EDIDs to connector names; each EDID occurs at most once.
pub struct EdidTable {
    entries: Vec<(Vec<u8>, String)>,
}

pub open spec fn distinct_edids(entries: Seq<(Vec<u8>, String)>) -> bool {
    forall|i: int, j: int|
        0 <= i < j < entries.len() ==> (#[trigger] entries[i]).0@ != (#[trigger] entries[j]).0@
}

pub open spec fn edid_map_of(entries: Seq<(Vec<u8>, String)>) -> Map<Seq<u8>, String>
    decreases entries.len(),
{
    if entries.len() == 0 {
        Map::empty()
    } else {
        edid_map_of(entries.drop_last()).insert(entries.last().0@, entries.last().1)
    }
}

proof fn lemma_edid_map_of(entries: Seq<(Vec<u8>, String)>)
    requires
        distinct_edids(entries),
    ensures
        forall|i: int|
            0 <= i < entries.len() ==> #[trigger] edid_map_of(entries).contains_key(
                entries[i].0@,
            ) && edid_map_of(entries)[entries[i].0@] == entries[i].1,
        forall|k: Seq<u8>|
            #[trigger] edid_map_of(entries).contains_key(k) ==> exists|i: int|
                0 <= i < entries.len() && entries[i].0@ == k,
    decreases entries.len(),
{
    if entries.len() > 0 {
        let init = entries.drop_last();
        let n = entries.len() - 1;
        assert(distinct_edids(init)) by {
            assert forall|i: int, j: int| 0 <= i < j < init.len() implies (#[trigger] init[i]).0@
                != (#[trigger] init[j]).0@ by {
                assert(init[i] == entries[i] && init[j] == entries[j]);
            }
        }
        lemma_edid_map_of(init);
        assert forall|i: int| 0 <= i < entries.len() implies #[trigger] edid_map_of(
            entries,
        ).contains_key(entries[i].0@) && edid_map_of(entries)[entries[i].0@] == entries[i].1 by {
            if i < n {
                assert(init[i] == entries[i]);
                assert(edid_map_of(init).contains_key(init[i].0@));
                assert(entries[i].0@ != entries[n].0@);
            }
        }
        assert forall|k: Seq<u8>| #[trigger] edid_map_of(entries).contains_key(k) implies exists|
            i: int,
        | 0 <= i < entries.len() && entries[i].0@ == k by {
            if k != entries.last().0@ {
                assert(edid_map_of(init).contains_key(k));
                let i = choose|i: int| 0 <= i < init.len() && init[i].0@ == k;
                assert(entries[i] == init[i]);
            }
        }
    }
}

/// Whether two byte strings are equal.
pub fn bytes_eq(a: &Vec<u8>, b: &Vec<u8>) -> (r: bool)
    ensures
        r == (a@ == b@),
{
    if a.len() != b.len() {
        return false;
    }
    let mut i: usize = 0;
    while i < a.len()
        invariant
            a.len() == b.len(),
            i <= a.len(),
            forall|j: int| 0 <= j < i ==> a@[j] == b@[j],
        decreases a.len() - i,
    {
        if a[i] != b[i] {
            return false;
        }
        i = i + 1;
    }
    assert(a@ =~= b@);
    true
}

impl EdidTable {
    #[verifier::type_invariant]
    closed spec fn distinct(self) -> bool {
        distinct_edids(self.entries@)
    }

    /// The EDIDs and their connector names.
    pub closed spec fn view(&self) -> Map<Seq<u8>, String> {
        edid_map_of(self.entries@)
    }

    fn find(&self, edid: &Vec<u8>) -> (r: Option<usize>)
        ensures
            match r {
                Some(i) => i < self.entries@.len() && self.entries@[i as int].0@ == edid@,
                None => forall|j: int|
                    0 <= j < self.entries@.len() ==> #[trigger] self.entries@[j].0@ != edid@,
            },
    {
        let mut i: usize = 0;
        while i < self.entries.len()
            invariant
                i <= self.entries@.len(),
                forall|j: int| 0 <= j < i ==> #[trigger] self.entries@[j].0@ != edid@,
            decreases self.entries@.len() - i,
        {
            if bytes_eq(&self.entries[i].0, edid) {
                return Some(i);
            }
            i = i + 1;
        }
        None
    }

    /// Takes the name stored under `edid` out of the table.
    pub fn remove(&mut self, edid: &Vec<u8>) -> (r: Option<String>)
        ensures
            final(self)@ == old(self)@.remove(edid@),
            match r {
                Some(name) => old(self)@.contains_key(edid@) && old(self)@[edid@] == name,
                None => !old(self)@.contains_key(edid@),
            },
    {
        proof {
            use_type_invariant(&*self);
            lemma_edid_map_of(self.entries@);
        }
        match self.find(edid) {
            None => {
                proof {
                    if old(self)@.contains_key(edid@) {
                        let j = choose|j: int|
                            0 <= j < self.entries@.len() && self.entries@[j].0@ == edid@;
                    }
                    assert(old(self)@.remove(edid@) =~= old(self)@);
                }
                None
            },
            Some(i) => {
                let ghost old_entries = self.entries@;
                proof {
                    assert(self@.contains_key(self.entries@[i as int].0@));
                }
                let mut entries: Vec<(Vec<u8>, String)> = Vec::new();
                std::mem::swap(&mut entries, &mut self.entries);
                let (_, name) = entries.remove(i);
                proof {
                    assert forall|a: int, b: int| 0 <= a < b < entries@.len() implies (
                    #[trigger] entries@[a]).0@ != (#[trigger] entries@[b]).0@ by {
                        let oa = if a < i {
                            a
                        } else {
                            a + 1
                        };
                        let ob = if b < i {
                            b
                        } else {
                            b + 1
                        };
                        assert(entries@[a] == old_entries[oa]);
                        assert(entries@[b] == old_entries[ob]);
                    }
                }
                self.entries = entries;
                proof {
                    lemma_edid_map_of(self.entries@);
                    let new_map = old(self)@.remove(edid@);
                    assert forall|k: Seq<u8>| #[trigger] self@.contains_key(k)
                        <==> new_map.contains_key(k) by {
                        if self@.contains_key(k) {
                            let j = choose|j: int|
                                0 <= j < self.entries@.len() && self.entries@[j].0@ == k;
                            if j < i {
                                assert(old_entries[j] == self.entries@[j]);
                            } else {
                                assert(old_entries[j + 1] == self.entries@[j]);
                            }
                        }
                        if new_map.contains_key(k) {
                            let j = choose|j: int|
                                0 <= j < old_entries.len() && old_entries[j].0@ == k;
                            if j < i {
                                assert(self.entries@[j] == old_entries[j]);
                            } else {
                                assert(j != i);
                                assert(self.entries@[j - 1] == old_entries[j]);
                            }
                        }
                    }
                    assert forall|k: Seq<u8>| #[trigger] self@.contains_key(k) implies self@[k]
                        == new_map[k] by {
                        let j = choose|j: int|
                            0 <= j < self.entries@.len() && self.entries@[j].0@ == k;
                        if j < i {
                            assert(old_entries[j] == self.entries@[j]);
                        } else {
                            assert(old_entries[j + 1] == self.entries@[j]);
                        }
                    }
                    assert(self@ =~= new_map);
                }
                Some(name)
            },
        }
    }
}

/// Finds the EDID in `counts`.
fn find_count(counts: &Vec<(Vec<u8>, Option<String>)>, edid: &Vec<u8>) -> (r: Option<usize>)
    ensures
        match r {
            Some(i) => i < counts@.len() && counts@[i as int].0@ == edid@,
            None => forall|j: int| 0 <= j < counts@.len() ==> #[trigger] counts@[j].0@ != edid@,
        },
{
    let mut i: usize = 0;
    while i < counts.len()
        invariant
            i <= counts@.len(),
            forall|j: int| 0 <= j < i ==> #[trigger] counts@[j].0@ != edid@,
        decreases counts@.len() - i,
    {
        if bytes_eq(&counts[i].0, edid) {
            return Some(i);
        }
        i = i + 1;
    }
    None
}

/// `counts` holds each EDID once, and agrees with `m`.
spec fn counts_match(counts: Seq<(Vec<u8>, Option<String>)>, m: Map<Seq<u8>, Option<String>>) -> bool {
    &&& forall|i: int, j: int|
        0 <= i < j < counts.len() ==> (#[trigger] counts[i]).0@ != (#[trigger] counts[j]).0@
    &&& forall|i: int|
        0 <= i < counts.len() ==> #[trigger] m.contains_key(counts[i].0@) && m[counts[i].0@]
            == counts[i].1
    &&& forall|k: Seq<u8>|
        #[trigger] m.contains_key(k) ==> exists|i: int| 0 <= i < counts.len() && counts[i].0@ == k
}

/// The EDIDs that occur exactly once among `items`, each with the name it came with.
pub fn unique_edids(items: Vec<(Vec<u8>, String)>) -> (table: EdidTable)
    ensures
        table@ == spec_unique_edids(edid_pairs(items@)),
{
    let ghost pairs = edid_pairs(items@);
    let mut counts: Vec<(Vec<u8>, Option<String>)> = Vec::new();
    let mut n: usize = 0;
    while n < items.len()
        invariant
            n <= items@.len(),
            pairs == edid_pairs(items@),
            counts_match(counts@, edid_counts(pairs.take(n as int))),
        decreases items@.len() - n,
    {
        let ghost prev = pairs.take(n as int);
        assert(pairs.take(n + 1).drop_last() =~= prev);
        assert(pairs.take(n + 1).last() == (items@[n as int].0@, items@[n as int].1));
        let ghost m = edid_counts(prev);
        let edid = items[n].0.clone();
        let name = items[n].1.clone();
        let ghost old_counts = counts@;
        match find_count(&counts, &edid) {
            Some(i) => {
                counts.set(i, (edid, None));
                proof {
                    let m2 = edid_counts(pairs.take(n + 1));
                    assert(m.contains_key(old_counts[i as int].0@));
                    assert(m2 == m.insert(edid@, None));
                    assert forall|a: int, b: int| 0 <= a < b < counts@.len() implies (
                    #[trigger] counts@[a]).0@ != (#[trigger] counts@[b]).0@ by {
                        assert(counts@[a].0@ == old_counts[a].0@);
                        assert(counts@[b].0@ == old_counts[b].0@);
                    }
                    assert forall|k: int| 0 <= k < counts@.len() implies #[trigger] m2.contains_key(
                        counts@[k].0@,
                    ) && m2[counts@[k].0@] == counts@[k].1 by {
                        if k != i {
                            assert(counts@[k] == old_counts[k]);
                            assert(m.contains_key(old_counts[k].0@));
                        }
                    }
                    assert forall|k: Seq<u8>| #[trigger] m2.contains_key(k) implies exists|j: int|
                        0 <= j < counts@.len() && counts@[j].0@ == k by {
                        if k != edid@ {
                            assert(m.contains_key(k));
                            let j = choose|j: int| 0 <= j < old_counts.len() && old_counts[j].0@ == k;
                            assert(counts@[j].0@ == old_counts[j].0@);
                        } else {
                            assert(counts@[i as int].0@ == k);
                        }
                    }
                }
            },
            None => {
                counts.push((edid, Some(name)));
                proof {
                    let m2 = edid_counts(pairs.take(n + 1));
                    assert(!m.contains_key(edid@)) by {
                        if m.contains_key(edid@) {
                            let j = choose|j: int|
                                0 <= j < old_counts.len() && old_counts[j].0@ == edid@;
                        }
                    }
                    assert(m2 == m.insert(edid@, Some(items@[n as int].1)));
                    let last = old_counts.len() as int;
                    assert forall|a: int, b: int| 0 <= a < b < counts@.len() implies (
                    #[trigger] counts@[a]).0@ != (#[trigger] counts@[b]).0@ by {
                        if b == last {
                            assert(counts@[a] == old_counts[a]);
                        } else {
                            assert(counts@[a] == old_counts[a] && counts@[b] == old_counts[b]);
                        }
                    }
                    assert forall|k: int| 0 <= k < counts@.len() implies #[trigger] m2.contains_key(
                        counts@[k].0@,
                    ) && m2[counts@[k].0@] == counts@[k].1 by {
                        if k != last {
                            assert(counts@[k] == old_counts[k]);
                            assert(m.contains_key(old_counts[k].0@));
                        }
                    }
                    assert forall|k: Seq<u8>| #[trigger] m2.contains_key(k) implies exists|j: int|
                        0 <= j < counts@.len() && counts@[j].0@ == k by {
                        if k != edid@ {
                            assert(m.contains_key(k));
                            let j = choose|j: int| 0 <= j < old_counts.len() && old_counts[j].0@ == k;
                            assert(counts@[j] == old_counts[j]);
                        } else {
                            assert(counts@[last].0@ == k);
                        }
                    }
                }
            },
        }
        n = n + 1;
    }
    assert(pairs.take(items@.len() as int) =~= pairs);
    let ghost m = edid_counts(pairs);
    let mut entries: Vec<(Vec<u8>, String)> = Vec::new();
    let ghost mut origin: Seq<int> = Seq::empty();
    let mut k: usize = 0;
    while k < counts.len()
        invariant
            k <= counts@.len(),
            counts_match(counts@, m),
            distinct_edids(entries@),
            origin.len() == entries@.len(),
            forall|i: int|
                0 <= i < entries@.len() ==> 0 <= #[trigger] origin[i] < k && counts@[origin[i]].0@
                    == entries@[i].0@,
            forall|j: int|
                0 <= j < k && counts@[j].1 is Some ==> exists|i: int|
                    0 <= i < entries@.len() && entries@[i].0@ == (#[trigger] counts@[j]).0@,
            forall|i: int|
                0 <= i < entries@.len() ==> m.contains_key(#[trigger] entries@[i].0@)
                    && m[entries@[i].0@] == Some(entries@[i].1),
        decreases counts@.len() - k,
    {
        let ghost old_entries = entries@;
        let ghost old_origin = origin;
        match &counts[k].1 {
            Some(name) => {
                let edid = counts[k].0.clone();
                let name = name.clone();
                entries.push((edid, name));
                proof {
                    origin = origin.push(k as int);
                    let last = old_entries.len() as int;
                    assert(m.contains_key(counts@[k as int].0@));
                    assert forall|a: int, b: int| 0 <= a < b < entries@.len() implies (
                    #[trigger] entries@[a]).0@ != (#[trigger] entries@[b]).0@ by {
                        if b == last {
                            assert(entries@[a] == old_entries[a]);
                            assert(old_origin[a] < k);
                            assert(counts@[old_origin[a]].0@ == old_entries[a].0@);
                        } else {
                            assert(entries@[a] == old_entries[a]);
                            assert(entries@[b] == old_entries[b]);
                        }
                    }
                    assert forall|i: int|
                        0 <= i < entries@.len() implies 0 <= #[trigger] origin[i] < k + 1
                            && counts@[origin[i]].0@ == entries@[i].0@ by {
                        if i < last {
                            assert(entries@[i] == old_entries[i]);
                            assert(origin[i] == old_origin[i]);
                        }
                    }
                    assert forall|j: int| 0 <= j < k + 1 && counts@[j].1 is Some implies exists|
                        i: int,
                    | 0 <= i < entries@.len() && entries@[i].0@ == (#[trigger] counts@[j]).0@ by {
                        if j < k {
                            let i = choose|i: int|
                                0 <= i < old_entries.len() && old_entries[i].0@ == counts@[j].0@;
                            assert(entries@[i] == old_entries[i]);
                        } else {
                            assert(entries@[last].0@ == counts@[j].0@);
                        }
                    }
                    assert forall|i: int| 0 <= i < entries@.len() implies m.contains_key(
                        #[trigger] entries@[i].0@,
                    ) && m[entries@[i].0@] == Some(entries@[i].1) by {
                        if i < last {
                            assert(entries@[i] == old_entries[i]);
                        }
                    }
                }
            },
            None => {},
        }
        k = k + 1;
    }
    let table = EdidTable { entries };
    proof {
        lemma_edid_map_of(entries@);
        let u = spec_unique_edids(pairs);
        assert forall|e: Seq<u8>| #[trigger] table@.contains_key(e) <==> u.contains_key(e) by {
            if table@.contains_key(e) {
                let i = choose|i: int| 0 <= i < entries@.len() && entries@[i].0@ == e;
                assert(m.contains_key(entries@[i].0@));
            }
            if u.contains_key(e) {
                assert(m.contains_key(e));
                let j = choose|j: int| 0 <= j < counts@.len() && counts@[j].0@ == e;
                assert(m.contains_key(counts@[j].0@));
                assert(counts@[j].1 is Some);
            }
        }
        assert forall|e: Seq<u8>| #[trigger] table@.contains_key(e) implies table@[e] == u[e] by {
            let i = choose|i: int| 0 <= i < entries@.len() && entries@[i].0@ == e;
            assert(table@.contains_key(entries@[i].0@));
            assert(m.contains_key(entries@[i].0@));
        }
        assert(table@ =~= u);
    }
    table
}

} // verus!
