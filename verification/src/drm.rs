//! Names of DRM connectors (`card0-eDP-1`) and i2c buses (`i2c-4`).
use vstd::prelude::*;

use crate::text::{
    all_digits, char_is_digit, chars_of, find_char, find_char_exec, is_digit,
    lemma_find_char_bounds, slice_vec, string_of,
};

verus! {

/// The name starts with `card`.
pub open spec fn has_card_prefix(s: Seq<char>) -> bool {
    s.len() >= 4 && s[0] == 'c' && s[1] == 'a' && s[2] == 'r' && s[3] == 'd'
}

/// `card<digits>-<connector>`, with at least one digit and a nonempty connector.
pub open spec fn spec_is_connector_name(s: Seq<char>) -> bool {
    let k = find_char(s, '-', 4);
    &&& has_card_prefix(s)
    &&& 4 < k < s.len() - 1
    &&& all_digits(s.subrange(4, k))
}

/// The output name of a connector: what follows the first `-` after `card`,
/// or the whole name when it is not of that form.
pub open spec fn spec_connector_output_name(s: Seq<char>) -> Seq<char> {
    let k = find_char(s, '-', 4);
    if has_card_prefix(s) && k < s.len() {
        s.subrange(k + 1, s.len() as int)
    } else {
        s
    }
}

/// `i2c-<digits>` with at least one digit.
pub open spec fn spec_is_i2c_bus_name(s: Seq<char>) -> bool {
    &&& s.len() > 4
    &&& s[0] == 'i' && s[1] == '2' && s[2] == 'c' && s[3] == '-'
    &&& all_digits(s.subrange(4, s.len() as int))
}

fn has_card_prefix_exec(v: &Vec<char>) -> (r: bool)
    ensures
        r == has_card_prefix(v@),
{
    v.len() >= 4 && v[0] == 'c' && v[1] == 'a' && v[2] == 'r' && v[3] == 'd'
}

fn all_digits_range(v: &Vec<char>, lo: usize, hi: usize) -> (r: bool)
    requires
        lo <= hi <= v.len(),
    ensures
        r == all_digits(v@.subrange(lo as int, hi as int)),
{
    let mut i = lo;
    while i < hi
        invariant
            lo <= i <= hi <= v.len(),
            forall|j: int| lo <= j < i ==> is_digit(#[trigger] v@[j]),
        decreases hi - i,
    {
        if !char_is_digit(v[i]) {
            assert(v@.subrange(lo as int, hi as int)[i - lo] == v@[i as int]);
            return false;
        }
        i = i + 1;
    }
    assert forall|j: int| 0 <= j < hi - lo implies is_digit(
        #[trigger] v@.subrange(lo as int, hi as int)[j],
    ) by {
        assert(v@.subrange(lo as int, hi as int)[j] == v@[lo + j]);
    }
    true
}

/// Whether `name` is a DRM connector directory name such as `card0-eDP-1`.
pub fn is_connector_name(name: &str) -> (r: bool)
    ensures
        r == spec_is_connector_name(name@),
{
    let v = chars_of(name);
    if !has_card_prefix_exec(&v) {
        return false;
    }
    let k = find_char_exec(&v, '-', 4);
    proof {
        lemma_find_char_bounds(v@, '-', 4);
    }
    if !(4 < k && k < v.len() - 1) {
        return false;
    }
    all_digits_range(&v, 4, k)
}

/// The output name of a connector: `card0-eDP-1` gives `eDP-1`.
pub fn connector_output_name(name: &str) -> (r: String)
    ensures
        r@ == spec_connector_output_name(name@),
{
    let v = chars_of(name);
    if has_card_prefix_exec(&v) {
        let k = find_char_exec(&v, '-', 4);
        proof {
            lemma_find_char_bounds(v@, '-', 4);
        }
        if k < v.len() {
            let out = slice_vec(&v, k + 1, v.len());
            return string_of(&out);
        }
    }
    string_of(&v)
}

/// Whether `name` is an i2c bus device name such as `i2c-4`.
pub fn is_i2c_bus_name(name: &str) -> (r: bool)
    ensures
        r == spec_is_i2c_bus_name(name@),
{
    let v = chars_of(name);
    if v.len() <= 4 {
        return false;
    }
    if !(v[0] == 'i' && v[1] == '2' && v[2] == 'c' && v[3] == '-') {
        return false;
    }
    all_digits_range(&v, 4, v.len())
}

/// A DRM connector: its directory name and path.
#[derive(Clone, Debug)]
pub struct DrmConnector {
    pub name: String,
    pub path: String,
}

/// The directory entries whose names are connector names, in order.
pub open spec fn connector_entries(entries: Seq<(String, String)>) -> Seq<(String, String)>
    decreases entries.len(),
{
    if entries.len() == 0 {
        Seq::empty()
    } else {
        let init = connector_entries(entries.drop_last());
        if spec_is_connector_name(entries.last().0@) {
            init.push(entries.last())
        } else {
            init
        }
    }
}

/// The connectors among the entries `(name, path)` of the DRM class directory.
pub fn connectors(entries: Vec<(String, String)>) -> (r: Vec<DrmConnector>)
    ensures
        r@.len() == connector_entries(entries@).len(),
        forall|i: int|
            0 <= i < r@.len() ==> (#[trigger] r@[i]).name == connector_entries(entries@)[i].0
                && r@[i].path == connector_entries(entries@)[i].1,
{
    let mut out: Vec<DrmConnector> = Vec::new();
    let mut i: usize = 0;
    while i < entries.len()
        invariant
            i <= entries@.len(),
            out@.len() == connector_entries(entries@.take(i as int)).len(),
            forall|k: int|
                0 <= k < out@.len() ==> (#[trigger] out@[k]).name == connector_entries(
                    entries@.take(i as int),
                )[k].0 && out@[k].path == connector_entries(entries@.take(i as int))[k].1,
        decreases entries@.len() - i,
    {
        assert(entries@.take(i + 1).drop_last() =~= entries@.take(i as int));
        if is_connector_name(entries[i].0.as_str()) {
            out.push(DrmConnector { name: entries[i].0.clone(), path: entries[i].1.clone() });
        }
        i = i + 1;
    }
    assert(entries@.take(entries@.len() as int) =~= entries@);
    out
}

} // verus!
