//! Which serial port the IDE selects by default.
use vstd::prelude::*;
use crate::text::{ascii_lower, chars_of, contains_chars, has_sub, to_ascii_lowercase};
use crate::metadata::{find_first, lemma_find_first};

verus! {

/// A CH340 adapter (the board's USB serial bridge) that is no J-Link probe.
pub open spec fn is_board_bridge(label: Seq<char>) -> bool {
    has_sub(to_ascii_lowercase(label), "ch340"@) && !has_sub(to_ascii_lowercase(label), "j-link"@)
}

/// Any port that is no J-Link probe.
pub open spec fn is_not_probe(label: Seq<char>) -> bool {
    !has_sub(to_ascii_lowercase(label), "j-link"@)
}

/// The port to select among ports labelled `labels`: the first CH340
/// bridge, else the first port that is no J-Link probe, else none (the
/// selection stays as it is).
pub open spec fn default_port(labels: Seq<Seq<char>>) -> Option<int> {
    match find_first(labels, |l: Seq<char>| is_board_bridge(l)) {
        Some(i) => Some(i),
        None => find_first(labels, |l: Seq<char>| is_not_probe(l)),
    }
}

fn label_has(label: &str, p: &str) -> (b: bool)
    ensures
        b == has_sub(to_ascii_lowercase(label@), p@),
{
    let v = chars_of(label);
    let l = ascii_lower(v.as_slice());
    let pv = chars_of(p);
    contains_chars(l.as_slice(), pv.as_slice())
}

/// The port to select by default (see [`default_port`]).
pub fn default_port_index(labels: &Vec<String>) -> (r: Option<usize>)
    ensures
        match r {
            Some(i) => default_port(labels@.map_values(|s: String| s@)) == Some(i as int),
            None => default_port(labels@.map_values(|s: String| s@)) is None,
        },
{
    let ghost lv = labels@.map_values(|s: String| s@);
    let ghost p1 = |l: Seq<char>| is_board_bridge(l);
    let ghost p2 = |l: Seq<char>| is_not_probe(l);
    let mut k: usize = 0;
    while k < labels.len()
        invariant
            k <= labels@.len(),
            lv == labels@.map_values(|s: String| s@),
            p1 == (|l: Seq<char>| is_board_bridge(l)),
            forall|j: int| 0 <= j < k ==> !p1(#[trigger] lv[j]),
        decreases labels.len() - k,
    {
        if label_has(labels[k].as_str(), "ch340") && !label_has(labels[k].as_str(), "j-link") {
            proof {
                lemma_find_first(lv, p1, k as int);
            }
            return Some(k);
        }
        k = k + 1;
    }
    proof {
        lemma_find_first(lv, p1, k as int);
    }
    let mut k: usize = 0;
    while k < labels.len()
        invariant
            k <= labels@.len(),
            lv == labels@.map_values(|s: String| s@),
            p1 == (|l: Seq<char>| is_board_bridge(l)),
            p2 == (|l: Seq<char>| is_not_probe(l)),
            find_first(lv, p1) is None,
            forall|j: int| 0 <= j < k ==> !p2(#[trigger] lv[j]),
        decreases labels.len() - k,
    {
        if !label_has(labels[k].as_str(), "j-link") {
            proof {
                lemma_find_first(lv, p2, k as int);
            }
            return Some(k);
        }
        k = k + 1;
    }
    proof {
        lemma_find_first(lv, p2, k as int);
    }
    None
}

} // verus!
