//! The wire codec: a flat, non-nested key-value text format.
//!
//! A message looks like `{"sn": "AAPL", "si": 1, "vm": 100}`.  Braces,
//! quotes and whitespace carry no meaning and are skipped; `:` ends a key,
//! `,` ends a value.  There is no escaping and no nesting.  A dangling
//! fragment at the end of the input (a value never terminated) is kept only
//! when both a key and a value are present; a field with an empty value is
//! dropped.  Decoding never fails: every input yields a (possibly empty)
//! sequence of key-value pairs.

use vstd::prelude::*;

verus! {

/// Characters the decoder skips entirely: whitespace, quotes and braces.
pub open spec fn is_skipped(c: char) -> bool {
    c == ' ' || c == '\n' || c == '\t' || c == '"' || c == '{' || c == '}'
}

/// Characters that terminate the fragment being accumulated.
pub open spec fn is_separator(c: char) -> bool {
    c == ':' || c == ','
}

/// Text the decoder carries verbatim: no structural and no separator
/// characters.
pub open spec fn plain_text(s: Seq<char>) -> bool {
    forall|i: int| 0 <= i < s.len() ==> !is_skipped(#[trigger] s[i]) && !is_separator(s[i])
}

/// The decoder's state after reading some prefix of the input: the key
/// waiting for its value (empty if none), the fragment being accumulated,
/// and the pairs completed so far.
pub ghost struct ScanState {
    pub key: Seq<char>,
    pub fragment: Seq<char>,
    pub pairs: Seq<(Seq<char>, Seq<char>)>,
}

pub open spec fn scan_init() -> ScanState {
    ScanState { key: Seq::empty(), fragment: Seq::empty(), pairs: Seq::empty() }
}

/// One step of the decoder on character `c`.
pub open spec fn scan_step(st: ScanState, c: char) -> ScanState {
    if is_skipped(c) {
        st
    } else if is_separator(c) {
        if st.key.len() == 0 {
            ScanState { key: st.fragment, fragment: Seq::empty(), pairs: st.pairs }
        } else if st.fragment.len() == 0 {
            ScanState { key: Seq::empty(), fragment: Seq::empty(), pairs: st.pairs }
        } else {
            ScanState {
                key: Seq::empty(),
                fragment: Seq::empty(),
                pairs: st.pairs.push((st.key, st.fragment)),
            }
        }
    } else {
        ScanState { key: st.key, fragment: st.fragment.push(c), pairs: st.pairs }
    }
}

/// The decoder's state after reading all of `s`.
pub open spec fn scan(s: Seq<char>) -> ScanState
    decreases s.len(),
{
    if s.len() == 0 {
        scan_init()
    } else {
        scan_step(scan(s.drop_last()), s.last())
    }
}

/// All pairs decoded from the message `s`: the completed pairs, plus the
/// dangling key/fragment when both are nonempty.
pub open spec fn decoded_pairs(s: Seq<char>) -> Seq<(Seq<char>, Seq<char>)> {
    let st = scan(s);
    if st.key.len() > 0 && st.fragment.len() > 0 {
        st.pairs.push((st.key, st.fragment))
    } else {
        st.pairs
    }
}

/// The value decoded for field `k`: the last pair with that key, if any.
pub open spec fn field_value(pairs: Seq<(Seq<char>, Seq<char>)>, k: Seq<char>) -> Option<Seq<char>>
    decreases pairs.len(),
{
    if pairs.len() == 0 {
        None
    } else if pairs.last().0 == k {
        Some(pairs.last().1)
    } else {
        field_value(pairs.drop_last(), k)
    }
}

/// Relies on std's `String::push`: appends the given character to the end
/// of the string.
pub assume_specification[ String::push ](s: &mut String, ch: char)
    ensures
        final (s)@ == old(s)@.push(ch),
;

/// Decodes one wire message into its key-value pairs, in the order the
/// pairs were completed.  Total: malformed input yields fewer pairs, never
/// an error.
pub fn parse_json(json_data: &str) -> (pairs: Vec<(String, String)>)
    ensures
        pairs.deep_view() == decoded_pairs(json_data@),
{
    let n: usize = json_data.unicode_len();
    let mut key = String::new();
    let mut fragment = String::new();
    let mut pairs: Vec<(String, String)> = Vec::new();
    let mut i: usize = 0;
    while i < n
        invariant
            i <= n,
            n == json_data@.len(),
            key@ == scan(json_data@.subrange(0, i as int)).key,
            fragment@ == scan(json_data@.subrange(0, i as int)).fragment,
            pairs.deep_view() == scan(json_data@.subrange(0, i as int)).pairs,
        decreases n - i,
    {
        proof {
            assert(json_data@.subrange(0, (i + 1) as int).drop_last() =~= json_data@.subrange(
                0,
                i as int,
            ));
            assert(json_data@.subrange(0, (i + 1) as int).last() == json_data@[i as int]);
        }
        let c = json_data.get_char(i);
        if c == ' ' || c == '\n' || c == '\t' || c == '"' || c == '{' || c == '}' {
            // structural character: skipped
        } else if c == ':' || c == ',' {
            if key.as_str().is_empty() {
                key = fragment;
                fragment = String::new();
            } else if fragment.as_str().is_empty() {
                key = String::new();
            } else {
                let ghost prev = pairs.deep_view();
                pairs.push((key, fragment));
                proof {
                    assert(pairs.deep_view() =~= prev.push((key@, fragment@)));
                }
                key = String::new();
                fragment = String::new();
            }
        } else {
            fragment.push(c);
        }
        i = i + 1;
    }
    proof {
        assert(json_data@.subrange(0, n as int) =~= json_data@);
    }
    if !key.as_str().is_empty() && !fragment.as_str().is_empty() {
        let ghost prev = pairs.deep_view();
        pairs.push((key, fragment));
        proof {
            assert(pairs.deep_view() =~= prev.push((key@, fragment@)));
        }
    }
    pairs
}

/// Looks up field `key` among decoded pairs, taking the last occurrence,
/// as `field_value` does.
pub fn get_field<'a>(pairs: &'a Vec<(String, String)>, key: &String) -> (r: Option<&'a String>)
    ensures
        match r {
            Some(v) => field_value(pairs.deep_view(), key@) == Some(v@),
            None => field_value(pairs.deep_view(), key@) is None,
        },
{
    let mut i: usize = pairs.len();
    proof {
        assert(pairs.deep_view().subrange(0, i as int) =~= pairs.deep_view());
    }
    while i > 0
        invariant
            i <= pairs.len(),
            field_value(pairs.deep_view(), key@) == field_value(
                pairs.deep_view().subrange(0, i as int),
                key@,
            ),
        decreases i,
    {
        i = i - 1;
        proof {
            assert(pairs.deep_view().subrange(0, (i + 1) as int).last() == pairs.deep_view()[
                i as int
            ]);
            assert(pairs.deep_view().subrange(0, (i + 1) as int).drop_last()
                =~= pairs.deep_view().subrange(0, i as int));
        }
        if pairs[i].0 == *key {
            return Some(&pairs[i].1);
        }
    }
    proof {
        assert(pairs.deep_view().subrange(0, 0) =~= Seq::<(Seq<char>, Seq<char>)>::empty());
    }
    None
}

} // verus!
