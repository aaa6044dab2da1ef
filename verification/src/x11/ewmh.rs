use vstd::prelude::*;
use vstd::utf8::{decode_utf8, valid_utf8};

verus! {

broadcast use vstd::string::group_string_axioms;

/// The `i`-th little-endian 32-bit word of a byte sequence.
pub open spec fn le_word(bytes: Seq<u8>, i: int) -> int {
    bytes[4 * i] as int + 0x100 * bytes[4 * i + 1] as int + 0x1_0000 * bytes[4 * i + 2] as int
        + 0x100_0000 * bytes[4 * i + 3] as int
}

/// All complete little-endian 32-bit words of a byte sequence; a trailing
/// partial word is ignored.
pub open spec fn le_words(bytes: Seq<u8>) -> Seq<u32> {
    Seq::new(bytes.len() / 4, |i: int| le_word(bytes, i) as u32)
}

proof fn lemma_le_word_bounds(bytes: Seq<u8>, i: int)
    requires
        0 <= i,
        4 * i + 3 < bytes.len(),
    ensures
        0 <= le_word(bytes, i) <= u32::MAX,
{
}

fn read_le_word(data: &[u8], i: usize) -> (w: u32)
    requires
        4 * i + 3 < data@.len(),
    ensures
        w as int == le_word(data@, i as int),
{
    let _len = data.len();
    let b0 = data[4 * i] as u32;
    let b1 = data[4 * i + 1] as u32;
    let b2 = data[4 * i + 2] as u32;
    let b3 = data[4 * i + 3] as u32;
    b0 + 0x100 * b1 + 0x1_0000 * b2 + 0x100_0000 * b3
}

/// Parse _NET_CLIENT_LIST or similar u32 array property bytes (little-endian).
pub fn parse_window_ids(data: &[u8]) -> (ids: Vec<u32>)
    ensures
        ids@ == le_words(data@),
{
    let n = data.len() / 4;
    let mut ids: Vec<u32> = Vec::new();
    let mut i: usize = 0;
    while i < n
        invariant
            n == data@.len() / 4,
            i <= n,
            ids@.len() == i,
            forall|k: int| 0 <= k < i ==> ids@[k] as int == le_word(data@, k),
        decreases n - i,
    {
        let w = read_le_word(data, i);
        ids.push(w);
        i = i + 1;
    }
    proof {
        assert forall|k: int| 0 <= k < n implies ids@[k] == le_words(data@)[k] by {
            lemma_le_word_bounds(data@, k);
        }
        assert(ids@ =~= le_words(data@));
    }
    ids
}

/// Parse a single u32 from property bytes (e.g. _NET_ACTIVE_WINDOW, _NET_CURRENT_DESKTOP).
pub fn parse_window_id(data: &[u8]) -> (id: Option<u32>)
    ensures
        data@.len() < 4 ==> id is None,
        data@.len() >= 4 ==> id == Some(le_word(data@, 0) as u32),
{
    if data.len() < 4 {
        return None;
    }
    Some(read_le_word(data, 0))
}

/// Window state flags parsed from _NET_WM_STATE atoms.
#[derive(Debug, Clone, Copy, Default, PartialEq, Eq, Structural)]
pub struct WmStateFlags {
    pub is_hidden: bool,
    pub demands_attention: bool,
}

fn contains_u32(v: &Vec<u32>, x: u32) -> (r: bool)
    ensures
        r == v@.contains(x),
{
    let mut i: usize = 0;
    while i < v.len()
        invariant
            i <= v@.len(),
            forall|k: int| 0 <= k < i ==> v@[k] != x,
        decreases v@.len() - i,
    {
        if v[i] == x {
            return true;
        }
        i = i + 1;
    }
    false
}

/// Parse _NET_WM_STATE atom array into state flags.
/// `data` contains the raw property bytes (array of u32 atom IDs).
/// `hidden_atom` and `attention_atom` are the interned atom IDs.
pub fn parse_wm_state_flags(data: &[u8], hidden_atom: u32, attention_atom: u32) -> (flags:
    WmStateFlags)
    ensures
        flags.is_hidden == le_words(data@).contains(hidden_atom),
        flags.demands_attention == le_words(data@).contains(attention_atom),
{
    let atoms = parse_window_ids(data);
    WmStateFlags {
        is_hidden: contains_u32(&atoms, hidden_atom),
        demands_attention: contains_u32(&atoms, attention_atom),
    }
}

/// The result of the standard library's lossy UTF-8 decoding of `bytes`
/// (invalid sequences become U+FFFD).
pub uninterp spec fn lossy_utf8(bytes: Seq<u8>) -> Seq<char>;

/// Calls `String::from_utf8_lossy` and takes ownership of the result. The
/// contract names the result `lossy_utf8` of the bytes and states the
/// documented fact that valid UTF-8 is decoded unchanged; how invalid
/// sequences are replaced is left to the name.
#[verifier::external_body]
fn from_utf8_lossy_owned(data: &[u8]) -> (s: String)
    ensures
        s@ == lossy_utf8(data@),
        valid_utf8(data@) ==> s@ == decode_utf8(data@),
{
    String::from_utf8_lossy(data).into_owned()
}

/// Calls `std::str::from_utf8`: the bytes are accepted exactly when they are
/// valid UTF-8, and then the string holds the decoded characters.
#[verifier::external_body]
fn from_utf8_checked(data: &[u8]) -> (s: Option<&str>)
    ensures
        s is Some <==> valid_utf8(data@),
        s matches Some(t) ==> t@ == decode_utf8(data@),
{
    std::str::from_utf8(data).ok()
}

/// Parse _NET_WM_NAME or WM_NAME bytes (UTF-8 with lossy fallback).
pub fn parse_wm_name(data: &[u8]) -> (name: String)
    ensures
        name@ == lossy_utf8(data@),
        valid_utf8(data@) ==> name@ == decode_utf8(data@),
{
    from_utf8_lossy_owned(data)
}

/// Scanning state of a NUL-separated text: the non-empty fields completed so
/// far, and the field being read.
pub open spec fn nul_runs(s: Seq<char>) -> (Seq<Seq<char>>, Seq<char>)
    decreases s.len(),
{
    if s.len() == 0 {
        (seq![], seq![])
    } else {
        let prev = nul_runs(s.drop_last());
        let c = s.last();
        if c == '\0' {
            if prev.1.len() > 0 {
                (prev.0.push(prev.1), seq![])
            } else {
                (prev.0, seq![])
            }
        } else {
            (prev.0, prev.1.push(c))
        }
    }
}

/// The non-empty NUL-separated fields of a text, in order.
pub open spec fn nul_fields(s: Seq<char>) -> Seq<Seq<char>> {
    let r = nul_runs(s);
    if r.1.len() > 0 {
        r.0.push(r.1)
    } else {
        r.0
    }
}

/// The `i`-th element of a sequence of texts, or the empty text.
pub open spec fn field_or_empty(fields: Seq<Seq<char>>, i: int) -> Seq<char> {
    if 0 <= i < fields.len() {
        fields[i]
    } else {
        seq![]
    }
}

/// The text a WM_CLASS value holds: its UTF-8 decoding, or nothing when the
/// bytes are not valid UTF-8.
pub open spec fn wm_class_text(data: Seq<u8>) -> Seq<char> {
    if valid_utf8(data) {
        decode_utf8(data)
    } else {
        seq![]
    }
}

/// `ranges` are index ranges of `s` whose contents are exactly `pieces`, all
/// ending at or before `bound`.
pub open spec fn ranges_hold(s: Seq<char>, ranges: Seq<(usize, usize)>, pieces: Seq<Seq<char>>, bound: int) -> bool {
    &&& ranges.len() == pieces.len()
    &&& forall|k: int|
        0 <= k < ranges.len() ==> {
            &&& (#[trigger] ranges[k]).0 <= ranges[k].1 <= bound
            &&& s.subrange(ranges[k].0 as int, ranges[k].1 as int) == pieces[k]
        }
}

proof fn lemma_ranges_push(
    s: Seq<char>,
    ranges: Seq<(usize, usize)>,
    pieces: Seq<Seq<char>>,
    bound: int,
    r: (usize, usize),
    new_bound: int,
)
    requires
        ranges_hold(s, ranges, pieces, bound),
        bound <= new_bound,
        r.0 <= r.1 <= new_bound,
    ensures
        ranges_hold(s, ranges.push(r), pieces.push(s.subrange(r.0 as int, r.1 as int)), new_bound),
{
    assert forall|k: int| 0 <= k < ranges.push(r).len() implies {
        &&& (#[trigger] ranges.push(r)[k]).0 <= ranges.push(r)[k].1 <= new_bound
        &&& s.subrange(ranges.push(r)[k].0 as int, ranges.push(r)[k].1 as int) == pieces.push(
            s.subrange(r.0 as int, r.1 as int),
        )[k]
    } by {
        if k < ranges.len() {
            assert(ranges.push(r)[k] == ranges[k]);
        }
    }
}

proof fn lemma_ranges_widen(s: Seq<char>, ranges: Seq<(usize, usize)>, pieces: Seq<Seq<char>>, bound: int, new_bound: int)
    requires
        ranges_hold(s, ranges, pieces, bound),
        bound <= new_bound,
    ensures
        ranges_hold(s, ranges, pieces, new_bound),
{
}

fn nul_field_bounds(s: &str) -> (fields: Vec<(usize, usize)>)
    ensures
        ranges_hold(s@, fields@, nul_fields(s@), s@.len() as int),
{
    let n = s.unicode_len();
    let mut done: Vec<(usize, usize)> = Vec::new();
    let mut start: usize = 0;
    let mut i: usize = 0;
    while i < n
        invariant
            n == s@.len(),
            start <= i <= n,
            ranges_hold(s@, done@, nul_runs(s@.take(i as int)).0, i as int),
            nul_runs(s@.take(i as int)).1 == s@.subrange(start as int, i as int),
        decreases n - i,
    {
        let c = s.get_char(i);
        let ni: usize = i + 1;
        let ghost prev = nul_runs(s@.take(i as int));
        proof {
            assert(s@.take(ni as int).drop_last() =~= s@.take(i as int));
            assert(s@.take(ni as int).last() == c);
        }
        if c == '\0' {
            if start < i {
                proof {
                    lemma_ranges_push(s@, done@, prev.0, i as int, (start, i), ni as int);
                }
                done.push((start, i));
            } else {
                proof {
                    assert(prev.1.len() == 0);
                    lemma_ranges_widen(s@, done@, prev.0, i as int, ni as int);
                }
            }
            start = ni;
            proof {
                assert(s@.subrange(start as int, ni as int) =~= Seq::<char>::empty());
            }
        } else {
            proof {
                lemma_ranges_widen(s@, done@, prev.0, i as int, ni as int);
                assert(s@.subrange(start as int, ni as int) =~= s@.subrange(
                    start as int,
                    i as int,
                ).push(c));
            }
        }
        i = ni;
    }
    proof {
        assert(s@.take(n as int) =~= s@);
    }
    if start < n {
        proof {
            lemma_ranges_push(s@, done@, nul_runs(s@).0, n as int, (start, n), n as int);
        }
        done.push((start, n));
    }
    done
}

/// Parse WM_CLASS bytes: "instance\0class\0" → (instance, class).
pub fn parse_wm_class(data: &[u8]) -> (parts: (String, String))
    ensures
        parts.0@ == field_or_empty(nul_fields(wm_class_text(data@)), 0),
        parts.1@ == field_or_empty(nul_fields(wm_class_text(data@)), 1),
{
    let s: &str = match from_utf8_checked(data) {
        Some(t) => t,
        None => "",
    };
    proof {
        if !valid_utf8(data@) {
            reveal_strlit("");
            assert(s@ =~= Seq::<char>::empty());
        }
        assert(s@ == wm_class_text(data@));
    }
    let fields = nul_field_bounds(s);
    proof {
        if fields@.len() > 0 {
            assert(fields@[0].0 <= fields@[0].1);
        }
        if fields@.len() > 1 {
            assert(fields@[1].0 <= fields@[1].1);
        }
    }
    let instance = if fields.len() > 0 {
        s.substring_char(fields[0].0, fields[0].1).to_string()
    } else {
        String::new()
    };
    let class = if fields.len() > 1 {
        s.substring_char(fields[1].0, fields[1].1).to_string()
    } else {
        String::new()
    };
    (instance, class)
}

} // verus!
