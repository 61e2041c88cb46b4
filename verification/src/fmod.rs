//! Identifiers of FMOD Studio objects: GUIDs, and their parsing from the
//! Windows-style text form `{01234567-89AB-CDEF-FEDC-BA9876543210}`.
use regex::Regex;
use vstd::prelude::*;
use vstd::string::StringExecFns;

verus! {

/// A globally unique identifier, laid out as FMOD lays out its GUIDs.
#[derive(Debug, Clone, Copy, PartialEq, Eq, Hash)]
pub struct Guid {
    pub data1: u32,
    pub data2: u16,
    pub data3: u16,
    pub data4: [u8; 8],
}

/// Why a GUID could not be parsed.
#[derive(Debug, Clone, Copy, PartialEq, Eq, Structural)]
pub enum GuidError {
    /// No part of the text has the form `{8-4-4-4-12}` in hexadecimal digits.
    NoMatch,
    /// The match did not have the five groups of digits.
    WrongGroupCount,
    /// A group of digits is no hexadecimal number of its field's width.
    InvalidHex,
}

impl GuidError {
    /// The text of the error.
    pub fn message(&self) -> (r: String)
        ensures
            r@ == match self {
                GuidError::NoMatch => "couldn't parse GUID: didn't fit expected pattern"@,
                GuidError::WrongGroupCount => "wrong number of byte groups"@,
                GuidError::InvalidHex => "invalid digit found in string"@,
            },
    {
        match self {
            GuidError::NoMatch => String::from_str("couldn't parse GUID: didn't fit expected pattern"),
            GuidError::WrongGroupCount => String::from_str("wrong number of byte groups"),
            GuidError::InvalidHex => String::from_str("invalid digit found in string"),
        }
    }
}

/// `c` is an ASCII hexadecimal digit.
pub open spec fn is_xdigit(c: char) -> bool {
    let v = c as u32;
    (48 <= v && v <= 57) || (65 <= v && v <= 70) || (97 <= v && v <= 102)
}

/// Offsets, within a match, of the characters that are no digits.
pub open spec fn guid_punct(k: int) -> bool {
    k == 0 || k == 9 || k == 14 || k == 19 || k == 24 || k == 37
}

/// The 38 characters of `s` from `i` have the form `{8-4-4-4-12}`, in
/// hexadecimal digits.
pub open spec fn guid_shape_at(s: Seq<char>, i: int) -> bool {
    &&& 0 <= i
    &&& i + 38 <= s.len()
    &&& s[i] == '{'
    &&& s[i + 9] == '-'
    &&& s[i + 14] == '-'
    &&& s[i + 19] == '-'
    &&& s[i + 24] == '-'
    &&& s[i + 37] == '}'
    &&& forall|k: int| 0 <= k < 38 && !guid_punct(k) ==> is_xdigit(#[trigger] s[i + k])
}

/// The first index from `i` on at which `s` has the GUID form, or `-1`.
pub open spec fn first_guid(s: Seq<char>, i: int) -> int
    decreases s.len() - i,
{
    if i < 0 || i + 38 > s.len() {
        -1
    } else if guid_shape_at(s, i) {
        i
    } else {
        first_guid(s, i + 1)
    }
}

/// The bytes of ASCII characters.
pub open spec fn ascii_bytes(cs: Seq<char>) -> Seq<u8> {
    cs.map_values(|c: char| c as u8)
}

/// The capture groups of a match at `i`: the whole match, then the five
/// groups of digits, each as its bytes.
pub open spec fn guid_groups_at(s: Seq<char>, i: int) -> Seq<Option<Seq<u8>>> {
    seq![
        Some(ascii_bytes(s.subrange(i, i + 38))),
        Some(ascii_bytes(s.subrange(i + 1, i + 9))),
        Some(ascii_bytes(s.subrange(i + 10, i + 14))),
        Some(ascii_bytes(s.subrange(i + 15, i + 19))),
        Some(ascii_bytes(s.subrange(i + 20, i + 24))),
        Some(ascii_bytes(s.subrange(i + 25, i + 37))),
    ]
}

/// The capture groups of the first match of the GUID pattern
/// `[{]([[:xdigit:]]{8})-([[:xdigit:]]{4})-([[:xdigit:]]{4})-([[:xdigit:]]{4})-([[:xdigit:]]{12})[}]`
/// in `s`, or `None` where nothing matches. The pattern matches exactly 38
/// ASCII characters, so the first match is the first window of that form.
pub open spec fn guid_captures(s: Seq<char>) -> Option<Seq<Option<Seq<u8>>>> {
    let i = first_guid(s, 0);
    if i < 0 {
        None
    } else {
        Some(guid_groups_at(s, i))
    }
}

/// `Regex::captures` with the GUID pattern, each group's text taken as its
/// bytes. The pattern has a fixed length of 38 ASCII characters and no
/// alternatives, so the leftmost match is the first 38-character window of
/// the form `{8-4-4-4-12}` (`[[:xdigit:]]` is the ASCII class
/// `[0-9A-Fa-f]`), and each group's bytes are its characters.
#[verifier::external_body]
fn capture_guid(s: &str) -> (r: Option<Vec<Option<Vec<u8>>>>)
    ensures
        match guid_captures(s@) {
            None => r is None,
            Some(groups) => r matches Some(v) && group_views(v@) == groups,
        },
{
    let re = Regex::new(
        "[{]([[:xdigit:]]{8})-([[:xdigit:]]{4})-([[:xdigit:]]{4})-([[:xdigit:]]{4})-([[:xdigit:]]{12})[}]",
    ).unwrap();
    re.captures(s).map(|caps| caps.iter().map(|m| m.map(|m| m.as_str().as_bytes().to_vec())).collect())
}

proof fn lemma_first_guid(s: Seq<char>, i: int)
    ensures
        first_guid(s, i) >= 0 ==> guid_shape_at(s, first_guid(s, i)) && first_guid(s, i) >= i,
    decreases s.len() - i,
{
    if !(i < 0 || i + 38 > s.len()) && !guid_shape_at(s, i) {
        lemma_first_guid(s, i + 1);
    }
}

proof fn lemma_guid_groups_shaped(s: Seq<char>, i: int)
    requires
        guid_shape_at(s, i),
    ensures
        guid_groups_shaped(guid_groups_at(s, i)),
{
    let g = guid_groups_at(s, i);
    assert forall|j: int| 0 <= j < 6 implies (#[trigger] g[j]) is Some by {
    }
}

/// The bytes of each capture group.
pub open spec fn group_views(groups: Seq<Option<Vec<u8>>>) -> Seq<Option<Seq<u8>>> {
    groups.map_values(
        |g: Option<Vec<u8>>|
            match g {
                Some(b) => Some(b@),
                None => None,
            },
    )
}

/// Six groups, all present; the five digit groups are 8, 4, 4, 4 and 12
/// bytes long.
pub open spec fn guid_groups_shaped(groups: Seq<Option<Seq<u8>>>) -> bool {
    &&& groups.len() == 6
    &&& forall|i: int| 0 <= i < 6 ==> (#[trigger] groups[i]) is Some
    &&& groups[1]->Some_0.len() == 8
    &&& groups[2]->Some_0.len() == 4
    &&& groups[3]->Some_0.len() == 4
    &&& groups[4]->Some_0.len() == 4
    &&& groups[5]->Some_0.len() == 12
}

/// The value of a hexadecimal digit byte.
pub open spec fn hex_digit(b: u8) -> Option<int> {
    if 48 <= b <= 57 {
        Some(b - 48)
    } else if 65 <= b <= 70 {
        Some(b - 55)
    } else if 97 <= b <= 102 {
        Some(b - 87)
    } else {
        None
    }
}

/// The number written by the hexadecimal digits `d`, most significant first.
pub open spec fn hex_number(d: Seq<u8>) -> int
    decreases d.len(),
{
    if d.len() == 0 {
        0
    } else {
        hex_number(d.drop_last()) * 16 + hex_digit(d.last())->Some_0
    }
}

/// Every byte of `d` is a hexadecimal digit.
pub open spec fn all_hex(d: Seq<u8>) -> bool {
    forall|i: int| 0 <= i < d.len() ==> (#[trigger] hex_digit(d[i])) is Some
}

/// The digits of `s` once a leading `+` is dropped.
pub open spec fn unsigned_digits(s: Seq<u8>) -> Seq<u8> {
    if s.len() > 0 && s[0] == 43 {
        s.drop_first()
    } else {
        s
    }
}

/// The number that `from_str_radix(s, 16)` reads from the bytes `s` for a
/// type whose largest value is `max`: an optional `+`, then at least one
/// hexadecimal digit and nothing else, worth at most `max`.
pub open spec fn radix16(s: Seq<u8>, max: int) -> Option<int> {
    let d = unsigned_digits(s);
    if d.len() > 0 && all_hex(d) && hex_number(d) <= max {
        Some(hex_number(d))
    } else {
        None
    }
}

/// `s` cut into pieces of two bytes, the last one shorter when `s` has an
/// odd length.
pub open spec fn pairs(s: Seq<u8>) -> Seq<Seq<u8>>
    decreases s.len(),
{
    if s.len() == 0 {
        Seq::empty()
    } else if s.len() <= 2 {
        seq![s]
    } else {
        seq![s.take(2)] + pairs(s.skip(2))
    }
}

proof fn lemma_pairs_len(s: Seq<u8>)
    ensures
        pairs(s).len() == (s.len() + 1) / 2,
    decreases s.len(),
{
    if s.len() > 2 {
        lemma_pairs_len(s.skip(2));
    }
}

proof fn lemma_pairs_index(s: Seq<u8>, k: int)
    requires
        0 <= k < pairs(s).len(),
    ensures
        pairs(s)[k] == s.subrange(2 * k, if 2 * k + 2 <= s.len() { 2 * k + 2 } else { s.len() as int }),
    decreases s.len(),
{
    lemma_pairs_len(s);
    if s.len() > 2 {
        if k == 0 {
            assert(pairs(s)[0] == s.take(2));
        } else {
            lemma_pairs_index(s.skip(2), k - 1);
            assert(pairs(s)[k] == pairs(s.skip(2))[k - 1]);
            assert(s.skip(2).subrange(2 * (k - 1), if 2 * (k - 1) + 2 <= s.skip(2).len() {
                2 * (k - 1) + 2
            } else {
                s.skip(2).len() as int
            }) =~= s.subrange(2 * k, if 2 * k + 2 <= s.len() { 2 * k + 2 } else { s.len() as int }));
        }
    } else {
        assert(s.subrange(0, s.len() as int) =~= s);
    }
}

proof fn lemma_hex_number_nonneg(d: Seq<u8>)
    requires
        forall|i: int| 0 <= i < d.len() ==> (#[trigger] hex_digit(d[i])) is Some,
    ensures
        0 <= hex_number(d),
    decreases d.len(),
{
    if d.len() > 0 {
        assert(hex_digit(d[d.len() - 1]) is Some);
        lemma_hex_number_nonneg(d.drop_last());
    }
}

proof fn lemma_hex_prefix_le(d: Seq<u8>, j: int)
    requires
        forall|i: int| 0 <= i < d.len() ==> (#[trigger] hex_digit(d[i])) is Some,
        0 <= j <= d.len(),
    ensures
        hex_number(d.take(j)) <= hex_number(d),
    decreases d.len(),
{
    if j < d.len() {
        assert(hex_digit(d[d.len() - 1]) is Some);
        lemma_hex_number_nonneg(d.drop_last());
        lemma_hex_prefix_le(d.drop_last(), j);
        assert(d.drop_last().take(j) =~= d.take(j));
    } else {
        assert(d.take(j) =~= d);
    }
}

fn hex_value(b: u8) -> (r: Option<u64>)
    ensures
        match hex_digit(b) {
            Some(v) => r == Some(v as u64),
            None => r is None,
        },
{
    if 48 <= b && b <= 57 {
        Some((b - 48) as u64)
    } else if 65 <= b && b <= 70 {
        Some((b - 55) as u64)
    } else if 97 <= b && b <= 102 {
        Some((b - 87) as u64)
    } else {
        None
    }
}

/// `from_str_radix(.., 16)` on the bytes `bytes[start..end]`, for a type
/// whose largest value is `max`.
fn parse_hex(bytes: &Vec<u8>, start: usize, end: usize, max: u64) -> (r: Option<u64>)
    requires
        start <= end <= bytes@.len(),
        max >= 15,
    ensures
        match radix16(bytes@.subrange(start as int, end as int), max as int) {
            Some(v) => 0 <= v <= max && r == Some(v as u64),
            None => r is None,
        },
{
    let ghost s = bytes@.subrange(start as int, end as int);
    let mut i = start;
    if i < end && bytes[i] == 43 {
        i = i + 1;
    }
    let first = i;
    let ghost d = bytes@.subrange(first as int, end as int);
    assert(d =~= unsigned_digits(s));
    if i == end {
        assert(d.len() == 0);
        assert(radix16(s, max as int) is None);
        return None;
    }
    let mut acc: u64 = 0;
    while i < end
        invariant
            start <= first <= i <= end <= bytes@.len(),
            d == bytes@.subrange(first as int, end as int),
            s == bytes@.subrange(start as int, end as int),
            d == unsigned_digits(s),
            d.len() > 0,
            max >= 15,
            forall|k: int| 0 <= k < i - first ==> (#[trigger] hex_digit(d[k])) is Some,
            acc == hex_number(d.take(i - first)),
            acc <= max,
        decreases end - i,
    {
        assert(d[i - first] == bytes@[i as int]);
        match hex_value(bytes[i]) {
            None => {
                assert(hex_digit(d[i - first]) is None);
                assert(!all_hex(d));
                return None;
            },
            Some(v) => {
                assert(d.take(i - first + 1).drop_last() =~= d.take(i - first));
                assert(d.take(i - first + 1).last() == d[i - first]);
                assert(hex_number(d.take(i - first + 1)) == acc * 16 + v);
                if acc > (max - v) / 16 {
                    proof {
                        assert(acc * 16 + v > max) by (nonlinear_arith)
                            requires
                                acc > (max - v) / 16,
                                v <= 15,
                                max >= 15,
                                acc >= 0,
                        ;
                        if all_hex(d) {
                            lemma_hex_prefix_le(d, i - first + 1);
                            assert(hex_number(d) > max);
                        }
                    }
                    return None;
                }
                assert(acc * 16 + v <= max) by (nonlinear_arith)
                    requires
                        acc <= (max - v) / 16,
                        v <= 15,
                        max >= 15,
                        acc >= 0,
                ;
                acc = acc * 16 + v;
            },
        }
        i = i + 1;
    }
    assert(d.take(d.len() as int) =~= d);
    Some(acc)
}

/// The digit groups of a match are present and cut into at most eight
/// byte pairs between the last two: the inputs on which the parse neither
/// indexes past a missing group nor past the eight bytes of `data4`.
pub open spec fn groups_fit(groups: Seq<Option<Seq<u8>>>) -> bool {
    groups.len() == 6 ==> {
        &&& forall|i: int| 1 <= i < 6 ==> (#[trigger] groups[i]) is Some
        &&& pairs(groups[4]->Some_0).len() + pairs(groups[5]->Some_0).len() <= 8
    }
}

/// The byte pairs that make up `data4`.
pub open spec fn data4_pairs(groups: Seq<Option<Seq<u8>>>) -> Seq<Seq<u8>> {
    pairs(groups[4]->Some_0) + pairs(groups[5]->Some_0)
}

/// Every group of digits reads as a number of its field's width.
pub open spec fn groups_parse(groups: Seq<Option<Seq<u8>>>) -> bool {
    &&& radix16(groups[1]->Some_0, 0xFFFF_FFFF) is Some
    &&& radix16(groups[2]->Some_0, 0xFFFF) is Some
    &&& radix16(groups[3]->Some_0, 0xFFFF) is Some
    &&& forall|k: int|
        0 <= k < data4_pairs(groups).len() ==> (#[trigger] radix16(data4_pairs(groups)[k], 0xFF)) is Some
}

/// `guid` holds the numbers that the groups of digits read as; the bytes of
/// `data4` past the pairs are zero.
pub open spec fn guid_of_groups(guid: Guid, groups: Seq<Option<Seq<u8>>>) -> bool {
    &&& guid.data1 == radix16(groups[1]->Some_0, 0xFFFF_FFFF)->Some_0
    &&& guid.data2 == radix16(groups[2]->Some_0, 0xFFFF)->Some_0
    &&& guid.data3 == radix16(groups[3]->Some_0, 0xFFFF)->Some_0
    &&& forall|k: int|
        0 <= k < 8 ==> #[trigger] guid.data4@[k] == if k < data4_pairs(groups).len() {
            radix16(data4_pairs(groups)[k], 0xFF)->Some_0
        } else {
            0
        }
}

/// What parsing makes of the capture groups `groups` of a match.
pub open spec fn parsed_groups(groups: Seq<Option<Seq<u8>>>, r: Result<Guid, GuidError>) -> bool {
    if groups.len() != 6 {
        r == Err::<Guid, GuidError>(GuidError::WrongGroupCount)
    } else if groups_parse(groups) {
        r matches Ok(guid) && guid_of_groups(guid, groups)
    } else {
        r == Err::<Guid, GuidError>(GuidError::InvalidHex)
    }
}

/// The byte pairs of `group` read as bytes, appended to `out`; `false`
/// (with `out` holding some of them) where a pair is no hexadecimal byte.
fn push_pairs(group: &Vec<u8>, out: &mut Vec<u8>) -> (ok: bool)
    ensures
        ok == (forall|k: int| 0 <= k < pairs(group@).len() ==> (#[trigger] radix16(pairs(group@)[k], 0xFF)) is Some),
        ok ==> final(out)@ == old(out)@ + Seq::new(
            pairs(group@).len(),
            |k: int| radix16(pairs(group@)[k], 0xFF)->Some_0 as u8,
        ),
{
    proof {
        lemma_pairs_len(group@);
    }
    let ghost n = pairs(group@).len();
    let ghost mut k: int = 0;
    let mut p: usize = 0;
    while p < group.len()
        invariant
            n == pairs(group@).len(),
            n == (group@.len() + 1) / 2,
            0 <= k <= n,
            p == if 2 * k <= group@.len() { 2 * k } else { group@.len() as int },
            (k < n) == (p < group@.len()),
            forall|j: int| 0 <= j < k ==> (#[trigger] radix16(pairs(group@)[j], 0xFF)) is Some,
            out@ == old(out)@ + Seq::new(k as nat, |j: int| radix16(pairs(group@)[j], 0xFF)->Some_0 as u8),
        decreases group@.len() - p,
    {
        let end = if group.len() - p >= 2 {
            p + 2
        } else {
            group.len()
        };
        proof {
            lemma_pairs_index(group@, k);
        }
        assert(pairs(group@)[k] == group@.subrange(p as int, end as int));
        match parse_hex(group, p, end, 0xFF) {
            Some(v) => {
                assert(v == radix16(pairs(group@)[k], 0xFF)->Some_0);
                out.push(v as u8);
                proof {
                    assert(out@ =~= old(out)@ + Seq::new(
                        (k + 1) as nat,
                        |j: int| radix16(pairs(group@)[j], 0xFF)->Some_0 as u8,
                    ));
                    k = k + 1;
                }
            },
            None => {
                return false;
            },
        }
        p = end;
    }
    true
}

fn group_at(groups: &Vec<Option<Vec<u8>>>, i: usize) -> (r: &Vec<u8>)
    requires
        i < groups@.len(),
        groups@[i as int] is Some,
    ensures
        Some(r@) == group_views(groups@)[i as int],
{
    match &groups[i] {
        Some(g) => g,
        None => {
            proof {
                assert(false);
            }
            &groups[i].as_ref().unwrap()
        },
    }
}

impl Guid {
    /// The GUID that the capture groups of a match of the GUID pattern
    /// spell: refused when there are not six groups or when a group of
    /// digits is no number of its field's width. The groups must be present
    /// and cut into at most eight byte pairs between the last two.
    pub fn from_captures(groups: &Vec<Option<Vec<u8>>>) -> (r: Result<Guid, GuidError>)
        requires
            groups_fit(group_views(groups@)),
        ensures
            parsed_groups(group_views(groups@), r),
    {
        let ghost gv = group_views(groups@);
        if groups.len() != 6 {
            return Err(GuidError::WrongGroupCount);
        }
        assert(gv[1] is Some && gv[2] is Some && gv[3] is Some && gv[4] is Some && gv[5] is Some);
        let g1 = group_at(groups, 1);
        let g2 = group_at(groups, 2);
        let g3 = group_at(groups, 3);
        let g4 = group_at(groups, 4);
        let g5 = group_at(groups, 5);
        assert(g1@.subrange(0, g1@.len() as int) =~= g1@);
        assert(g2@.subrange(0, g2@.len() as int) =~= g2@);
        assert(g3@.subrange(0, g3@.len() as int) =~= g3@);
        let data1 = match parse_hex(g1, 0, g1.len(), 0xFFFF_FFFF) {
            Some(v) => v as u32,
            None => return Err(GuidError::InvalidHex),
        };
        let data2 = match parse_hex(g2, 0, g2.len(), 0xFFFF) {
            Some(v) => v as u16,
            None => return Err(GuidError::InvalidHex),
        };
        let data3 = match parse_hex(g3, 0, g3.len(), 0xFFFF) {
            Some(v) => v as u16,
            None => return Err(GuidError::InvalidHex),
        };
        let ghost p4 = pairs(g4@);
        let ghost p5 = pairs(g5@);
        assert(data4_pairs(gv) == p4 + p5);
        let mut d: Vec<u8> = Vec::new();
        if !push_pairs(g4, &mut d) {
            proof {
                let k = choose|k: int| 0 <= k < p4.len() && !(#[trigger] radix16(p4[k], 0xFF) is Some);
                assert((p4 + p5)[k] == p4[k]);
            }
            return Err(GuidError::InvalidHex);
        }
        if !push_pairs(g5, &mut d) {
            proof {
                let k = choose|k: int| 0 <= k < p5.len() && !(#[trigger] radix16(p5[k], 0xFF) is Some);
                assert((p4 + p5)[p4.len() + k] == p5[k]);
            }
            return Err(GuidError::InvalidHex);
        }
        let ghost parsed = d@;
        assert forall|k: int| 0 <= k < (p4 + p5).len() implies (#[trigger] radix16((p4 + p5)[k], 0xFF)) is Some
            && parsed[k] == radix16((p4 + p5)[k], 0xFF)->Some_0 as u8 by {
            if k < p4.len() {
                assert((p4 + p5)[k] == p4[k]);
            } else {
                assert((p4 + p5)[k] == p5[k - p4.len()]);
            }
        }
        while d.len() < 8
            invariant
                parsed.len() <= d@.len() <= 8,
                d@.subrange(0, parsed.len() as int) == parsed,
                forall|k: int| parsed.len() <= k < d@.len() ==> d@[k] == 0,
            decreases 8 - d@.len(),
        {
            d.push(0);
        }
        let data4 = [d[0], d[1], d[2], d[3], d[4], d[5], d[6], d[7]];
        let guid = Guid { data1, data2, data3, data4 };
        assert forall|k: int| 0 <= k < 8 implies #[trigger] guid.data4@[k] == if k < data4_pairs(gv).len() {
            radix16(data4_pairs(gv)[k], 0xFF)->Some_0
        } else {
            0
        } by {
            assert(data4@ =~= seq![d@[0], d@[1], d@[2], d@[3], d@[4], d@[5], d@[6], d@[7]]);
            if k < parsed.len() {
                assert(d@[k] == d@.subrange(0, parsed.len() as int)[k]);
                assert(radix16((p4 + p5)[k], 0xFF) is Some);
                lemma_hex_number_nonneg(unsigned_digits((p4 + p5)[k]));
            }
        }
        Ok(guid)
    }

    /// Parses a GUID from its Windows-style text form, such as
    /// `{01234567-89AB-CDEF-FEDC-BA9876543210}`, found anywhere in `s`.
    pub fn from_str(s: &str) -> (r: Result<Guid, GuidError>)
        ensures
            match guid_captures(s@) {
                None => r == Err::<Guid, GuidError>(GuidError::NoMatch),
                Some(groups) => parsed_groups(groups, r),
            },
    {
        match capture_guid(s) {
            None => Err(GuidError::NoMatch),
            Some(groups) => {
                proof {
                    lemma_first_guid(s@, 0);
                    lemma_guid_groups_shaped(s@, first_guid(s@, 0));
                    let gv = group_views(groups@);
                    assert(gv[4] is Some && gv[5] is Some);
                    lemma_pairs_len(gv[4]->Some_0);
                    lemma_pairs_len(gv[5]->Some_0);
                }
                Guid::from_captures(&groups)
            },
        }
    }
}

/// The hexadecimal digit for `d` (0 to 15), in upper or lower case.
pub open spec fn hex_char(d: int, upper: bool) -> char {
    if d < 10 {
        (48 + d) as char
    } else if upper {
        (55 + d) as char
    } else {
        (87 + d) as char
    }
}

/// `v` written in `n` hexadecimal digits, most significant first, with
/// leading zeros.
pub open spec fn hex_text(v: int, n: nat, upper: bool) -> Seq<char>
    decreases n,
{
    if n == 0 {
        Seq::empty()
    } else {
        hex_text(v / 16, (n - 1) as nat, upper).push(hex_char(v % 16, upper))
    }
}

/// The text form `{XXXXXXXX-XXXX-XXXX-XXXX-XXXXXXXXXXXX}` of `g`, with its
/// digits in upper or lower case.
pub open spec fn guid_text(g: Guid, upper: bool) -> Seq<char> {
    seq!['{'] + hex_text(g.data1 as int, 8, upper) + seq!['-'] + hex_text(g.data2 as int, 4, upper) + seq!['-']
        + hex_text(g.data3 as int, 4, upper) + seq!['-'] + data4_text(g, 0, 2, upper) + seq!['-']
        + data4_text(g, 2, 8, upper) + seq!['}']
}

/// The bytes `data4[a..b]` of `g`, two digits each.
pub open spec fn data4_text(g: Guid, a: int, b: int, upper: bool) -> Seq<char>
    decreases b - a,
{
    if b <= a {
        Seq::empty()
    } else {
        data4_text(g, a, b - 1, upper) + hex_text(g.data4@[b - 1] as int, 2, upper)
    }
}

proof fn lemma_hex_one(v: int, n: nat, upper: bool)
    requires
        n >= 1,
        0 <= v,
        hex_text(v / 16, (n - 1) as nat, upper).len() == n - 1,
        forall|k: int| 0 <= k < n - 1 ==> is_xdigit(#[trigger] hex_text(v / 16, (n - 1) as nat, upper)[k]),
        all_hex(ascii_bytes(hex_text(v / 16, (n - 1) as nat, upper))),
        hex_number(ascii_bytes(hex_text(v / 16, (n - 1) as nat, upper))) == v / 16,
    ensures
        hex_text(v, n, upper).len() == n,
        forall|k: int| 0 <= k < n ==> is_xdigit(#[trigger] hex_text(v, n, upper)[k]),
        all_hex(ascii_bytes(hex_text(v, n, upper))),
        hex_number(ascii_bytes(hex_text(v, n, upper))) == v,
{
    let t = hex_text(v / 16, (n - 1) as nat, upper);
    let d = v % 16;
    let c = hex_char(d, upper);
    assert(hex_text(v, n, upper) == t.push(c));
    assert(ascii_bytes(t.push(c)) =~= ascii_bytes(t).push(c as u8));
    assert(hex_digit(c as u8) == Some(d));
    assert(is_xdigit(c));
    assert forall|k: int| 0 <= k < n implies is_xdigit(#[trigger] hex_text(v, n, upper)[k]) by {
        if k < n - 1 {
            assert(hex_text(v, n, upper)[k] == t[k]);
        }
    }
    let b = ascii_bytes(t).push(c as u8);
    assert forall|i: int| 0 <= i < b.len() implies (#[trigger] hex_digit(b[i])) is Some by {
        if i < b.len() - 1 {
            assert(b[i] == ascii_bytes(t)[i]);
        }
    }
    assert(b.drop_last() =~= ascii_bytes(t));
    assert(v == (v / 16) * 16 + v % 16);
}

/// `n` digits of `w`, when `w` fits in them, read back as `w`.
proof fn lemma_hex_chain(w: int, n: nat, upper: bool)
    requires
        1 <= n <= 8,
        0 <= w,
        n == 8 ==> w < 0x1_0000_0000,
        n == 7 ==> w < 0x1000_0000,
        n == 6 ==> w < 0x100_0000,
        n == 5 ==> w < 0x10_0000,
        n == 4 ==> w < 0x1_0000,
        n == 3 ==> w < 0x1000,
        n == 2 ==> w < 0x100,
        n == 1 ==> w < 0x10,
    ensures
        hex_text(w, n, upper).len() == n,
        forall|k: int| 0 <= k < n ==> is_xdigit(#[trigger] hex_text(w, n, upper)[k]),
        all_hex(ascii_bytes(hex_text(w, n, upper))),
        hex_number(ascii_bytes(hex_text(w, n, upper))) == w,
    decreases n,
{
    if n == 1 {
        assert(w / 16 == 0);
        assert(hex_text(0, 0, upper) =~= Seq::<char>::empty());
        assert(ascii_bytes(hex_text(0, 0, upper)) =~= Seq::<u8>::empty());
        lemma_hex_one(w, 1, upper);
    } else {
        lemma_hex_chain(w / 16, (n - 1) as nat, upper);
        lemma_hex_one(w, n, upper);
    }
}

proof fn lemma_data4_text(g: Guid, a: int, b: int, upper: bool)
    requires
        0 <= a <= b <= 8,
    ensures
        data4_text(g, a, b, upper).len() == 2 * (b - a),
        forall|k: int| 0 <= k < 2 * (b - a) ==> is_xdigit(#[trigger] data4_text(g, a, b, upper)[k]),
        forall|j: int|
            0 <= j < b - a ==> #[trigger] ascii_bytes(data4_text(g, a, b, upper)).subrange(2 * j, 2 * j + 2)
                == ascii_bytes(hex_text(g.data4@[a + j] as int, 2, upper)),
    decreases b - a,
{
    if b > a {
        lemma_data4_text(g, a, b - 1, upper);
        let p = data4_text(g, a, b - 1, upper);
        let h = hex_text(g.data4@[b - 1] as int, 2, upper);
        lemma_hex_chain(g.data4@[b - 1] as int, 2, upper);
        let t = data4_text(g, a, b, upper);
        assert(t == p + h);
        assert forall|k: int| 0 <= k < 2 * (b - a) implies is_xdigit(#[trigger] t[k]) by {
            if k < p.len() {
                assert(t[k] == p[k]);
            } else {
                assert(t[k] == h[k - p.len()]);
            }
        }
        assert forall|j: int| 0 <= j < b - a implies #[trigger] ascii_bytes(t).subrange(2 * j, 2 * j + 2)
            == ascii_bytes(hex_text(g.data4@[a + j] as int, 2, upper)) by {
            if j < b - 1 - a {
                assert(ascii_bytes(t).subrange(2 * j, 2 * j + 2) =~= ascii_bytes(p).subrange(2 * j, 2 * j + 2));
            } else {
                assert(ascii_bytes(t).subrange(2 * j, 2 * j + 2) =~= ascii_bytes(h));
            }
        }
    }
}

/// The number that a group of digits written by `hex_text` reads as.
proof fn lemma_radix16_of_text(v: int, n: nat, upper: bool, max: int)
    requires
        1 <= n <= 8,
        0 <= v <= max,
        n == 8 ==> v < 0x1_0000_0000,
        n == 4 ==> v < 0x1_0000,
        n == 2 ==> v < 0x100,
        n != 8 && n != 4 && n != 2 ==> n == 1 && v < 0x10,
    ensures
        radix16(ascii_bytes(hex_text(v, n, upper)), max) == Some(v),
{
    lemma_hex_chain(v, n, upper);
    let d = ascii_bytes(hex_text(v, n, upper));
    assert(hex_digit(d[0]) is Some);
    assert(d[0] != 43);
    assert(unsigned_digits(d) == d);
}

/// A GUID written in its text form, with digits in upper or in lower case,
/// parses back to the same GUID: the text is a match of the GUID pattern at
/// its start, every group reads as a number, and whatever GUID holds those
/// numbers has the fields of `g`.
pub proof fn lemma_guid_round_trip(g: Guid, upper: bool)
    ensures
        guid_captures(guid_text(g, upper)) is Some,
        guid_captures(guid_text(g, upper))->Some_0.len() == 6,
        groups_parse(guid_captures(guid_text(g, upper))->Some_0),
        forall|h: Guid|
            guid_of_groups(h, guid_captures(guid_text(g, upper))->Some_0) ==> h.data1 == g.data1 && h.data2
                == g.data2 && h.data3 == g.data3 && h.data4@ == g.data4@,
{
    let a = hex_text(g.data1 as int, 8, upper);
    let b = hex_text(g.data2 as int, 4, upper);
    let c = hex_text(g.data3 as int, 4, upper);
    let d = data4_text(g, 0, 2, upper);
    let e = data4_text(g, 2, 8, upper);
    lemma_hex_chain(g.data1 as int, 8, upper);
    lemma_hex_chain(g.data2 as int, 4, upper);
    lemma_hex_chain(g.data3 as int, 4, upper);
    lemma_data4_text(g, 0, 2, upper);
    lemma_data4_text(g, 2, 8, upper);
    let t = guid_text(g, upper);
    assert(t.len() == 38);
    assert(t.subrange(1, 9) =~= a);
    assert(t.subrange(10, 14) =~= b);
    assert(t.subrange(15, 19) =~= c);
    assert(t.subrange(20, 24) =~= d);
    assert(t.subrange(25, 37) =~= e);
    assert(t[0] == '{' && t[9] == '-' && t[14] == '-' && t[19] == '-' && t[24] == '-' && t[37] == '}');
    assert forall|k: int| 0 <= k < 38 && !guid_punct(k) implies is_xdigit(#[trigger] t[0 + k]) by {
        if 1 <= k < 9 {
            assert(t[k] == t.subrange(1, 9)[k - 1]);
        } else if 10 <= k < 14 {
            assert(t[k] == t.subrange(10, 14)[k - 10]);
        } else if 15 <= k < 19 {
            assert(t[k] == t.subrange(15, 19)[k - 15]);
        } else if 20 <= k < 24 {
            assert(t[k] == t.subrange(20, 24)[k - 20]);
        } else {
            assert(t[k] == t.subrange(25, 37)[k - 25]);
        }
    }
    assert(guid_shape_at(t, 0));
    assert(first_guid(t, 0) == 0);
    let groups = guid_groups_at(t, 0);
    assert(guid_captures(t) == Some(groups));
    lemma_radix16_of_text(g.data1 as int, 8, upper, 0xFFFF_FFFF);
    lemma_radix16_of_text(g.data2 as int, 4, upper, 0xFFFF);
    lemma_radix16_of_text(g.data3 as int, 4, upper, 0xFFFF);
    let bd = ascii_bytes(d);
    let be = ascii_bytes(e);
    assert(groups[4]->Some_0 == bd);
    assert(groups[5]->Some_0 == be);
    lemma_pairs_len(bd);
    lemma_pairs_len(be);
    let ps = data4_pairs(groups);
    assert(ps == pairs(bd) + pairs(be));
    assert forall|k: int| 0 <= k < 8 implies (#[trigger] ps[k]) == ascii_bytes(hex_text(g.data4@[k] as int, 2, upper)) by {
        if k < 2 {
            lemma_pairs_index(bd, k);
            assert(ps[k] == pairs(bd)[k]);
        } else {
            lemma_pairs_index(be, k - 2);
            assert(ps[k] == pairs(be)[k - 2]);
        }
    }
    assert forall|k: int| 0 <= k < 8 implies #[trigger] radix16(ps[k], 0xFF) == Some(g.data4@[k] as int) by {
        lemma_radix16_of_text(g.data4@[k] as int, 2, upper, 0xFF);
    }
    assert forall|k: int| 0 <= k < ps.len() implies (#[trigger] radix16(ps[k], 0xFF)) is Some by {
        assert(radix16(ps[k], 0xFF) == Some(g.data4@[k] as int));
    }
    assert forall|h: Guid| guid_of_groups(h, groups) implies h.data1 == g.data1 && h.data2 == g.data2 && h.data3
        == g.data3 && h.data4@ == g.data4@ by {
        assert forall|k: int| 0 <= k < 8 implies h.data4@[k] == g.data4@[k] by {
            assert(h.data4@[k] == radix16(ps[k], 0xFF)->Some_0);
            assert(radix16(ps[k], 0xFF) == Some(g.data4@[k] as int));
        }
        assert(h.data4@ =~= g.data4@);
    }
}

} // verus!
