//! The character sets that a font atlas can be built from.
use vstd::prelude::*;

verus! {

/// A character set for a font atlas. `AsciiSubset` holds the printable
/// ASCII characters: letters, digits, symbols and the space.
#[derive(Debug, Clone, Copy, PartialEq, Eq, Structural, PartialOrd, Ord, Hash)]
pub enum CharacterListType {
    AsciiSubset,
    Ascii,
    ExtendedAscii,
    Cyrillic,
    Thai,
    Vietnamese,
    Chinese,
    Japanese,
}

/// Why a character set could not be listed.
#[derive(Debug, Clone, Copy, PartialEq, Eq, Structural)]
pub enum CharListError {
    /// Atlases of this set are not supported yet.
    NotYetSupported(CharacterListType),
    /// A code point of the set is not a character.
    InvalidChar(u32),
}

/// The code point ranges of a set, each from its first code point up to,
/// not including, its last; `None` for the sets not supported yet.
pub open spec fn char_ranges(t: CharacterListType) -> Option<Seq<(u32, u32)>> {
    match t {
        CharacterListType::AsciiSubset => Some(seq![(0x20u32, 0x7Fu32)]),
        CharacterListType::Ascii => Some(seq![(0x00u32, 0x7Fu32)]),
        CharacterListType::ExtendedAscii => Some(seq![(0x00u32, 0xFFu32)]),
        CharacterListType::Cyrillic => Some(
            seq![(0x0020u32, 0x00FFu32), (0x0400, 0x052F), (0x2DE0, 0x2DFF), (0xA640, 0xA69F)],
        ),
        CharacterListType::Thai => Some(seq![(0x0020u32, 0x00FFu32), (0x2010, 0x205E), (0x0E00, 0x0E7F)]),
        CharacterListType::Vietnamese => Some(
            seq![
                (0x0020u32, 0x00FFu32),
                (0x0102, 0x0103),
                (0x0110, 0x0111),
                (0x0128, 0x0129),
                (0x0168, 0x0169),
                (0x01A0, 0x01A1),
                (0x01AF, 0x01B0),
                (0x1EA0, 0x1EF9),
            ],
        ),
        CharacterListType::Chinese => None,
        CharacterListType::Japanese => None,
    }
}

/// The characters of the code points from `lo` up to, not including, `hi`.
pub open spec fn range_chars(lo: u32, hi: u32) -> Seq<char> {
    Seq::new((hi - lo) as nat, |i: int| (lo + i) as char)
}

/// The characters of the ranges `rs`, range after range.
pub open spec fn ranges_chars(rs: Seq<(u32, u32)>) -> Seq<char>
    decreases rs.len(),
{
    if rs.len() == 0 {
        Seq::empty()
    } else {
        ranges_chars(rs.drop_last()) + range_chars(rs.last().0, rs.last().1)
    }
}

/// The code point is a character: not a surrogate, and at most 0x10FFFF.
pub open spec fn is_scalar(c: u32) -> bool {
    c < 0xD800 || (0xE000 <= c && c <= 0x10FFFF)
}

/// `char::from_u32`: the character with code point `c`, `None` where `c` is
/// a surrogate or above 0x10FFFF.
#[verifier::external_body]
fn char_from_u32(c: u32) -> (r: Option<char>)
    ensures
        r is Some <==> is_scalar(c),
        r matches Some(ch) ==> ch == c as char,
{
    char::from_u32(c)
}

fn ranges_of(t: CharacterListType) -> (r: Option<Vec<(u32, u32)>>)
    ensures
        match char_ranges(t) {
            Some(rs) => r matches Some(v) && v@ == rs,
            None => r is None,
        },
{
    match t {
        CharacterListType::AsciiSubset => Some(vec![(0x20u32, 0x7Fu32)]),
        CharacterListType::Ascii => Some(vec![(0x00u32, 0x7Fu32)]),
        CharacterListType::ExtendedAscii => Some(vec![(0x00u32, 0xFFu32)]),
        CharacterListType::Cyrillic => Some(
            vec![(0x0020u32, 0x00FFu32), (0x0400, 0x052F), (0x2DE0, 0x2DFF), (0xA640, 0xA69F)],
        ),
        CharacterListType::Thai => Some(vec![(0x0020u32, 0x00FFu32), (0x2010, 0x205E), (0x0E00, 0x0E7F)]),
        CharacterListType::Vietnamese => Some(
            vec![
                (0x0020u32, 0x00FFu32),
                (0x0102, 0x0103),
                (0x0110, 0x0111),
                (0x0128, 0x0129),
                (0x0168, 0x0169),
                (0x01A0, 0x01A1),
                (0x01AF, 0x01B0),
                (0x1EA0, 0x1EF9),
            ],
        ),
        CharacterListType::Chinese => None,
        CharacterListType::Japanese => None,
    }
}

/// The characters of a set, in the order of its ranges; refused for the
/// sets not supported yet (Chinese and Japanese).
pub fn get_char_list(char_list_type: CharacterListType) -> (r: Result<Vec<char>, CharListError>)
    ensures
        match char_ranges(char_list_type) {
            Some(rs) => r matches Ok(v) && v@ == ranges_chars(rs),
            None => r == Err::<Vec<char>, CharListError>(CharListError::NotYetSupported(char_list_type)),
        },
{
    let ranges = match ranges_of(char_list_type) {
        Some(ranges) => ranges,
        None => return Err(CharListError::NotYetSupported(char_list_type)),
    };
    let ghost rs = ranges@;
    assert(forall|k: int| 0 <= k < rs.len() ==> #[trigger] rs[k].0 <= rs[k].1 && rs[k].1 < 0xD800);
    let mut chars: Vec<char> = Vec::new();
    let mut k: usize = 0;
    while k < ranges.len()
        invariant
            ranges@ == rs,
            k <= rs.len(),
            forall|j: int| 0 <= j < rs.len() ==> #[trigger] rs[j].0 <= rs[j].1 && rs[j].1 < 0xD800,
            chars@ == ranges_chars(rs.take(k as int)),
        decreases rs.len() - k,
    {
        let (lo, hi) = ranges[k];
        let mut c: u32 = lo;
        while c < hi
            invariant
                lo <= c <= hi,
                hi < 0xD800,
                chars@ == ranges_chars(rs.take(k as int)) + range_chars(lo, c),
            decreases hi - c,
        {
            match char_from_u32(c) {
                Some(ch) => {
                    chars.push(ch);
                    assert(chars@ =~= ranges_chars(rs.take(k as int)) + range_chars(lo, (c + 1) as u32));
                },
                None => return Err(CharListError::InvalidChar(c)),
            }
            c = c + 1;
        }
        assert(rs.take(k + 1).drop_last() =~= rs.take(k as int));
        k = k + 1;
    }
    assert(rs.take(rs.len() as int) =~= rs);
    Ok(chars)
}

/// The characters of three ranges, one after the other.
proof fn lemma_three_ranges(a: (u32, u32), b: (u32, u32), c: (u32, u32))
    ensures
        ranges_chars(seq![a, b, c]) == range_chars(a.0, a.1) + range_chars(b.0, b.1) + range_chars(c.0, c.1),
{
    let rs = seq![a, b, c];
    let ra = range_chars(a.0, a.1);
    let rb = range_chars(b.0, b.1);
    let rc = range_chars(c.0, c.1);
    assert(seq![a].drop_last() =~= Seq::<(u32, u32)>::empty());
    assert(seq![a].last() == a);
    assert(ranges_chars(Seq::<(u32, u32)>::empty()) == Seq::<char>::empty());
    assert(ranges_chars(seq![a]) == Seq::<char>::empty() + ra);
    assert(Seq::<char>::empty() + ra =~= ra);
    assert(seq![a, b].drop_last() =~= seq![a]);
    assert(seq![a, b].last() == b);
    assert(ranges_chars(seq![a, b]) == ranges_chars(seq![a]) + rb);
    assert(rs.drop_last() =~= seq![a, b]);
    assert(rs.last() == c);
    assert(ranges_chars(rs) == ranges_chars(seq![a, b]) + rc);
}

/// The Thai set lists the 0xDF characters from U+0020 (Latin-1), then the
/// 0x4E characters from U+2010 (punctuation), then the 0x7F characters of the
/// Thai block from U+0E00, each range in order; so every Thai character
/// U+0E00..U+0E7E is listed, and every listed character lies in one of the
/// three ranges.
pub proof fn lemma_thai_chars()
    ensures
        char_ranges(CharacterListType::Thai) is Some,
        ({
            let cs = ranges_chars(char_ranges(CharacterListType::Thai)->Some_0);
            &&& cs.len() == 0xDF + 0x4E + 0x7F
            &&& forall|i: int| 0 <= i < 0xDF ==> #[trigger] cs[i] == (0x20 + i) as char
            &&& forall|i: int| 0 <= i < 0x4E ==> #[trigger] cs[0xDF + i] == (0x2010 + i) as char
            &&& forall|i: int| 0 <= i < 0x7F ==> #[trigger] cs[0xDF + 0x4E + i] == (0x0E00 + i) as char
            &&& forall|k: int| 0 <= k < 0x7F ==> cs.contains(#[trigger] ((0x0E00 + k) as char))
            &&& forall|i: int|
                0 <= i < cs.len() ==> {
                    let v = #[trigger] cs[i] as u32;
                    (0x20 <= v < 0xFF) || (0x2010 <= v < 0x205E) || (0x0E00 <= v < 0x0E7F)
                }
        }),
{
    lemma_three_ranges((0x0020u32, 0x00FFu32), (0x2010, 0x205E), (0x0E00, 0x0E7F));
    let cs = ranges_chars(char_ranges(CharacterListType::Thai)->Some_0);
    assert forall|k: int| 0 <= k < 0x7F implies cs.contains(#[trigger] ((0x0E00 + k) as char)) by {
        assert(cs[0xDF + 0x4E + k] == (0x0E00 + k) as char);
    }
}

/// A code point below the surrogates is listed by a run of ranges exactly
/// when one of the ranges holds it; the run lists as many characters as its
/// ranges hold together.
proof fn lemma_ranges_contains(rs: Seq<(u32, u32)>, v: u32)
    requires
        v < 0xD800,
        forall|k: int| 0 <= k < rs.len() ==> #[trigger] rs[k].0 <= rs[k].1 && rs[k].1 <= 0xD800,
    ensures
        ranges_chars(rs).contains(v as char) <==> exists|k: int|
            0 <= k < rs.len() && #[trigger] rs[k].0 <= v && v < rs[k].1,
    decreases rs.len(),
{
    if rs.len() > 0 {
        let init = rs.drop_last();
        let (lo, hi) = rs.last();
        assert forall|k: int| 0 <= k < init.len() implies #[trigger] init[k].0 <= init[k].1 && init[k].1 <= 0xD800 by {
            assert(init[k] == rs[k]);
        }
        lemma_ranges_contains(init, v);
        let a = ranges_chars(init);
        let b = range_chars(lo, hi);
        assert(ranges_chars(rs) == a + b);
        if ranges_chars(rs).contains(v as char) {
            let i = choose|i: int| 0 <= i < (a + b).len() && (a + b)[i] == v as char;
            if i < a.len() {
                assert(a[i] == v as char);
                let k = choose|k: int| 0 <= k < init.len() && #[trigger] init[k].0 <= v && v < init[k].1;
                assert(rs[k] == init[k]);
            } else {
                let j = i - a.len();
                assert(b[j] == (lo + j) as char);
                assert(((lo + j) as char) as u32 == lo + j);
                assert((v as char) as u32 == v);
                assert(rs[rs.len() - 1].0 <= v && v < rs[rs.len() - 1].1);
            }
        }
        if exists|k: int| 0 <= k < rs.len() && #[trigger] rs[k].0 <= v && v < rs[k].1 {
            let k = choose|k: int| 0 <= k < rs.len() && #[trigger] rs[k].0 <= v && v < rs[k].1;
            if k < rs.len() - 1 {
                assert(init[k] == rs[k]);
                let i = choose|i: int| 0 <= i < a.len() && a[i] == v as char;
                assert((a + b)[i] == v as char);
            } else {
                let j = v - lo;
                assert(b[j] == v as char);
                assert((a + b)[a.len() + j] == v as char);
            }
        }
    }
}

/// Which code points below the surrogates each supported set lists.
pub proof fn lemma_char_set_members(v: u32)
    requires
        v < 0xD800,
    ensures
        ranges_chars(char_ranges(CharacterListType::AsciiSubset)->Some_0).contains(v as char) <==> 0x20 <= v < 0x7F,
        ranges_chars(char_ranges(CharacterListType::Ascii)->Some_0).contains(v as char) <==> v < 0x7F,
        ranges_chars(char_ranges(CharacterListType::ExtendedAscii)->Some_0).contains(v as char) <==> v < 0xFF,
        ranges_chars(char_ranges(CharacterListType::Cyrillic)->Some_0).contains(v as char) <==> (0x20 <= v < 0xFF)
            || (0x0400 <= v < 0x052F) || (0x2DE0 <= v < 0x2DFF) || (0xA640 <= v < 0xA69F),
        ranges_chars(char_ranges(CharacterListType::Thai)->Some_0).contains(v as char) <==> (0x20 <= v < 0xFF)
            || (0x2010 <= v < 0x205E) || (0x0E00 <= v < 0x0E7F),
        ranges_chars(char_ranges(CharacterListType::Vietnamese)->Some_0).contains(v as char) <==> (0x20 <= v
            < 0xFF) || v == 0x0102 || v == 0x0110 || v == 0x0128 || v == 0x0168 || v == 0x01A0 || v == 0x01AF || (
        0x1EA0 <= v < 0x1EF9),
{
    let sets = seq![
        CharacterListType::AsciiSubset,
        CharacterListType::Ascii,
        CharacterListType::ExtendedAscii,
        CharacterListType::Cyrillic,
        CharacterListType::Thai,
        CharacterListType::Vietnamese,
    ];
    assert forall|n: int| 0 <= n < 6 implies ({
        let rs = char_ranges(#[trigger] sets[n])->Some_0;
        forall|k: int| 0 <= k < rs.len() ==> #[trigger] rs[k].0 <= rs[k].1 && rs[k].1 <= 0xD800
    }) by {}
    lemma_ranges_contains(char_ranges(CharacterListType::AsciiSubset)->Some_0, v);
    lemma_ranges_contains(char_ranges(CharacterListType::Ascii)->Some_0, v);
    lemma_ranges_contains(char_ranges(CharacterListType::ExtendedAscii)->Some_0, v);
    lemma_ranges_contains(char_ranges(CharacterListType::Cyrillic)->Some_0, v);
    lemma_ranges_contains(char_ranges(CharacterListType::Thai)->Some_0, v);
    lemma_ranges_contains(char_ranges(CharacterListType::Vietnamese)->Some_0, v);
    let cy = char_ranges(CharacterListType::Cyrillic)->Some_0;
    if (0x20 <= v < 0xFF) || (0x0400 <= v < 0x052F) || (0x2DE0 <= v < 0x2DFF) || (0xA640 <= v < 0xA69F) {
        if 0x20 <= v < 0xFF { assert(cy[0].0 <= v && v < cy[0].1); }
        else if 0x0400 <= v < 0x052F { assert(cy[1].0 <= v && v < cy[1].1); }
        else if 0x2DE0 <= v < 0x2DFF { assert(cy[2].0 <= v && v < cy[2].1); }
        else { assert(cy[3].0 <= v && v < cy[3].1); }
    }
    let th = char_ranges(CharacterListType::Thai)->Some_0;
    if (0x20 <= v < 0xFF) || (0x2010 <= v < 0x205E) || (0x0E00 <= v < 0x0E7F) {
        if 0x20 <= v < 0xFF { assert(th[0].0 <= v && v < th[0].1); }
        else if 0x2010 <= v < 0x205E { assert(th[1].0 <= v && v < th[1].1); }
        else { assert(th[2].0 <= v && v < th[2].1); }
    }
    let vi = char_ranges(CharacterListType::Vietnamese)->Some_0;
    if (0x20 <= v < 0xFF) || v == 0x0102 || v == 0x0110 || v == 0x0128 || v == 0x0168 || v == 0x01A0 || v == 0x01AF || (
    0x1EA0 <= v < 0x1EF9) {
        if 0x20 <= v < 0xFF { assert(vi[0].0 <= v && v < vi[0].1); }
        else if v == 0x0102 { assert(vi[1].0 <= v && v < vi[1].1); }
        else if v == 0x0110 { assert(vi[2].0 <= v && v < vi[2].1); }
        else if v == 0x0128 { assert(vi[3].0 <= v && v < vi[3].1); }
        else if v == 0x0168 { assert(vi[4].0 <= v && v < vi[4].1); }
        else if v == 0x01A0 { assert(vi[5].0 <= v && v < vi[5].1); }
        else if v == 0x01AF { assert(vi[6].0 <= v && v < vi[6].1); }
        else { assert(vi[7].0 <= v && v < vi[7].1); }
    }
    let a0 = char_ranges(CharacterListType::AsciiSubset)->Some_0;
    if 0x20 <= v < 0x7F { assert(a0[0].0 <= v && v < a0[0].1); }
    let a1 = char_ranges(CharacterListType::Ascii)->Some_0;
    if v < 0x7F { assert(a1[0].0 <= v && v < a1[0].1); }
    let a2 = char_ranges(CharacterListType::ExtendedAscii)->Some_0;
    if v < 0xFF { assert(a2[0].0 <= v && v < a2[0].1); }
}

} // verus!
