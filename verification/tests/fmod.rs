use sludge::fmod::{Guid, GuidError};

#[test]
fn guid() {
    assert_eq!(std::mem::size_of::<Guid>(), 16);
    assert_eq!(
        Guid::from_str("{01234567-89AB-CDEF-FEDC-BA9876543210}").unwrap(),
        Guid {
            data1: 0x01234567,
            data2: 0x89AB,
            data3: 0xCDEF,
            data4: [0xFE, 0xDC, 0xBA, 0x98, 0x76, 0x54, 0x32, 0x10],
        }
    );
}

#[test]
fn guid_found_inside_longer_text_in_either_case() {
    assert_eq!(
        Guid::from_str("event:/{a0b1c2d3-e4f5-0617-2839-4a5b6c7d8e9f} rest").unwrap(),
        Guid {
            data1: 0xa0b1c2d3,
            data2: 0xe4f5,
            data3: 0x0617,
            data4: [0x28, 0x39, 0x4a, 0x5b, 0x6c, 0x7d, 0x8e, 0x9f],
        }
    );
}

#[test]
fn guid_malformed_text_is_refused() {
    assert_eq!(Guid::from_str("01234567-89AB-CDEF-FEDC-BA9876543210"), Err(GuidError::NoMatch));
    assert_eq!(Guid::from_str("{0123456-89AB-CDEF-FEDC-BA9876543210}"), Err(GuidError::NoMatch));
    assert_eq!(Guid::from_str("{0123456G-89AB-CDEF-FEDC-BA9876543210}"), Err(GuidError::NoMatch));
    assert_eq!(Guid::from_str(""), Err(GuidError::NoMatch));
}

fn groups(parts: &[&str]) -> Vec<Option<Vec<u8>>> {
    parts.iter().map(|p| Some(p.as_bytes().to_vec())).collect()
}

#[test]
fn guid_from_capture_groups() {
    let ok = groups(&["{..}", "ffffffff", "+1", "0", "FEDC", "BA9876543210"]);
    assert_eq!(
        Guid::from_captures(&ok),
        Ok(Guid {
            data1: 0xffff_ffff,
            data2: 1,
            data3: 0,
            data4: [0xFE, 0xDC, 0xBA, 0x98, 0x76, 0x54, 0x32, 0x10],
        })
    );
    let short = groups(&["{..}", "1", "2", "3", "A", "B"]);
    assert_eq!(
        Guid::from_captures(&short),
        Ok(Guid { data1: 1, data2: 2, data3: 3, data4: [0xA, 0xB, 0, 0, 0, 0, 0, 0] })
    );
    let too_wide = groups(&["{..}", "100000000", "0", "0", "00", "00"]);
    assert_eq!(Guid::from_captures(&too_wide), Err(GuidError::InvalidHex));
    let not_hex = groups(&["{..}", "1", "2", "3", "zz", "00"]);
    assert_eq!(Guid::from_captures(&not_hex), Err(GuidError::InvalidHex));
    let empty = groups(&["{..}", "", "2", "3", "00", "00"]);
    assert_eq!(Guid::from_captures(&empty), Err(GuidError::InvalidHex));
    let five = groups(&["{..}", "1", "2", "3", "00"]);
    assert_eq!(Guid::from_captures(&five), Err(GuidError::WrongGroupCount));
}

#[test]
fn guid_round_trips_through_its_text_form() {
    let g = Guid { data1: 0x0000_00ff, data2: 0x0a0b, data3: 0, data4: [0, 1, 0x10, 0xff, 0x7f, 0x80, 0xab, 0x09] };
    let upper = format!(
        "{{{:08X}-{:04X}-{:04X}-{:02X}{:02X}-{:02X}{:02X}{:02X}{:02X}{:02X}{:02X}}}",
        g.data1, g.data2, g.data3, g.data4[0], g.data4[1], g.data4[2], g.data4[3], g.data4[4], g.data4[5],
        g.data4[6], g.data4[7]
    );
    assert_eq!(Guid::from_str(&upper).unwrap(), g);
    assert_eq!(Guid::from_str(&upper.to_lowercase()).unwrap(), g);
}

#[test]
fn guid_first_window_wins() {
    let text = "{00000000-0000-0000-0000-00000000000G} {11111111-2222-3333-4444-555555555555} {66666666-7777-8888-9999-AAAAAAAAAAAA}";
    let g = Guid::from_str(text).unwrap();
    assert_eq!(g.data1, 0x11111111);
    assert_eq!(Guid::from_str("{0123-4567}"), Err(GuidError::NoMatch));
}

#[test]
fn guid_error_messages() {
    let e = Guid::from_str("01234567-89AB-CDEF-FEDC-BA9876543210").unwrap_err();
    assert_eq!(e, GuidError::NoMatch);
    assert_eq!(e.message(), "couldn't parse GUID: didn't fit expected pattern");
    assert_eq!(GuidError::WrongGroupCount.message(), "wrong number of byte groups");
}
