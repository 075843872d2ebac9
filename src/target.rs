//! Which catalog entries are probed, and under which address.
use vstd::prelude::*;
use vstd::string::StringSliceAdditionalSpecFns;
use vstd::utf8::encode_utf8;

verus! {

/// Bytes that the text of an address field loses before it is probed: the
/// double quote and the space.
pub open spec fn is_dropped(b: u8) -> bool {
    b == 0x22u8 || b == 0x20u8
}

pub open spec fn keeps(b: u8) -> bool {
    !is_dropped(b)
}

/// The field text without its quotes and spaces.
pub open spec fn spec_strip(raw: Seq<u8>) -> Seq<u8> {
    raw.filter(|b: u8| keeps(b))
}

/// Whether an address starts with `http` (which covers `https`).
pub open spec fn has_http_prefix(url: Seq<u8>) -> bool {
    url.len() >= 4 && url[0] == 0x68u8 && url[1] == 0x74u8 && url[2] == 0x74u8 && url[3] == 0x70u8
}

/// The address probed for an address field whose text is `raw`, if any.
pub open spec fn spec_target(raw: Seq<u8>) -> Option<Seq<u8>> {
    let url = spec_strip(raw);
    if has_http_prefix(url) {
        Some(url)
    } else {
        None
    }
}

/// The address probed for a catalog entry whose address field has the text
/// `field` (`None`: the entry has no such field).
pub open spec fn field_target(field: Option<String>) -> Option<Seq<u8>> {
    match field {
        Some(text) => spec_target(encode_utf8(text@)),
        None => None,
    }
}

/// The address to probe for an address field with the text `raw`: the text
/// without its quotes and spaces, when that starts with `http`.
pub fn probe_target(raw: &str) -> (r: Option<Vec<u8>>)
    ensures
        r matches Some(url) ==> Some(url@) == spec_target(raw.spec_bytes()),
        r is None <==> spec_target(raw.spec_bytes()) is None,
{
    let bytes = raw.as_bytes();
    let mut url: Vec<u8> = Vec::new();
    let mut i: usize = 0;
    while i < bytes.len()
        invariant
            bytes@ == raw.spec_bytes(),
            0 <= i <= bytes@.len(),
            url@ == spec_strip(bytes@.subrange(0, i as int)),
        decreases bytes@.len() - i,
    {
        let b = bytes[i];
        let ghost prev = bytes@.subrange(0, i as int);
        let ghost next = bytes@.subrange(0, i + 1);
        assert(next =~= prev.push(b));
        proof {
            prev.lemma_filter_push(b, |b: u8| keeps(b));
        }
        if b != 0x22u8 && b != 0x20u8 {
            url.push(b);
        }
        i = i + 1;
    }
    assert(bytes@.subrange(0, bytes@.len() as int) =~= bytes@);
    if url.len() >= 4 && url[0] == 0x68u8 && url[1] == 0x74u8 && url[2] == 0x74u8 && url[3]
        == 0x70u8 {
        Some(url)
    } else {
        None
    }
}

} // verus!
