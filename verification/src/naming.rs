//! Which port names get a master port on an application group, and the id of that
//! master port.
use std::collections::hash_map::DefaultHasher;
use std::hash::Hasher;
use vstd::prelude::*;
use vstd::std_specs::hash::DefaultHasherAdditionalSpecFns;
use vstd::string::StringSliceAdditionalSpecFns;
use crate::ids::PortId;
use crate::text::{contains_seq, str_contains};

verus! {

/// What `str::to_lowercase` makes of a string.
pub uninterp spec fn lowercase(s: Seq<char>) -> Seq<char>;

/// `str::to_lowercase`: the lowercase form of `s`, as Unicode defines it; its
/// result depends on `s` alone.
#[verifier::external_body]
fn to_lowercase(s: &str) -> (r: String)
    ensures
        r@ == lowercase(s@),
{
    s.to_lowercase()
}

/// A lowercase port name that names a common audio channel or direction.
pub open spec fn common_name_spec(n: Seq<char>) -> bool {
    ||| contains_seq(n, "front"@)
    ||| contains_seq(n, "capture"@)
    ||| contains_seq(n, "playback"@)
    ||| contains_seq(n, "monitor"@)
    ||| contains_seq(n, "input"@)
    ||| contains_seq(n, "output"@)
    ||| contains_seq(n, "aux"@)
    ||| contains_seq(n, "fl"@)
    ||| contains_seq(n, "fr"@)
    ||| contains_seq(n, "rl"@)
    ||| contains_seq(n, "rr"@)
    ||| contains_seq(n, "fc"@)
    ||| contains_seq(n, "lfe"@)
    ||| contains_seq(n, "sl"@)
    ||| contains_seq(n, "sr"@)
    ||| n == seq!['l']
    ||| n == seq!['r']
}

/// Whether the lowercase port name `lower` names a common channel.
pub fn is_common_channel_name(lower: &str) -> (r: bool)
    ensures
        r == common_name_spec(lower@),
{
    if str_contains(lower, "front") || str_contains(lower, "capture") || str_contains(lower, "playback")
        || str_contains(lower, "monitor") || str_contains(lower, "input") || str_contains(lower, "output")
        || str_contains(lower, "aux") || str_contains(lower, "fl") || str_contains(lower, "fr")
        || str_contains(lower, "rl") || str_contains(lower, "rr") || str_contains(lower, "fc")
        || str_contains(lower, "lfe") || str_contains(lower, "sl") || str_contains(lower, "sr") {
        return true;
    }
    let cs = crate::text::chars_of(lower);
    if cs.len() == 1 && (cs[0] == 'l' || cs[0] == 'r') {
        assert(lower@ =~= seq![cs[0]]);
        return true;
    }
    proof {
        if lower@ == seq!['l'] || lower@ == seq!['r'] {
            assert(cs@.len() == 1);
        }
    }
    false
}

/// Whether a port named `name` gets a master port: its lowercase form names a common
/// channel.
pub fn is_common_port_name(name: &str) -> (r: bool)
    ensures
        r == common_name_spec(lowercase(name@)),
{
    let lower = to_lowercase(name);
    is_common_channel_name(lower.as_str())
}

/// The id of a master port made from a hash: the top four bits set, the low
/// twenty-eight bits of the hash kept.
pub open spec fn proxy_id_of_hash(hash: u64) -> u32 {
    0xF000_0000u32 | ((#[verifier::truncate] (hash as u32)) & 0x0FFF_FFFFu32)
}

/// What is written to the hasher for an application name and a port name: each
/// string's bytes followed by `0xff`, as `Hash for str` writes them.
pub open spec fn proxy_hash_writes(app_name: Seq<u8>, name: Seq<u8>) -> Seq<Seq<u8>> {
    seq![app_name, seq![0xffu8], name, seq![0xffu8]]
}

/// The id of the master port named `name` of the application `app_name`.
pub open spec fn proxy_id_for(app_name: Seq<char>, name: Seq<char>) -> u32 {
    proxy_id_of_hash(
        DefaultHasher::spec_finish(proxy_hash_writes(vstd::utf8::encode_utf8(app_name), vstd::utf8::encode_utf8(name))),
    )
}

/// The id of the master port named `name` of the application `app_name`: the default
/// hasher fed with both names.
pub fn proxy_port_id(app_name: &str, name: &str) -> (r: PortId)
    ensures
        r.0 == proxy_id_for(app_name@, name@),
{
    let mut hasher = DefaultHasher::new();
    let mut end: Vec<u8> = Vec::new();
    end.push(0xffu8);
    assert(end@ =~= seq![0xffu8]);
    let a = app_name.as_bytes();
    hasher.write(a);
    hasher.write(end.as_slice());
    let b = name.as_bytes();
    hasher.write(b);
    hasher.write(end.as_slice());
    let hash = hasher.finish();
    assert(hasher@ =~= proxy_hash_writes(app_name.spec_bytes(), name.spec_bytes()));
    PortId(0xF000_0000u32 | ((#[verifier::truncate] (hash as u32)) & 0x0FFF_FFFFu32))
}

/// An id that marks a master port.
pub open spec fn is_proxy_id(id: u32) -> bool {
    id >= 0xF000_0000
}

/// Every master port id is marked as one, whatever the hash.
pub proof fn lemma_proxy_ids_are_marked(hash: u64)
    ensures
        is_proxy_id(proxy_id_of_hash(hash)),
{
    let h = hash as u32;
    assert(0xF000_0000u32 | (h & 0x0FFF_FFFFu32) >= 0xF000_0000u32) by (bit_vector);
}

/// Every master port id made from two names is marked as one.
pub proof fn lemma_proxy_id_for_marked(app_name: Seq<char>, name: Seq<char>)
    ensures
        is_proxy_id(proxy_id_for(app_name, name)),
{
    lemma_proxy_ids_are_marked(
        DefaultHasher::spec_finish(proxy_hash_writes(vstd::utf8::encode_utf8(app_name), vstd::utf8::encode_utf8(name))),
    );
}

} // verus!
