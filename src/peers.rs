//! The peer-list reply: a count byte, then for each peer its IP version
//! byte (4 or 6) and its address (4 or 16 bytes).
use vstd::prelude::*;
use crate::codec::{lemma_ser_list_take, ser_list};

verus! {

/// How many address bytes follow an IP version byte: none for an unknown one.
pub open spec fn spec_address_len(ip_ver: u8) -> nat {
    if ip_ver == 4 {
        4
    } else if ip_ver == 6 {
        16
    } else {
        0
    }
}

/// One peer's entry: its version byte, then its address.
pub open spec fn peer_entry(addr: Seq<u8>) -> Seq<u8> {
    seq![if addr.len() == 4 { 4u8 } else { 6u8 }] + addr
}

/// The reply: the number of peers modulo 256, then each entry.
pub open spec fn peer_list_bytes(addrs: Seq<Seq<u8>>) -> Seq<u8> {
    seq![(addrs.len() % 256) as u8] + ser_list(addrs, |a: Seq<u8>| peer_entry(a))
}

pub fn address_len(ip_ver: u8) -> (r: usize)
    ensures
        r == spec_address_len(ip_ver),
{
    if ip_ver == 4 {
        4
    } else if ip_ver == 6 {
        16
    } else {
        0
    }
}

/// Encodes the reply for a list of IPv4 (4-byte) and IPv6 (16-byte) addresses.
pub fn encode_peer_list(addrs: &Vec<Vec<u8>>) -> (r: Vec<u8>)
    requires
        forall|i: int| 0 <= i < addrs@.len() ==> (#[trigger] addrs@[i])@.len() == 4 || addrs@[i]@.len() == 16,
    ensures
        r@ == peer_list_bytes(addrs@.map_values(|a: Vec<u8>| a@)),
{
    let ghost v = addrs@.map_values(|a: Vec<u8>| a@);
    let ghost f = |a: Seq<u8>| peer_entry(a);
    let mut out: Vec<u8> = Vec::new();
    out.push(#[verifier::truncate] ((addrs.len() % 256) as u8));
    let ghost head = out@;
    let mut k: usize = 0;
    while k < addrs.len()
        invariant
            k <= addrs@.len(),
            v == addrs@.map_values(|a: Vec<u8>| a@),
            f == (|a: Seq<u8>| peer_entry(a)),
            v.len() == addrs@.len(),
            out@ == head + ser_list(v.take(k as int), f),
        decreases addrs@.len() - k,
    {
        proof {
            lemma_ser_list_take(v, f, k as int);
        }
        let addr = &addrs[k];
        assert(addr@ == v[k as int]);
        let ghost before = out@;
        if addr.len() == 4 {
            out.push(4u8);
        } else {
            out.push(6u8);
        }
        crate::bytes::push_bytes(&mut out, addr.as_slice());
        assert(out@ =~= before + peer_entry(addr@));
        k = k + 1;
        assert(out@ =~= head + ser_list(v.take(k as int), f));
    }
    assert(v.take(k as int) =~= v);
    assert(out@ =~= peer_list_bytes(v));
    out
}

} // verus!
