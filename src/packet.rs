//! The Wake-on-LAN magic packet: six bytes of `0xFF` followed by the
//! target's MAC address repeated sixteen times.

use vstd::prelude::*;

verus! {

/// Number of `0xFF` bytes that open a magic packet.
pub const SYNC_LEN: usize = 6;

/// Number of times the MAC address is repeated after the sync bytes.
pub const MAC_REPEATS: usize = 16;

/// Total length of a magic packet in bytes.
pub const PACKET_LEN: usize = 102;

/// `s` concatenated with itself `n` times.
pub open spec fn repeat_seq(s: Seq<u8>, n: nat) -> Seq<u8>
    decreases n,
{
    if n == 0 {
        Seq::empty()
    } else {
        repeat_seq(s, (n - 1) as nat) + s
    }
}

/// The opening sync stream of a magic packet.
pub open spec fn sync_bytes() -> Seq<u8> {
    Seq::new(SYNC_LEN as nat, |i: int| 0xFFu8)
}

/// The magic packet for the MAC address `mac`.
pub open spec fn magic_packet(mac: Seq<u8>) -> Seq<u8> {
    sync_bytes() + repeat_seq(mac, MAC_REPEATS as nat)
}

/// Length and contents of `n` repetitions of `s`: each position holds the
/// byte of `s` at that position modulo the length of `s`.
pub proof fn lemma_repeat_seq(s: Seq<u8>, n: nat)
    requires
        s.len() > 0,
    ensures
        repeat_seq(s, n).len() == n * s.len(),
        forall|i: int| 0 <= i < n * s.len() ==> #[trigger] repeat_seq(s, n)[i] == s[i % (s.len() as int)],
    decreases n,
{
    if n > 0 {
        let m = (n - 1) as nat;
        let len = s.len() as int;
        lemma_repeat_seq(s, m);
        assert(n * len == m * len + len) by (nonlinear_arith)
            requires
                n == m + 1,
        ;
        let prev = repeat_seq(s, m);
        assert(repeat_seq(s, n) == prev + s);
        assert(repeat_seq(s, n).len() == n * len);
        assert forall|i: int| 0 <= i < n * len implies #[trigger] repeat_seq(s, n)[i] == s[i % len] by {
            if i >= m * len {
                let j = i - m * len;
                assert(repeat_seq(s, n)[i] == s[j]);
                vstd::arithmetic::div_mod::lemma_fundamental_div_mod_converse(i, len, m as int, j);
            } else {
                assert(repeat_seq(s, n)[i] == prev[i]);
            }
        }
    } else {
        assert(n * s.len() == 0) by (nonlinear_arith)
            requires
                n == 0,
        ;
    }
}

/// Every magic packet is 102 bytes long: six bytes of `0xFF`, then sixteen
/// exact copies of the MAC address.
pub proof fn lemma_magic_packet_layout(mac: Seq<u8>)
    requires
        mac.len() == 6,
    ensures
        magic_packet(mac).len() == PACKET_LEN,
        forall|i: int| 0 <= i < SYNC_LEN ==> #[trigger] magic_packet(mac)[i] == 0xFFu8,
        forall|r: int| 0 <= r < MAC_REPEATS ==> #[trigger] magic_packet(mac).subrange(6 + 6 * r, 12 + 6 * r) == mac,
{
    lemma_repeat_seq(mac, MAC_REPEATS as nat);
    let p = magic_packet(mac);
    assert forall|r: int| 0 <= r < MAC_REPEATS implies #[trigger] p.subrange(6 + 6 * r, 12 + 6 * r) == mac by {
        assert forall|k: int| 0 <= k < 6 implies p.subrange(6 + 6 * r, 12 + 6 * r)[k] == mac[k] by {
            let i = 6 * r + k;
            assert(p[6 + i] == repeat_seq(mac, MAC_REPEATS as nat)[i]);
            assert(i % 6 == k) by {
                vstd::arithmetic::div_mod::lemma_fundamental_div_mod_converse(i, 6, r, k);
            }
        }
        assert(p.subrange(6 + 6 * r, 12 + 6 * r) =~= mac);
    }
}

/// Builds the magic packet that wakes the interface with address `mac`.
pub fn create_magic_packet(mac: [u8; 6]) -> (packet: Vec<u8>)
    ensures
        packet@ == magic_packet(mac@),
{
    let mut packet: Vec<u8> = Vec::with_capacity(PACKET_LEN);
    let mut i: usize = 0;
    while i < SYNC_LEN
        invariant
            i <= SYNC_LEN,
            packet@ == Seq::new(i as nat, |j: int| 0xFFu8),
        decreases SYNC_LEN - i,
    {
        packet.push(0xFF);
        i = i + 1;
    }
    assert(packet@ =~= sync_bytes());
    let mut r: usize = 0;
    while r < MAC_REPEATS
        invariant
            r <= MAC_REPEATS,
            packet@ == sync_bytes() + repeat_seq(mac@, r as nat),
        decreases MAC_REPEATS - r,
    {
        let ghost before = packet@;
        let mut k: usize = 0;
        while k < 6
            invariant
                k <= 6,
                packet@ == before + mac@.subrange(0, k as int),
            decreases 6 - k,
        {
            packet.push(mac[k]);
            k = k + 1;
            assert(packet@ =~= before + mac@.subrange(0, k as int));
        }
        assert(mac@.subrange(0, 6) =~= mac@);
        assert(packet@ =~= sync_bytes() + repeat_seq(mac@, (r + 1) as nat));
        r = r + 1;
    }
    packet
}

} // verus!
