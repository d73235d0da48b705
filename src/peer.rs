use vstd::prelude::*;

verus! {

/// Identifier of a mesh node: the bytes of its peer identity.
pub struct PeerId {
    id: Vec<u8>,
}

impl View for PeerId {
    type V = Seq<u8>;

    closed spec fn view(&self) -> Seq<u8> {
        self.id@
    }
}

impl PeerId {
    /// A peer identifier made of the given identity bytes.
    pub fn from_bytes(bytes: Vec<u8>) -> (r: PeerId)
        ensures
            r@ == bytes@,
    {
        PeerId { id: bytes }
    }

    /// The identity bytes of this peer.
    pub fn to_bytes(&self) -> (r: Vec<u8>)
        ensures
            r@ == self@,
    {
        self.id.clone()
    }

    /// A second value with the same identity.
    pub fn duplicate(&self) -> (r: PeerId)
        ensures
            r@ == self@,
    {
        PeerId { id: self.id.clone() }
    }

    /// Whether two identifiers are the same.
    pub fn same(&self, other: &PeerId) -> (r: bool)
        ensures
            r == (self@ == other@),
    {
        if self.id.len() != other.id.len() {
            return false;
        }
        let n = self.id.len();
        let mut i: usize = 0;
        while i < n
            invariant
                n == self@.len(),
                n == other@.len(),
                i <= n,
                forall|j: int| 0 <= j < i ==> self@[j] == other@[j],
            decreases n - i,
        {
            if self.id[i] != other.id[i] {
                return false;
            }
            i = i + 1;
        }
        assert(self@ =~= other@);
        true
    }
}

/// The identities of a sequence of peers, in order.
pub open spec fn ids_of(s: Seq<PeerId>) -> Seq<Seq<u8>> {
    s.map_values(|p: PeerId| p@)
}

pub proof fn lemma_ids_push(s: Seq<PeerId>, p: PeerId)
    ensures
        ids_of(s.push(p)) == ids_of(s).push(p@),
{
    assert(ids_of(s.push(p)) =~= ids_of(s).push(p@));
}

/// Whether the sequence holds no identity twice.
pub open spec fn distinct_ids(s: Seq<PeerId>) -> bool {
    forall|i: int, j: int| 0 <= i < j < s.len() ==> s[i]@ != s[j]@
}

/// Whether some peer of the list has the identity of `p`.
pub fn contains_peer(list: &Vec<PeerId>, p: &PeerId) -> (r: bool)
    ensures
        r == ids_of(list@).contains(p@),
{
    let mut i: usize = 0;
    while i < list.len()
        invariant
            i <= list@.len(),
            forall|j: int| 0 <= j < i ==> list@[j]@ != p@,
        decreases list@.len() - i,
    {
        if list[i].same(p) {
            assert(ids_of(list@)[i as int] == p@);
            return true;
        }
        i = i + 1;
    }
    proof {
        if ids_of(list@).contains(p@) {
            let k = choose|k: int| 0 <= k < ids_of(list@).len() && ids_of(list@)[k] == p@;
            assert(list@[k]@ == p@);
        }
    }
    false
}

/// A network address at which a peer can be reached.
#[derive(Clone, Copy, Debug, PartialEq, Eq)]
pub enum Address {
    V4([u8; 4]),
    V6([u8; 16]),
}

/// One component of a peer's advertised multi-part address.
#[derive(Clone, Copy, Debug, PartialEq, Eq)]
pub enum AddrPart {
    Ip4([u8; 4]),
    Ip6([u8; 16]),
    /// Any component that carries no IP address (a port, a transport, an identity).
    Other,
}

/// The address that a component carries, if it is an IP address.
pub open spec fn part_address(p: AddrPart) -> Option<Address> {
    match p {
        AddrPart::Ip4(a) => Some(Address::V4(a)),
        AddrPart::Ip6(a) => Some(Address::V6(a)),
        AddrPart::Other => None,
    }
}

/// The first IP address among the components, read from the front.
pub open spec fn first_ip_of(parts: Seq<AddrPart>) -> Option<Address>
    decreases parts.len(),
{
    if parts.len() == 0 {
        None
    } else if part_address(parts[0]) is Some {
        part_address(parts[0])
    } else {
        first_ip_of(parts.drop_first())
    }
}

/// Resolves the address of a discovered peer from the components of its
/// advertised address: the first IPv4 or IPv6 component, or none.
pub fn first_ip(parts: &Vec<AddrPart>) -> (r: Option<Address>)
    ensures
        r == first_ip_of(parts@),
{
    let mut i: usize = 0;
    assert(parts@.skip(0) =~= parts@);
    while i < parts.len()
        invariant
            i <= parts@.len(),
            first_ip_of(parts@) == first_ip_of(parts@.skip(i as int)),
        decreases parts@.len() - i,
    {
        let found = match parts[i] {
            AddrPart::Ip4(a) => Some(Address::V4(a)),
            AddrPart::Ip6(a) => Some(Address::V6(a)),
            AddrPart::Other => None,
        };
        assert(parts@.skip(i as int)[0] == parts@[i as int]);
        if found.is_some() {
            return found;
        }
        assert(parts@.skip(i as int).drop_first() =~= parts@.skip(i + 1));
        i = i + 1;
    }
    assert(parts@.skip(i as int).len() == 0);
    None
}

} // verus!
