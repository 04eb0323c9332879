//! Partition keys: 64-bit hashes of lists of variable assignments.
use crate::name::Name;
use rapidhash::v3::rapidhash_v3;
use vstd::prelude::*;

verus! {

/// The 64-bit hash of a sequence of bytes.
pub uninterp spec fn hash_of(bytes: Seq<u8>) -> u64;

/// Calls `rapidhash::v3::rapidhash_v3`, which hashes a sequence of bytes
/// with the default seed. The result depends on the bytes alone; the
/// contract only names it.
#[verifier::external_body]
pub(crate) fn hash_bytes(bytes: &[u8]) -> (r: u64)
    ensures
        r == hash_of(bytes@),
{
    rapidhash_v3(bytes)
}

/// The byte that ends a name in the bytes that are hashed; it occurs in no
/// UTF-8 text.
pub const END_OF_NAME: u8 = 0xff;

/// The four bytes of a bit pattern, lowest first.
pub open spec fn four_bytes(bits: u32) -> Seq<u8> {
    seq![
        (bits % 256) as u8,
        (bits / 256 % 256) as u8,
        (bits / 65536 % 256) as u8,
        (bits / 16777216) as u8,
    ]
}

/// The bytes that stand for a list of assignments: for each in turn the
/// name, the end-of-name byte and the four bytes of the value.
pub open spec fn written(assignments: Seq<(Seq<u8>, u32)>) -> Seq<u8>
    decreases assignments.len(),
{
    if assignments.len() == 0 {
        Seq::<u8>::empty()
    } else {
        written(assignments.drop_last()) + assignments.last().0 + seq![END_OF_NAME] + four_bytes(
            assignments.last().1,
        )
    }
}

/// The key of the partition that holds the rules with exactly these
/// assignments to partition variables.
pub open spec fn key_of(assignments: Seq<(Seq<u8>, u32)>) -> u64 {
    hash_of(written(assignments))
}

/// The assignments of a list, as names and values.
pub open spec fn assignments_of(list: Seq<(Name, u32)>) -> Seq<(Seq<u8>, u32)> {
    Seq::new(list.len(), |i: int| (list[i].0@, list[i].1))
}

/// The key of the partition for a list of assignments.
pub fn partition_key(assignments: &Vec<(Name, u32)>) -> (r: u64)
    ensures
        r == key_of(assignments_of(assignments@)),
{
    let ghost all = assignments_of(assignments@);
    let mut bytes: Vec<u8> = Vec::new();
    let mut i: usize = 0;
    assert(all.take(0) =~= Seq::<(Seq<u8>, u32)>::empty());
    while i < assignments.len()
        invariant
            i <= assignments@.len(),
            all == assignments_of(assignments@),
            bytes@ == written(all.take(i as int)),
        decreases assignments@.len() - i,
    {
        let ghost before = bytes@;
        let name = assignments[i].0.as_bytes();
        let bits = assignments[i].1;
        let mut j: usize = 0;
        while j < name.len()
            invariant
                j <= name@.len(),
                bytes@ == before + name@.take(j as int),
            decreases name@.len() - j,
        {
            bytes.push(name[j]);
            j += 1;
            assert(bytes@ =~= before + name@.take(j as int));
        }
        assert(name@.take(name@.len() as int) =~= name@);
        bytes.push(END_OF_NAME);
        bytes.push((bits % 256) as u8);
        bytes.push((bits / 256 % 256) as u8);
        bytes.push((bits / 65536 % 256) as u8);
        bytes.push((bits / 16777216) as u8);
        proof {
            assert(all.take(i + 1).drop_last() =~= all.take(i as int));
            assert(all.take(i + 1).last() == (name@, bits));
            assert(bytes@ =~= before + name@ + seq![END_OF_NAME] + four_bytes(bits));
        }
        i += 1;
    }
    assert(all.take(all.len() as int) =~= all);
    hash_bytes(bytes.as_slice())
}

} // verus!
