//! The volumes that can be scanned: which drive letters the system reports,
//! which filesystems are NTFS, and how a volume is shown.

use vstd::prelude::*;
use crate::util::{humanize_bytes, humanized};

verus! {

/// A volume that can be scanned.
#[derive(Debug, Clone)]
pub struct SourceDrive {
    pub letter: char,
    pub fs_name: String,
    pub total_bytes: u64,
    pub free_bytes: u64,
}

/// A volume as it is shown: its sizes in the largest fitting unit.
#[derive(Debug)]
pub struct DriveView {
    pub letter: char,
    pub fs_name: String,
    pub total: String,
    pub free: String,
}

/// What `str::to_uppercase` returns for the text `s`.
pub uninterp spec fn uppercase_of(s: Seq<char>) -> Seq<char>;

/// Trusted: calls `str::to_uppercase`. The contract only names the result.
#[verifier::external_body]
fn to_uppercase(s: &str) -> (r: String)
    ensures
        r@ == uppercase_of(s@),
{
    s.to_uppercase()
}

/// The name `NTFS`.
pub open spec fn ntfs() -> Seq<char> {
    seq!['N', 'T', 'F', 'S']
}

/// Whether `name` is exactly `NTFS`.
pub fn is_ntfs_name(name: &str) -> (r: bool)
    ensures
        r == (name@ == ntfs()),
{
    let p = crate::text::chars_of(name);
    let r = p.len() == 4 && p[0] == 'N' && p[1] == 'T' && p[2] == 'F' && p[3] == 'S';
    proof {
        if r {
            assert(p@ =~= ntfs());
        }
    }
    r
}

/// Whether the filesystem name `fs_name` is NTFS, whatever its case.
pub fn is_ntfs(fs_name: &str) -> (r: bool)
    ensures
        r == (uppercase_of(fs_name@) == ntfs()),
{
    let upper = to_uppercase(fs_name);
    is_ntfs_name(upper.as_str())
}

/// The letter of the drive of number `i`, counted from `A` as zero.
pub open spec fn letter_of(i: nat) -> char
    recommends
        i < 26,
{
    (65 + i) as char
}

/// Whether the drive of number `i` is set in the system's drive mask.
pub open spec fn is_present(mask: u32, i: nat) -> bool {
    mask & (1u32 << (i as u32)) != 0
}

/// The letters of the drives below number `n` that are set in `mask`, in
/// order.
pub open spec fn letters_below(mask: u32, n: nat) -> Seq<char>
    decreases n,
{
    if n == 0 {
        Seq::<char>::empty()
    } else if is_present(mask, (n - 1) as nat) {
        letters_below(mask, (n - 1) as nat).push(letter_of((n - 1) as nat))
    } else {
        letters_below(mask, (n - 1) as nat)
    }
}

/// The letters of the drives that the system's drive mask reports, from `A`
/// to `Z`.
pub fn drive_letters(mask: u32) -> (letters: Vec<char>)
    ensures
        letters@ == letters_below(mask, 26),
{
    let mut letters: Vec<char> = Vec::new();
    let mut i: u32 = 0;
    while i < 26
        invariant
            i <= 26,
            letters@ == letters_below(mask, i as nat),
        decreases 26 - i,
    {
        if mask & (1u32 << i) != 0 {
            let code: u8 = 65u8 + (i as u8);
            letters.push(code as char);
        }
        i += 1;
    }
    letters
}

/// The volume `d` as it is shown.
pub fn drive_view(d: SourceDrive) -> (v: DriveView)
    ensures
        v.letter == d.letter,
        v.fs_name == d.fs_name,
        v.total@ == humanized(d.total_bytes as nat),
        v.free@ == humanized(d.free_bytes as nat),
{
    let total = humanize_bytes(d.total_bytes);
    let free = humanize_bytes(d.free_bytes);
    DriveView { letter: d.letter, fs_name: d.fs_name, total, free }
}

} // verus!
