//! The usage tiers: what each one accepts, and how a tier is unlocked.
use vstd::prelude::*;
use vstd::string::StringSliceAdditionalSpecFns;
use vstd::utf8::encode_utf8;

verus! {

/// A usage tier.
#[derive(PartialEq, Eq, Structural, Clone, Copy, Debug)]
pub enum Tier {
    Free,
    Pro,
    Vegas,
}

/// The tier named `name` (`"PRO"` or `"VEGAS"`); any other name is the free tier.
pub open spec fn tier_named(name: Seq<char>) -> Tier {
    if name == "PRO"@ {
        Tier::Pro
    } else if name == "VEGAS"@ {
        Tier::Vegas
    } else {
        Tier::Free
    }
}

/// Whether two byte strings are equal.
fn bytes_equal(a: &[u8], b: &[u8]) -> (r: bool)
    ensures
        r == (a@ == b@),
{
    if a.len() != b.len() {
        return false;
    }
    let mut i: usize = 0;
    while i < a.len()
        invariant
            a@.len() == b@.len(),
            i <= a@.len(),
            forall|k: int| 0 <= k < i ==> a@[k] == b@[k],
        decreases a@.len() - i,
    {
        if a[i] != b[i] {
            return false;
        }
        i = i + 1;
    }
    assert(a@ =~= b@);
    true
}

/// Whether two strings are equal.
pub fn str_equal(a: &str, b: &str) -> (r: bool)
    ensures
        r == (a@ == b@),
{
    let r = bytes_equal(a.as_bytes(), b.as_bytes());
    proof {
        vstd::utf8::encode_utf8_decode_utf8(a@);
        vstd::utf8::encode_utf8_decode_utf8(b@);
    }
    r
}

impl Tier {
    /// The tier named `name`: `"PRO"`, `"VEGAS"`, or else the free tier.
    pub fn from_name(name: &str) -> (t: Tier)
        ensures
            t == tier_named(name@),
    {
        if str_equal(name, "PRO") {
            Tier::Pro
        } else if str_equal(name, "VEGAS") {
            Tier::Vegas
        } else {
            Tier::Free
        }
    }

    /// The tier's name: `"FREE"`, `"PRO"` or `"VEGAS"`.
    pub fn name(&self) -> (s: &'static str)
        ensures
            s@ == match self {
                Tier::Free => "FREE"@,
                Tier::Pro => "PRO"@,
                Tier::Vegas => "VEGAS"@,
            },
    {
        match self {
            Tier::Free => "FREE",
            Tier::Pro => "PRO",
            Tier::Vegas => "VEGAS",
        }
    }

    /// The largest archive, in bytes, the tier may cloak.
    pub fn zip_size_limit(&self) -> (n: u64)
        ensures
            n == match self {
                Tier::Free => 6_000_000u64,
                Tier::Pro => 20_000_000u64,
                Tier::Vegas => 40_000_000u64,
            },
    {
        match self {
            Tier::Free => 6_000_000,
            Tier::Pro => 20_000_000,
            Tier::Vegas => 40_000_000,
        }
    }

    /// The archive size limit as shown to the user.
    pub fn zip_size_label(&self) -> (s: &'static str)
        ensures
            s@ == match self {
                Tier::Free => "6 MB"@,
                Tier::Pro => "20 MB"@,
                Tier::Vegas => "40 MB"@,
            },
    {
        match self {
            Tier::Free => "6 MB",
            Tier::Pro => "20 MB",
            Tier::Vegas => "40 MB",
        }
    }

    /// Whether an archive of `size` bytes is within the tier's limit.
    pub fn accepts_zip_size(&self, size: u64) -> (ok: bool)
        ensures
            ok == (size <= match self {
                Tier::Free => 6_000_000u64,
                Tier::Pro => 20_000_000u64,
                Tier::Vegas => 40_000_000u64,
            }),
    {
        !(size > self.zip_size_limit())
    }

    /// The smallest image, width and height, the tier accepts as a cover.
    pub fn min_image_dimensions(&self) -> (d: (u32, u32))
        ensures
            d == match self {
                Tier::Free => (3072u32, 4096u32),
                Tier::Pro => (5312u32, 7082u32),
                Tier::Vegas => (6144u32, 8192u32),
            },
    {
        match self {
            Tier::Pro => (5312, 7082),
            Tier::Vegas => (6144, 8192),
            Tier::Free => (3072, 4096),
        }
    }

    /// Whether a cover image of `width` by `height` pixels is large enough.
    pub fn accepts_image(&self, width: u32, height: u32) -> (ok: bool)
        ensures
            ok == ({
                let (min_w, min_h) = match self {
                    Tier::Free => (3072u32, 4096u32),
                    Tier::Pro => (5312u32, 7082u32),
                    Tier::Vegas => (6144u32, 8192u32),
                };
                width >= min_w && height >= min_h
            }),
    {
        let (min_w, min_h) = self.min_image_dimensions();
        !(width < min_w || height < min_h)
    }
}

/// The tier that an unlock file of the given name and size grants.
pub open spec fn unlocked_tier(name: Seq<char>, size: u64) -> Tier {
    if name == "PRO_Unlock.png"@ && size == 957_537 {
        Tier::Pro
    } else if name == "VEGAS_Unlock.png"@ && size == 12_674 {
        Tier::Vegas
    } else {
        Tier::Free
    }
}

/// The tier granted by the unlock file `name` of `size` bytes:
/// `PRO_Unlock.png` of 957,537 bytes unlocks PRO, `VEGAS_Unlock.png` of
/// 12,674 bytes unlocks VEGAS, anything else gives the free tier.
pub fn tier_for_unlock_file(name: &str, size: u64) -> (t: Tier)
    ensures
        t == unlocked_tier(name@, size),
{
    if str_equal(name, "PRO_Unlock.png") && size == 957_537 {
        Tier::Pro
    } else if str_equal(name, "VEGAS_Unlock.png") && size == 12_674 {
        Tier::Vegas
    } else {
        Tier::Free
    }
}

} // verus!
