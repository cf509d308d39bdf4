use vstd::prelude::*;
use vstd::arithmetic::power::pow;
use crate::hashing::{mul_hash, fold_hash};
use vstd::string::StringSliceAdditionalSpecFns;
use vstd::string::StrSliceExecFns;
use vstd::string::StringExecFns;

verus! {

/// A file-activity notification sent by an agent hook over the socket.
pub struct ActivityEvent {
    pub file: String,
    pub action: String,
    pub agent: String,
    pub timestamp: u64,
}

/// The hash of a repository path: the multiplicative byte hash with seed 0
/// and multiplier 31.
pub open spec fn path_hash(bytes: Seq<u8>) -> u32 {
    mul_hash(bytes, 0, 31)
}

/// Lower-case hexadecimal digit for `0 <= d < 16`.
pub open spec fn hex_digit(d: int) -> char {
    if d < 10 {
        (48 + d) as char
    } else {
        (87 + d) as char
    }
}

/// `h` written as exactly eight lower-case hexadecimal digits, most
/// significant first (the `{:08x}` rendering).
pub open spec fn hex8(h: u32) -> Seq<char> {
    Seq::new(8, |i: int| hex_digit((h as int / pow(16, (7 - i) as nat)) % 16))
}

/// The socket path for a repository whose canonical path is `repo_path`.
pub open spec fn spec_socket_path(repo_path: Seq<u8>) -> Seq<char> {
    "/tmp/cviz-"@ + hex8(path_hash(repo_path)) + ".sock"@
}

fn hex_digit_str(d: u32) -> (s: &'static str)
    requires
        d < 16,
    ensures
        s@ == seq![hex_digit(d as int)],
{
    let digits = "0123456789abcdef";
    proof {
        reveal_strlit("0123456789abcdef");
    }
    let s = digits.substring_ascii(d as usize, d as usize + 1);
    proof {
        assert(s@ =~= seq![hex_digit(d as int)]);
    }
    s
}

/// Compute a deterministic socket path for a repository.  `repo_path` is the
/// repository's canonical path as text; the result is
/// `/tmp/cviz-XXXXXXXX.sock` where the digits are the 32-bit hash of its
/// bytes.
pub fn socket_path(repo_path: &str) -> (res: String)
    ensures
        res@ == spec_socket_path(repo_path.spec_bytes()),
{
    let h = fold_hash(repo_path.as_bytes(), 0, 31);
    let mut digits: Vec<u32> = vec![0, 0, 0, 0, 0, 0, 0, 0];
    let mut rest: u32 = h;
    let mut k: usize = 0;
    proof {
        vstd::arithmetic::power::lemma_pow0(16);
    }
    while k < 8
        invariant
            k <= 8,
            digits@.len() == 8,
            rest as int == h as int / pow(16, k as nat),
            forall|j: int| 8 - k <= j < 8 ==> #[trigger] digits@[j] as int == (h as int / pow(16, (7 - j) as nat)) % 16,
            forall|j: int| 0 <= j < 8 ==> #[trigger] digits@[j] < 16,
        decreases 8 - k,
    {
        proof {
            vstd::arithmetic::power::lemma_pow_positive(16, k as nat);
            vstd::arithmetic::power::lemma_pow1(16);
            vstd::arithmetic::power::lemma_pow_adds(16, k as nat, 1);
            vstd::arithmetic::div_mod::lemma_div_denominator(h as int, pow(16, k as nat), 16);
        }
        digits.set(7 - k, rest % 16);
        rest = rest / 16;
        k = k + 1;
    }
    let mut res = "/tmp/cviz-".to_owned();
    let mut i: usize = 0;
    while i < 8
        invariant
            i <= 8,
            digits@.len() == 8,
            forall|j: int| 0 <= j < 8 ==> #[trigger] digits@[j] as int == (h as int / pow(16, (7 - j) as nat)) % 16,
            forall|j: int| 0 <= j < 8 ==> #[trigger] digits@[j] < 16,
            res@ == "/tmp/cviz-"@ + hex8(h).subrange(0, i as int),
        decreases 8 - i,
    {
        let d = hex_digit_str(digits[i]);
        res.append(d);
        proof {
            assert(hex8(h).subrange(0, i as int + 1) =~= hex8(h).subrange(0, i as int) + seq![hex_digit(digits@[i as int] as int)]);
        }
        i = i + 1;
    }
    res.append(".sock");
    proof {
        assert(hex8(h).subrange(0, 8) =~= hex8(h));
    }
    res
}

} // verus!
