//! The operator-facing side: generating a server password, checking the
//! authorization header of the operator API, and its request shapes.

use vstd::prelude::*;
use vstd::string::*;

verus! {

/// The characters a generated password is drawn from.
pub open spec fn password_charset() -> Seq<char> {
    "abcdefghijklmnopqrstuvwxyzABCDEFGHIJKLMNPQRSTUVWXYZ123456789!(),._-?@#[]`~=+*^%"@
}

/// Relies on `rand::random_range` over `0..bound`: a uniformly drawn index
/// strictly below `bound`.  The empty range would panic and is excluded.
#[verifier::external_body]
fn random_index(bound: usize) -> (r: usize)
    requires
        bound > 0,
    ensures
        r < bound,
{
    rand::random_range(0..bound)
}

/// A random password of `length` characters, drawn from the password
/// character set.
pub fn random_password(length: u8) -> (r: String)
    ensures
        r@.len() == length as nat,
        forall|i: int| 0 <= i < r@.len() ==> password_charset().contains(#[trigger] r@[i]),
{
    let cs = "abcdefghijklmnopqrstuvwxyzABCDEFGHIJKLMNPQRSTUVWXYZ123456789!(),._-?@#[]`~=+*^%";
    let n = cs.unicode_len();
    proof {
        reveal_strlit(
            "abcdefghijklmnopqrstuvwxyzABCDEFGHIJKLMNPQRSTUVWXYZ123456789!(),._-?@#[]`~=+*^%",
        );
        assert(n > 0);
    }
    let mut out: Vec<char> = Vec::new();
    let mut i: usize = 0;
    while i < length as usize
        invariant
            i <= length as usize,
            n == cs@.len(),
            n > 0,
            cs@ == password_charset(),
            out@.len() == i,
            forall|k: int| 0 <= k < i ==> password_charset().contains(#[trigger] out@[k]),
        decreases length as usize - i,
    {
        let idx = random_index(n);
        let c = cs.get_char(idx);
        out.push(c);
        proof {
            assert(cs@[idx as int] == c);
            assert(password_charset().contains(c));
        }
        i += 1;
    }
    crate::codec::chars_to_string(&out)
}

/// The exact `Authorization` header value that grants operator access for
/// the given encoded password.
pub open spec fn expected_header(encoded_password: Seq<char>) -> Seq<char> {
    "Basic "@ + encoded_password
}

/// Whether the given `Authorization` header value grants access: it must be
/// exactly `Basic ` followed by the server's encoded password.
pub fn authorization_matches(header: &str, encoded_password: &str) -> (r: bool)
    ensures
        r == (header@ == expected_header(encoded_password@)),
{
    let mut expected = String::from_str("Basic ");
    expected.append(encoded_password);
    let h = header.to_owned();
    h == expected
}

/// The operator's request body for renaming an agent's stored record.
pub struct ModifyClientNameBody {
    pub new_name: String,
}

} // verus!
