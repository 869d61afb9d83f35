//! Trusted-hop authentication of the control plane: every request carries the shared cluster
//! secret, compared in constant time. Missing configuration is a startup error.

use vstd::prelude::*;

use crate::text;

verus! {

/// Header that carries the shared secret between trusted hops.
pub const INTERNAL_AUTH_HEADER: &'static str = "x-fiducia-internal-auth";

/// Why the control plane does not start.
#[derive(Debug, Clone, Copy, PartialEq, Eq, Structural)]
pub enum AuthError {
    /// No secret is configured.
    MissingSecret,
}

impl AuthError {
    /// The message of the error.
    pub fn message(&self) -> (r: String)
        ensures
            r@ == "FIDUCIA_INTERNAL_SECRET must be configured for the brain control plane"@,
    {
        "FIDUCIA_INTERNAL_SECRET must be configured for the brain control plane".to_owned()
    }
}

/// The secret a setting stands for: without surrounding white space, and not empty.
pub open spec fn secret_of(setting: Option<Seq<char>>) -> Option<Seq<char>> {
    match setting {
        Some(s) => if text::trimmed(s).len() > 0 {
            Some(text::trimmed(s))
        } else {
            None
        },
        None => None,
    }
}

/// The secret a setting stands for.
pub fn configured(setting: Option<&str>) -> (r: Option<String>)
    ensures
        r.deep_view() == secret_of(setting.deep_view()),
{
    match setting {
        Some(s) => {
            let t = s.trim();
            if t.is_empty() {
                None
            } else {
                Some(t.to_owned())
            }
        },
        None => None,
    }
}

/// Refuses to start without a secret.
pub fn init_and_log(setting: Option<&str>) -> (r: Result<(), AuthError>)
    ensures
        r is Ok <==> secret_of(setting.deep_view()) is Some,
{
    if configured(setting).is_some() {
        Ok(())
    } else {
        Err(AuthError::MissingSecret)
    }
}

/// The authorization decision: exactly the expected secret opens the control plane, and without
/// one nothing does.
pub fn authorized(expected: Option<&str>, provided: Option<&str>) -> (r: bool)
    ensures
        r == (expected is Some && provided.deep_view() == expected.deep_view()),
{
    match (expected, provided) {
        (Some(secret), Some(p)) => {
            proof {
                vstd::utf8::encode_utf8_decode_utf8(secret@);
                vstd::utf8::encode_utf8_decode_utf8(p@);
            }
            constant_time_eq(p.as_bytes(), secret.as_bytes())
        },
        _ => false,
    }
}

/// Compares lengths, then contents without stopping at the first difference, so that response
/// times do not give the secret away.
fn constant_time_eq(a: &[u8], b: &[u8]) -> (r: bool)
    ensures
        r == (a@ == b@),
{
    if a.len() != b.len() {
        return false;
    }
    let mut diff: u8 = 0;
    let mut i: usize = 0;
    while i < a.len()
        invariant
            i <= a.len(),
            a@.len() == b@.len(),
            diff == 0 <==> forall|k: int| 0 <= k < i ==> a@[k] == b@[k],
        decreases a.len() - i,
    {
        let x: u8 = a[i];
        let y: u8 = b[i];
        let d: u8 = diff;
        assert((d | (x ^ y)) == 0 <==> d == 0 && x == y) by (bit_vector);
        diff = d | (x ^ y);
        i += 1;
    }
    proof {
        if diff == 0 {
            assert(a@ =~= b@);
        }
    }
    diff == 0
}


/// A secret is what is left of its setting without the white space around it, and there is none
/// where nothing is left.
pub proof fn blank_secrets_are_none(setting: Option<Seq<char>>)
    ensures
        secret_of(setting) is None <==> setting is None || text::trimmed(setting->0).len() == 0,
        secret_of(setting) is Some ==> secret_of(setting)->0 == text::trimmed(setting->0),
{
}

} // verus!
