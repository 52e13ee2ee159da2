//! Names for the sessions of sub-queries.
use vstd::prelude::*;
use vstd::string::*;

verus! {

/// Whether a character is a hexadecimal digit, in lower case.
pub open spec fn hex_digit(c: char) -> bool {
    '0' <= c <= '9' || 'a' <= c <= 'f'
}

/// Whether a text is a random UUID in its usual form: 36 characters, four of them hyphens,
/// the others hexadecimal digits, with the version 4 and the variant where they stand.
pub open spec fn random_uuid(s: Seq<char>) -> bool {
    &&& s.len() == 36
    &&& forall|i: int|
        0 <= i < 36 ==> if i == 8 || i == 13 || i == 18 || i == 23 {
            #[trigger] s[i] == '-'
        } else {
            hex_digit(s[i])
        }
    &&& s[14] == '4'
    &&& s[19] == '8' || s[19] == '9' || s[19] == 'a' || s[19] == 'b'
}

/// Calls `Uuid::new_v4` and writes the identifier down with its `Display`. Which one it is
/// rests on the random numbers of the system.
#[verifier::external_body]
fn new_uuid() -> (r: String)
    ensures
        random_uuid(r@),
{
    uuid::Uuid::new_v4().to_string()
}

/// The name of the session with this identifier.
pub open spec fn session_name(id: Seq<char>) -> Seq<char> {
    "rlm-sub-"@ + id
}

/// Names the session with this identifier.
pub fn name_session(id: &str) -> (r: String)
    ensures
        r@ == session_name(id@),
{
    let mut r: String = "rlm-sub-".to_owned();
    r.append(id);
    r
}

/// Names a new session.
pub fn new_session() -> (r: String)
    ensures
        exists|id: Seq<char>| random_uuid(id) && r@ == #[trigger] session_name(id),
{
    let id: String = new_uuid();
    name_session(id.as_str())
}

} // verus!
