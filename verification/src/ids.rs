use vstd::prelude::*;

verus! {

/// `c` is a lower-case hexadecimal digit.
pub open spec fn is_lower_hex_digit(c: char) -> bool {
    ('0' <= c <= '9') || ('a' <= c <= 'f')
}

/// `s` is the text of a random (version 4, RFC 4122 variant) UUID in its
/// hyphenated lower-case form, such as `67e55044-10b1-426f-9247-bb680e5fe0c8`.
pub open spec fn is_uuid_v4_text(s: Seq<char>) -> bool {
    &&& s.len() == 36
    &&& forall|i: int|
        0 <= i < 36 ==> if i == 8 || i == 13 || i == 18 || i == 23 {
            #[trigger] s[i] == '-'
        } else {
            is_lower_hex_digit(s[i])
        }
    &&& s[14] == '4'
    &&& (s[19] == '8' || s[19] == '9' || s[19] == 'a' || s[19] == 'b')
}

/// Calls `uuid::Uuid::new_v4` and renders it with `to_string`.
/// Claimed: the text is 36 characters, hyphens at offsets 8, 13, 18 and 23,
/// lower-case hex digits elsewhere, version digit `4` at offset 14 and a
/// variant digit in `8..=b` at offset 19 (the crate masks those bits and
/// formats with `LowerHex` in hyphenated form). Which random bits fill the
/// other digits is left unsaid: they come from the system's random source
/// (the crate panics when that source fails, which no argument can rule out).
#[verifier::external_body]
pub(crate) fn uuid_v4_text() -> (id: String)
    ensures
        is_uuid_v4_text(id@),
{
    uuid::Uuid::new_v4().to_string()
}

/// Calls `rand::random::<u64>()`. Nothing is claimed of the result: any
/// `u64` may come back (it is drawn from the thread-local generator, which
/// panics if the system cannot seed it).
#[verifier::external_body]
pub(crate) fn random_u64() -> u64 {
    rand::random::<u64>()
}

/// A fresh identifier for a chat client connection.
pub fn new_client_id() -> (id: String)
    ensures
        is_uuid_v4_text(id@),
{
    uuid_v4_text()
}

/// The first message a chat client receives: `CLIENT_ID:` and its id.
pub fn client_id_message(client_id: &str) -> (msg: String)
    ensures
        msg@ == "CLIENT_ID:"@ + client_id@,
{
    let mut msg = String::from_str("CLIENT_ID:");
    msg.append(client_id);
    msg
}

} // verus!
