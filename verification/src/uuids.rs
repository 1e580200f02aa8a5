//! Random UUIDs.
//!
//! What is drawn is recorded, and the record grows by the draws of this module alone: no other
//! module can write to it.
use uuid::Uuid;
use vstd::prelude::*;

verus! {

/// A lower-case hexadecimal digit.
pub open spec fn is_hex(c: char) -> bool {
    '0' <= c <= '9' || 'a' <= c <= 'f'
}

/// The text of a random UUID: five groups of lower-case hexadecimal digits with hyphens between
/// them, in which the version is 4 and the variant that of the standard.
pub open spec fn is_uuid(text: Seq<char>) -> bool {
    &&& text.len() == 36
    &&& forall|i: int|
        0 <= i < 36 ==> if i == 8 || i == 13 || i == 18 || i == 23 {
            #[trigger] text[i] == '-'
        } else {
            is_hex(text[i])
        }
    &&& text[14] == '4'
    &&& text[19] == '8' || text[19] == '9' || text[19] == 'a' || text[19] == 'b'
}

/// Every one of the texts is that of a random UUID.
pub open spec fn all_uuids(texts: Seq<Seq<char>>) -> bool {
    forall|i: int| 0 <= i < texts.len() ==> is_uuid(#[trigger] texts[i])
}

/// Draws UUIDs, and keeps a record of them.
pub struct UuidSource {
    drawn: Ghost<Seq<Seq<char>>>,
}

impl UuidSource {
    /// The UUIDs that were drawn, in order.
    pub closed spec fn drawn(&self) -> Seq<Seq<char>> {
        self.drawn@
    }

    /// A source from which nothing was drawn.
    pub fn new() -> (r: Self)
        ensures
            r.drawn() == Seq::<Seq<char>>::empty(),
    {
        UuidSource { drawn: Ghost(Seq::empty()) }
    }

    /// Draws a UUID with `uuid::Uuid::new_v4` and writes it as text. Which one comes is left to
    /// chance; what is claimed is that the result was drawn by this call, and the form that every
    /// one has. That two draws differ is likely but not certain, and is not claimed. Where the
    /// system has no random numbers to give, the call panics.
    #[verifier::external_body]
    pub(crate) fn unique_uuid(&mut self) -> (r: String)
        ensures
            is_uuid(r@),
            final(self).drawn() == old(self).drawn().push(r@),
    {
        Uuid::new_v4().to_string()
    }
}

/// A random UUID is written as 36 characters in five groups of 8, 4, 4, 4 and 12 lower-case
/// hexadecimal digits. The third group begins with 4, and the fourth with one of four digits.
pub proof fn law_uuid_form(text: Seq<char>)
    ensures
        is_uuid(text) <==> {
            &&& text.len() == 36
            &&& text[8] == '-' && text[13] == '-' && text[18] == '-' && text[23] == '-'
            &&& forall|i: int|
                0 <= i < 36 && i != 8 && i != 13 && i != 18 && i != 23 ==> {
                    let c = #[trigger] text[i];
                    '0' <= c <= '9' || 'a' <= c <= 'f'
                }
            &&& text[14] == '4'
            &&& text[19] == '8' || text[19] == '9' || text[19] == 'a' || text[19] == 'b'
        },
{
}

} // verus!
