//! The color registry: a bijection between taint tag names and compact
//! numeric color IDs. ID 0 is reserved for the clean (untainted) tag.

use vstd::prelude::*;

verus! {

/// The reserved tag for clean value, the bytes of `Clean`.
pub open spec fn clean_tag_bytes() -> Seq<u8> {
    seq![67u8, 108u8, 101u8, 97u8, 110u8]
}

pub open spec fn all_ascii(b: Seq<u8>) -> bool {
    forall|i: int| 0 <= i < b.len() ==> #[trigger] b[i] < 128
}

/// The characters an ASCII byte string displays as.
pub open spec fn ascii_text(b: Seq<u8>) -> Seq<char> {
    Seq::new(b.len(), |i: int| b[i] as char)
}

/// Relies on String::from_utf8_lossy: bytes below 128 convert to the
/// identical ASCII characters.
#[verifier::external_body]
pub fn bytes_to_string(b: &Vec<u8>) -> (r: String)
    ensures
        all_ascii(b@) ==> r@ == ascii_text(b@),
{
    String::from_utf8_lossy(b).into_owned()
}

/// Tag names in registration order; a tag's color ID is its position.
pub struct ColorRegistry {
    pub tags: Vec<Vec<u8>>,
}

impl ColorRegistry {
    /// IDs fit in a u16; tags are distinct; ID 0 is the clean tag.
    pub open spec fn wf(&self) -> bool {
        &&& 1 <= self.tags@.len() <= 65536
    &&& self.tags@[0]@ == clean_tag_bytes()
    &&& forall|i: int, j: int|
        0 <= i < j < self.tags@.len() ==> (#[trigger] self.tags@[i])@ != (
        #[trigger] self.tags@[j])@
    }

    /// A fresh registry holding only the clean tag under ID 0.
    pub fn new() -> (r: Self)
        ensures
            r.wf(),
            r.tags@.len() == 1,
    {
        let mut tags: Vec<Vec<u8>> = Vec::new();
        let clean: Vec<u8> = vec![67u8, 108u8, 101u8, 97u8, 110u8];
        proof {
            assert(clean@ =~= clean_tag_bytes());
        }
        tags.push(clean);
        ColorRegistry { tags }
    }

    pub fn len(&self) -> (r: usize)
        ensures
            r == self.tags@.len(),
    {
        self.tags.len()
    }

    /// The color ID registered for `tag`, if any.
    pub fn id_of(&self, tag: &Vec<u8>) -> (r: Option<u16>)
        requires
            self.wf(),
        ensures
            match r {
                Some(id) => (id as int) < self.tags@.len() && self.tags@[id as int]@ == tag@,
                None => forall|i: int|
                    0 <= i < self.tags@.len() ==> (#[trigger] self.tags@[i])@ != tag@,
            },
    {
        let mut i: usize = 0;
        while i < self.tags.len()
            invariant
                0 <= i <= self.tags@.len(),
                self.tags@.len() <= 65536,
                forall|j: int| 0 <= j < i ==> (#[trigger] self.tags@[j])@ != tag@,
            decreases self.tags@.len() - i,
        {
            if crate::chain::bytes_eq(&self.tags[i], tag) {
                return Some(i as u16);
            }
            i = i + 1;
        }
        None
    }

    /// The ID for `tag`, registering it with the next free ID if it is
    /// new; `None` when the registry is full.
    pub fn get_or_insert(&mut self, tag: Vec<u8>) -> (r: Option<u16>)
        requires
            old(self).wf(),
        ensures
            final(self).wf(),
            match r {
                Some(id) => {
                    &&& (id as int) < final(self).tags@.len()
                    &&& final(self).tags@[id as int]@ == tag@
                    &&& (old(self).tags@.len() <= id as int ==> final(self).tags@ == old(
                        self,
                    ).tags@.push(tag))
                    &&& ((id as int) < old(self).tags@.len() ==> final(self).tags@ == old(
                        self,
                    ).tags@)
                },
                None => final(self).tags@ == old(self).tags@ && old(self).tags@.len() == 65536
                    && (forall|i: int|
                    0 <= i < old(self).tags@.len() ==> (#[trigger] old(self).tags@[i])@ != tag@),
            },
    {
        match self.id_of(&tag) {
            Some(id) => Some(id),
            None => {
                if self.tags.len() >= 65536 {
                    return None;
                }
                let id = self.tags.len() as u16;
                let ghost t0 = self.tags@;
                self.tags.push(tag);
                proof {
                    assert forall|i: int, j: int|
                        0 <= i < j < self.tags@.len() implies (#[trigger] self.tags@[i])@ != (
                        #[trigger] self.tags@[j])@ by {
                        if j < self.tags@.len() - 1 {
                            assert(self.tags@[i] == t0[i]);
                            assert(self.tags@[j] == t0[j]);
                        } else {
                            assert(self.tags@[i] == t0[i]);
                        }
                    }
                }
                Some(id)
            },
        }
    }
}

} // verus!
