use vstd::prelude::*;

verus! {

/// Mathematical model of an item: byte strings and unbounded integers.
#[verifier::ext_equal]
pub struct ItemModel {
    pub id: int,
    pub content: Seq<u8>,
    pub filename: Seq<u8>,
    pub mimetype: Seq<u8>,
    pub digest: Seq<u8>,
    pub label: Seq<u8>,
    pub destruct: bool,
    pub private: bool,
    pub is_url: bool,
    pub sunset: Option<int>,
    pub timestamp: Option<int>,
}

/// One stored item: a blob or a redirect target, with its two identifiers,
/// visibility flags and lifecycle timestamps (seconds since an epoch).
pub struct Item {
    pub id: i64,
    pub content: Vec<u8>,
    pub filename: Vec<u8>,
    pub mimetype: Vec<u8>,
    pub digest: Vec<u8>,
    pub label: Vec<u8>,
    pub destruct: bool,
    pub private: bool,
    pub is_url: bool,
    pub sunset: Option<i64>,
    pub timestamp: Option<i64>,
}

impl View for Item {
    type V = ItemModel;

    open spec fn view(&self) -> ItemModel {
        ItemModel {
            id: self.id as int,
            content: self.content@,
            filename: self.filename@,
            mimetype: self.mimetype@,
            digest: self.digest@,
            label: self.label@,
            destruct: self.destruct,
            private: self.private,
            is_url: self.is_url,
            sunset: match self.sunset {
                Some(t) => Some(t as int),
                None => None,
            },
            timestamp: match self.timestamp {
                Some(t) => Some(t as int),
                None => None,
            },
        }
    }
}

/// A just-allocated item: everything empty or false but the id.
pub open spec fn fresh_item(id: int) -> ItemModel {
    ItemModel {
        id: id,
        content: Seq::empty(),
        filename: Seq::empty(),
        mimetype: Seq::empty(),
        digest: Seq::empty(),
        label: Seq::empty(),
        destruct: false,
        private: false,
        is_url: false,
        sunset: None,
        timestamp: None,
    }
}

/// The byte `https://`, the scheme every rendered address carries.
pub open spec fn scheme_prefix() -> Seq<u8> {
    seq![104u8, 116u8, 116u8, 112u8, 115u8, 58u8, 47u8, 47u8]
}

/// The externally visible address: the digest form for a private item, the
/// label form for a public one.
pub open spec fn url_spec(m: ItemModel, base: Seq<u8>) -> Seq<u8> {
    if m.private {
        scheme_prefix() + base + seq![47u8, crate::DIGEST_SIGIL] + m.digest
    } else {
        scheme_prefix() + base + seq![47u8] + m.label
    }
}

/// Append a copy of `src` to `dst`.
pub fn append_bytes(dst: &mut Vec<u8>, src: &Vec<u8>)
    ensures
        final(dst)@ == old(dst)@ + src@,
{
    let mut i: usize = 0;
    while i < src.len()
        invariant
            i <= src.len(),
            dst@ == old(dst)@ + src@.take(i as int),
        decreases src.len() - i,
    {
        dst.push(src[i]);
        i = i + 1;
        proof {
            assert(dst@ =~= old(dst)@ + src@.take(i as int));
        }
    }
    proof {
        assert(old(dst)@ + src@.take(src@.len() as int) =~= old(dst)@ + src@);
    }
}

impl Item {
    /// A fresh item carrying only its pre-allocated id.
    pub fn new_with_id(id: i64) -> (r: Item)
        ensures
            r@ == fresh_item(id as int),
    {
        let r = Item {
            id,
            content: Vec::new(),
            filename: Vec::new(),
            mimetype: Vec::new(),
            digest: Vec::new(),
            label: Vec::new(),
            destruct: false,
            private: false,
            is_url: false,
            sunset: None,
            timestamp: None,
        };
        proof {
            assert(r@.content =~= fresh_item(id as int).content);
            assert(r@.filename =~= fresh_item(id as int).filename);
            assert(r@.mimetype =~= fresh_item(id as int).mimetype);
            assert(r@.digest =~= fresh_item(id as int).digest);
            assert(r@.label =~= fresh_item(id as int).label);
        }
        r
    }

    /// A fresh deep copy of this item.
    pub fn duplicate(&self) -> (r: Item)
        ensures
            r@ == self@,
    {
        Item {
            id: self.id,
            content: crate::codec::copy_bytes(&self.content),
            filename: crate::codec::copy_bytes(&self.filename),
            mimetype: crate::codec::copy_bytes(&self.mimetype),
            digest: crate::codec::copy_bytes(&self.digest),
            label: crate::codec::copy_bytes(&self.label),
            destruct: self.destruct,
            private: self.private,
            is_url: self.is_url,
            sunset: self.sunset,
            timestamp: self.timestamp,
        }
    }

    /// Render the externally visible address of this item under `base`.
    pub fn url(&self, base: &Vec<u8>) -> (r: Vec<u8>)
        ensures
            r@ == url_spec(self@, base@),
    {
        let mut r: Vec<u8> = Vec::new();
        r.push(104);
        r.push(116);
        r.push(116);
        r.push(112);
        r.push(115);
        r.push(58);
        r.push(47);
        r.push(47);
        append_bytes(&mut r, base);
        r.push(47);
        if self.private {
            r.push(crate::DIGEST_SIGIL);
            append_bytes(&mut r, &self.digest);
            proof {
                assert(r@ =~= url_spec(self@, base@));
            }
        } else {
            append_bytes(&mut r, &self.label);
            proof {
                assert(r@ =~= url_spec(self@, base@));
            }
        }
        r
    }
}

} // verus!
