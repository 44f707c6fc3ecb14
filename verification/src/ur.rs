use crate::utils::{is_ur_type, is_ur_type_spec};
use vstd::prelude::*;

verus! {

/// The type tag that is meant where none is given.
pub open spec fn type_or_default(ur_type: Option<String>) -> Seq<char> {
    match ur_type {
        Some(tag) => tag@,
        None => "bytes"@,
    }
}

/// What is reported for a text that is no type tag.
pub open spec fn invalid_type_message(tag: Seq<char>) -> Seq<char> {
    "Invalid ur type: "@ + tag
}

/// A payload together with the tag that names its type.
pub struct UR {
    _cbor_payload: Vec<u8>,
    _type: String,
}

impl UR {
    /// The bytes of the payload.
    pub closed spec fn payload(&self) -> Seq<u8> {
        self._cbor_payload@
    }

    /// The type tag.
    pub closed spec fn type_tag(&self) -> Seq<char> {
        self._type@
    }

    #[verifier::type_invariant]
    spec fn well_formed(&self) -> bool {
        is_ur_type_spec(self._type@)
    }

    /// Wraps a payload under a type tag, `bytes` where none is given. A tag with a
    /// character other than a lowercase letter, a digit or a hyphen is refused.
    pub fn new(cbor_payload: Vec<u8>, ur_type: Option<String>) -> (created: Result<UR, String>)
        ensures
            created is Ok <==> is_ur_type_spec(type_or_default(ur_type)),
            created matches Ok(ur) ==> ur.payload() == cbor_payload@ && ur.type_tag()
                == type_or_default(ur_type),
            created matches Err(message) ==> message@ == invalid_type_message(
                type_or_default(ur_type),
            ),
    {
        let _ur_type = match ur_type {
            Some(tag) => tag,
            None => String::from_str("bytes"),
        };
        if is_ur_type(&_ur_type) {
            Ok(UR { _cbor_payload: cbor_payload, _type: _ur_type })
        } else {
            let mut message = String::from_str("Invalid ur type: ");
            message.append(_ur_type.as_str());
            Err(message)
        }
    }

    /// The bytes of the payload.
    pub fn cbor_payload(&self) -> (payload: &Vec<u8>)
        ensures
            payload@ == self.payload(),
    {
        &self._cbor_payload
    }

    /// The type tag.
    pub fn ur_type(&self) -> (tag: &String)
        ensures
            tag@ == self.type_tag(),
            is_ur_type_spec(tag@),
    {
        proof {
            use_type_invariant(self);
        }
        &self._type
    }
}

impl Default for UR {
    /// An empty payload under the empty tag.
    fn default() -> (ur: UR)
        ensures
            ur.payload() == Seq::<u8>::empty(),
            ur.type_tag() == Seq::<char>::empty(),
    {
        UR { _cbor_payload: Vec::new(), _type: String::new() }
    }
}

} // verus!
