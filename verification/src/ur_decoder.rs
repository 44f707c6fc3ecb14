use crate::fountain_decoder::FountainDecoder;
use crate::ur::{invalid_type_message, type_or_default, UR};
use crate::utils::{is_ur_type, is_ur_type_spec};
use vstd::prelude::*;

verus! {

/// Receives a Uniform Resource of one type, in one part or in several.
pub struct URDecoder {
    expected_type: String,
    result: Option<UR>,
    error: Option<UR>,
    fountain_decoder: FountainDecoder,
    /// The tag of the type that this decoder receives.
    pub ur_type: String,
}

impl URDecoder {
    /// The tag of the type that this decoder receives.
    pub closed spec fn type_tag(&self) -> Seq<char> {
        self.ur_type@
    }

    /// Whether nothing has been received so far: no type is expected, and there is
    /// neither a result nor an error.
    pub closed spec fn is_fresh(&self) -> bool {
        self.expected_type@ == Seq::<char>::empty() && self.result is None && self.error is None
    }

    /// A decoder for the type `ur_type`, `bytes` where none is given, that has received
    /// nothing. A tag with a character other than a lowercase letter, a digit or a
    /// hyphen is refused.
    pub fn new(fountain_decoder: Option<FountainDecoder>, ur_type: Option<String>) -> (created:
        Result<URDecoder, String>)
        ensures
            created is Ok <==> is_ur_type_spec(type_or_default(ur_type)),
            created matches Ok(decoder) ==> decoder.type_tag() == type_or_default(ur_type)
                && decoder.is_fresh(),
            created matches Err(message) ==> message@ == invalid_type_message(
                type_or_default(ur_type),
            ),
    {
        let _fountain_decoder = match fountain_decoder {
            Some(decoder) => decoder,
            None => FountainDecoder::new(),
        };
        let _ur_type = match ur_type {
            Some(tag) => tag,
            None => String::from_str("bytes"),
        };
        if is_ur_type(&_ur_type) {
            Ok(
                URDecoder {
                    expected_type: String::new(),
                    result: None,
                    error: None,
                    fountain_decoder: _fountain_decoder,
                    ur_type: _ur_type,
                },
            )
        } else {
            let mut message = String::from_str("Invalid ur type: ");
            message.append(_ur_type.as_str());
            Err(message)
        }
    }
}

impl Default for URDecoder {
    /// A decoder for the empty tag that has received nothing.
    fn default() -> (decoder: URDecoder)
        ensures
            decoder.type_tag() == Seq::<char>::empty(),
            decoder.is_fresh(),
    {
        URDecoder {
            expected_type: String::new(),
            result: None,
            error: None,
            fountain_decoder: FountainDecoder::new(),
            ur_type: String::new(),
        }
    }
}

} // verus!
