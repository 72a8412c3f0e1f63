use crate::errors::ConversionError;
use vstd::prelude::*;

verus! {

/// Names vocabulary conversion is not implemented: every call is answered
/// with `ConversionError::Unsupported`, whatever the two paths hold.
pub fn convert_json_to_yaml(_json_path: &str, _yaml_path: &str) -> (r: Result<
    (),
    ConversionError,
>)
    ensures
        r == Err::<(), ConversionError>(ConversionError::Unsupported),
{
    Err(ConversionError::Unsupported)
}

} // verus!
