//! Output encodings for entity files.

use vstd::prelude::*;
use vstd::string::StringSliceAdditionalSpecFns;

verus! {

/// Encoding used for the entity files of a dataset tree.
#[derive(Clone, Copy, PartialEq, Eq, Structural, Debug)]
pub enum OutputFormat {
    Toml,
    Json,
}

impl Default for OutputFormat {
    /// The default encoding is TOML.
    fn default() -> (r: Self)
        ensures
            r is Toml,
    {
        OutputFormat::Toml
    }
}

impl OutputFormat {
    /// The names accepted when an encoding is selected, in reporting order.
    pub fn variants() -> (r: &'static [&'static str])
        ensures
            r@.len() == 2,
            r@[0]@ == "toml"@,
            r@[1]@ == "json"@,
    {
        &["toml", "json"]
    }

    /// File extension used for entity files of this encoding.
    pub fn ext(&self) -> (r: &'static str)
        ensures
            *self is Toml ==> r@ == "toml"@,
            *self is Json ==> r@ == "json"@,
    {
        match self {
            OutputFormat::Toml => "toml",
            OutputFormat::Json => "json",
        }
    }
}

/// An upper-case ASCII letter folded to lower case.
pub open spec fn lower_byte(b: u8) -> u8 {
    if 0x41 <= b <= 0x5a {
        (b + 0x20) as u8
    } else {
        b
    }
}

/// The byte string folded to lower case.
pub open spec fn lower_bytes(s: Seq<u8>) -> Seq<u8> {
    s.map_values(|b: u8| lower_byte(b))
}

/// The bytes of `toml`.
pub open spec fn toml_name() -> Seq<u8> {
    seq![0x74u8, 0x6fu8, 0x6du8, 0x6cu8]
}

/// The bytes of `json`.
pub open spec fn json_name() -> Seq<u8> {
    seq![0x6au8, 0x73u8, 0x6fu8, 0x6eu8]
}

impl OutputFormat {
    /// Select an encoding by name, ignoring ASCII case; any other name is
    /// refused with a message.
    pub fn from_str(s: &str) -> (r: Result<OutputFormat, String>)
        ensures
            lower_bytes(s.spec_bytes()) == toml_name() ==> (r matches Ok(f) && f is Toml),
            lower_bytes(s.spec_bytes()) == json_name() ==> (r matches Ok(f) && f is Json),
            lower_bytes(s.spec_bytes()) != toml_name() && lower_bytes(s.spec_bytes())
                != json_name() ==> (r matches Err(m) && m@ == "invalid output format: "@ + s@
                + ". supported formats: toml, json"@),
    {
        let b = s.as_bytes();
        let mut low: Vec<u8> = Vec::new();
        let mut i: usize = 0;
        while i < b.len()
            invariant
                0 <= i <= b@.len(),
                low@ =~= lower_bytes(b@.subrange(0, i as int)),
            decreases b.len() - i,
        {
            let c = b[i];
            proof {
                assert(b@.subrange(0, i + 1).drop_last() =~= b@.subrange(0, i as int));
                assert(b@.subrange(0, i + 1).last() == b@[i as int]);
                assert(lower_bytes(b@.subrange(0, i + 1)) =~= lower_bytes(
                    b@.subrange(0, i as int),
                ).push(lower_byte(b@[i as int]))) by {
                    assert forall|k: int|
                        0 <= k < i implies lower_bytes(b@.subrange(0, i + 1))[k] == lower_bytes(
                        b@.subrange(0, i as int),
                    )[k] by {
                        assert(b@.subrange(0, i + 1)[k] == b@.subrange(0, i as int)[k]);
                    }
                }
            }
            if 0x41 <= c && c <= 0x5a {
                low.push(c + 0x20);
            } else {
                low.push(c);
            }
            i += 1;
        }
        proof {
            assert(b@.subrange(0, b@.len() as int) =~= b@);
        }
        let mut toml: Vec<u8> = Vec::new();
        toml.push(0x74);
        toml.push(0x6f);
        toml.push(0x6d);
        toml.push(0x6c);
        let mut json: Vec<u8> = Vec::new();
        json.push(0x6a);
        json.push(0x73);
        json.push(0x6f);
        json.push(0x6e);
        proof {
            assert(toml@ =~= toml_name());
            assert(json@ =~= json_name());
        }
        if crate::model::bytes_eq(low.as_slice(), toml.as_slice()) {
            Ok(OutputFormat::Toml)
        } else if crate::model::bytes_eq(low.as_slice(), json.as_slice()) {
            Ok(OutputFormat::Json)
        } else {
            Err(invalid_format_message(s))
        }
    }
}

/// The message reported for an unknown encoding name: it names the refused
/// input and the supported encodings.
fn invalid_format_message(s: &str) -> (r: String)
    ensures
        r@ == "invalid output format: "@ + s@ + ". supported formats: toml, json"@,
{
    let mut m = <String as vstd::string::StringExecFns>::from_str("invalid output format: ");
    vstd::string::StringExecFns::append(&mut m, s);
    vstd::string::StringExecFns::append(&mut m, ". supported formats: toml, json");
    m
}

} // verus!
