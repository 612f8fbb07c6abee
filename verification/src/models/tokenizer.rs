//! Text to tokens and back.

use crate::error::{Error, Failure, Result};
use crate::models::tokenizer_file::{is_plain, plain, Json};
use crate::text::owned;
use vstd::prelude::*;

verus! {

/// A tokenizer of the `tokenizers` crate.
#[verifier::external_type_specification]
#[verifier::external_body]
pub struct ExTokenizer(::tokenizers::Tokenizer);

/// A JSON value of the `serde_json` crate.
#[verifier::external_type_specification]
#[verifier::external_body]
pub struct ExValue(::serde_json::Value);

/// `serde_json::from_slice`: the value that a text describes, or the text of why it
/// describes none.  Nothing is stated of either.
#[verifier::external_body]
fn read_json(text: &[u8]) -> (r: std::result::Result<::serde_json::Value, String>) {
    ::serde_json::from_slice(text).map_err(|error| error.to_string())
}

/// The parts of a `serde_json::Value`, one for one: of a number what `Number::as_u64`
/// gives.  Nothing is stated of them.
#[verifier::external_body]
fn convert(value: &::serde_json::Value) -> (r: Json) {
    match value {
        ::serde_json::Value::Null => Json::Null,
        ::serde_json::Value::Bool(answer) => Json::Bool(*answer),
        ::serde_json::Value::Number(number) => Json::Number(number.as_u64()),
        ::serde_json::Value::String(text) => Json::Text(text.clone()),
        ::serde_json::Value::Array(items) => Json::List(items.iter().map(convert).collect()),
        ::serde_json::Value::Object(members) => Json::Object(
            members.iter().map(|(key, item)| (key.clone(), convert(item))).collect(),
        ),
    }
}

/// `serde_json::to_vec`: the text of a value, or the text of the failure.  Nothing is
/// stated of either.
#[verifier::external_body]
fn write_json(value: &::serde_json::Value) -> (r: std::result::Result<Vec<u8>, String>) {
    ::serde_json::to_vec(value).map_err(|error| error.to_string())
}

/// A text that `serde_json` wrote of a value that describes a plain tokenizer.
pub closed spec fn describes_plainly(text: Seq<u8>) -> bool {
    exists|value: ::serde_json::Value, json: Json, bytes: Vec<u8>|
        {
            &&& #[trigger] turned(value, json)
            &&& plain(json)
            &&& #[trigger] written(value, Ok(bytes))
            &&& bytes@ == text
        }
}

/// `Tokenizer::from_bytes`: the tokenizer that a `tokenizer.json` describes, or the text
/// of why it describes none.  Nothing is stated of either.  On a tokenizer that is not
/// plain it can panic: a byte-pair encoding whose merges are longer than every token,
/// a decoder that is none.
#[verifier::external_body]
fn parse(json: &[u8]) -> (r: std::result::Result<::tokenizers::Tokenizer, String>)
    requires
        describes_plainly(json@),
{
    ::tokenizers::Tokenizer::from_bytes(json).map_err(|error| error.to_string())
}

/// The tokenizer was read from the description of a plain one.
pub closed spec fn plainly_made(tokenizer: ::tokenizers::Tokenizer) -> bool {
    exists|text: Seq<u8>| describes_plainly(text) && #[trigger] parsed(text, Ok(tokenizer))
}

/// `Tokenizer::encode`, with the identifiers of the encoding, or the text of the
/// failure.  Nothing is stated of either: a tokenizer may drop merges at random.  With a
/// tokenizer that is not plain it can panic: one that cuts to fewer tokens than it adds,
/// one whose template names a token that is not there.
#[verifier::external_body]
fn tokenize(tokenizer: &::tokenizers::Tokenizer, text: &str, special: bool) -> (r:
    std::result::Result<Vec<u32>, String>)
    requires
        plainly_made(*tokenizer),
{
    match tokenizer.encode(text, special) {
        Ok(encoding) => Ok(encoding.get_ids().to_vec()),
        Err(error) => Err(error.to_string()),
    }
}

/// `Tokenizer::decode`: the text of identifiers, or the text of the failure.  Nothing is
/// stated of either.  With a tokenizer that is not plain it can panic: a decoder that
/// strips more than a token holds, one that takes the last of no tokens.
#[verifier::external_body]
fn untokenize(tokenizer: &::tokenizers::Tokenizer, ids: &[u32], skip: bool) -> (r:
    std::result::Result<String, String>)
    requires
        plainly_made(*tokenizer),
{
    tokenizer.decode(ids, skip).map_err(|error| error.to_string())
}

/// `Tokenizer::get_vocab_size`: the number of tokens, with those that were added to the
/// model or without.  Nothing is stated of it.
#[verifier::external_body]
fn vocabulary(tokenizer: &::tokenizers::Tokenizer, with_added: bool) -> (r: usize) {
    tokenizer.get_vocab_size(with_added)
}

/// The characters with the Unicode property `White_Space`.
pub open spec fn white(c: char) -> bool {
    ||| '\u{9}' <= c <= '\u{d}'
    ||| c == ' '
    ||| c == '\u{85}'
    ||| c == '\u{a0}'
    ||| c == '\u{1680}'
    ||| '\u{2000}' <= c <= '\u{200a}'
    ||| '\u{2028}' <= c <= '\u{2029}'
    ||| c == '\u{202f}'
    ||| c == '\u{205f}'
    ||| c == '\u{3000}'
}

/// `r` is a text without the white space at its ends.
pub open spec fn trimmed(text: Seq<char>, r: Seq<char>) -> bool {
    exists|from: int, to: int|
        {
            &&& 0 <= from <= to <= text.len()
            &&& r == #[trigger] text.subrange(from, to)
            &&& forall|i: int| 0 <= i < from || to <= i < text.len() ==> white(#[trigger] text[i])
            &&& from < to ==> !white(text[from]) && !white(text[to - 1])
        }
}

/// `str::trim`: the text without the white space at its ends.
#[verifier::external_body]
fn trim(text: &str) -> (r: &str)
    ensures
        trimmed(text@, r@),
{
    text.trim()
}

/// `out` is an outcome of tokenizing a text.
pub closed spec fn tokenized(
    tokenizer: ::tokenizers::Tokenizer,
    text: Seq<char>,
    special: bool,
    out: std::result::Result<Vec<u32>, String>,
) -> bool {
    exists|given: &str| #[trigger]
        call_ensures(tokenize, (&tokenizer, given, special), out) && given@ == text
}

/// `out` is an outcome of decoding identifiers.
pub closed spec fn untokenized(
    tokenizer: ::tokenizers::Tokenizer,
    ids: Seq<u32>,
    skip: bool,
    out: std::result::Result<String, String>,
) -> bool {
    exists|given: &[u32]| #[trigger]
        call_ensures(untokenize, (&tokenizer, given, skip), out) && given@ == ids
}

/// `out` is an outcome of reading a text as JSON.
pub closed spec fn scanned(
    text: Seq<u8>,
    out: std::result::Result<::serde_json::Value, String>,
) -> bool {
    exists|given: &[u8]| #[trigger] call_ensures(read_json, (given,), out) && given@ == text
}

/// `json` has the parts of a value.
pub closed spec fn turned(value: ::serde_json::Value, json: Json) -> bool {
    call_ensures(convert, (&value,), json)
}

/// `out` is an outcome of writing a value.
pub closed spec fn written(
    value: ::serde_json::Value,
    out: std::result::Result<Vec<u8>, String>,
) -> bool {
    call_ensures(write_json, (&value,), out)
}

/// `out` is an outcome of reading the description of a tokenizer.
pub closed spec fn parsed(
    json: Seq<u8>,
    out: std::result::Result<::tokenizers::Tokenizer, String>,
) -> bool {
    exists|given: &[u8]| #[trigger] call_ensures(parse, (given,), out) && given@ == json
}

/// `r` is an outcome of making a tokenizer of a value with the given parts: one that is
/// not plain is refused.
pub open spec fn made(
    value: ::serde_json::Value,
    json: Json,
    r: std::result::Result<::tokenizers::Tokenizer, Seq<char>>,
) -> bool {
    if !plain(json) {
        r == Err::<::tokenizers::Tokenizer, Seq<char>>("unsupported tokenizer"@)
    } else {
        exists|text: std::result::Result<Vec<u8>, String>| #[trigger]
            written(value, text) && match text {
                Err(why) => r == Err::<::tokenizers::Tokenizer, Seq<char>>(why@),
                Ok(text) => exists|out: std::result::Result<::tokenizers::Tokenizer, String>|
                 #[trigger]
                    parsed(text@, out) && match out {
                        Err(why) => r == Err::<::tokenizers::Tokenizer, Seq<char>>(why@),
                        Ok(tokenizer) => r == Ok::<::tokenizers::Tokenizer, Seq<char>>(tokenizer),
                    },
            }
    }
}

/// `r` is an outcome of making a tokenizer of what a file holds.
pub open spec fn loaded(
    file: Seq<u8>,
    r: std::result::Result<::tokenizers::Tokenizer, Seq<char>>,
) -> bool {
    exists|value: std::result::Result<::serde_json::Value, String>| #[trigger]
        scanned(file, value) && match value {
            Err(why) => r == Err::<::tokenizers::Tokenizer, Seq<char>>(why@),
            Ok(value) => exists|json: Json| #[trigger] turned(value, json) && made(value, json, r),
        }
}

/// Makes a tokenizer of a value.
fn make(value: &::serde_json::Value) -> (r: std::result::Result<::tokenizers::Tokenizer, String>)
    ensures
        match r {
            Ok(tokenizer) => plainly_made(tokenizer) && exists|json: Json| #[trigger]
                turned(*value, json) && made(*value, json, Ok(tokenizer)),
            Err(why) => exists|json: Json| #[trigger]
                turned(*value, json) && made(*value, json, Err(why@)),
        },
{
    let json = convert(value);
    assert(turned(*value, json));
    if !is_plain(&json) {
        return Err(owned("unsupported tokenizer"));
    }
    let text = write_json(value);
    assert(written(*value, text));
    match text {
        Err(why) => Err(why),
        Ok(text) => {
            let given = text.as_slice();
            assert(describes_plainly(given@));
            let out = parse(given);
            assert(call_ensures(parse, (given,), out));
            assert(parsed(text@, out));
            out
        },
    }
}

/// `size` is a number of tokens, with those that were added, that a tokenizer gave.
pub closed spec fn sized(tokenizer: ::tokenizers::Tokenizer, size: usize) -> bool {
    call_ensures(vocabulary, (&tokenizer, true), size)
}

/// The prompt of a single turn of a user.
pub open spec fn turn(prompt: Seq<char>) -> Seq<char> {
    "<|turn>user\n"@ + prompt + "<turn|>\n<|turn>model\n"@
}

/// The tokenizer of a checkpoint.
pub struct Gemma4Tokenizer {
    inner: ::tokenizers::Tokenizer,
}

impl Gemma4Tokenizer {
    #[verifier::type_invariant]
    spec fn wf(self) -> bool {
        plainly_made(self.inner)
    }

    /// The tokenizer of the `tokenizers` crate.
    pub closed spec fn tokenizer(self) -> ::tokenizers::Tokenizer {
        self.inner
    }

    /// The outcome of encoding a text: what the tokenizer gave for it.
    pub open spec fn encodes(self, text: Seq<char>, special: bool, r: Result<Vec<u32>>) -> bool {
        exists|out: std::result::Result<Vec<u32>, String>| #[trigger]
            tokenized(self.tokenizer(), text, special, out) && match out {
                Ok(ids) => r matches Ok(found) && found@ == ids@,
                Err(why) => r matches Err(error) && error@ == Failure::Execution(
                    "Gemma 4 tokenization failed: "@ + why@,
                ),
            }
    }

    /// Reads the tokenizer from what the file `tokenizer.json` at `path` holds, or from
    /// why it could not be read.
    pub fn from_pretrained(path: &str, file: std::result::Result<Vec<u8>, String>) -> (r: Result<
        Gemma4Tokenizer,
    >)
        ensures
            match file {
                Err(why) => r matches Err(error) && error@ == Failure::Execution(
                    "failed to load "@ + path@ + ": "@ + why@,
                ),
                Ok(bytes) => match r {
                    Ok(tokenizer) => loaded(bytes@, Ok(tokenizer.tokenizer())),
                    Err(error) => exists|why: Seq<char>| #[trigger]
                        loaded(bytes@, Err(why)) && error@ == Failure::Execution(
                            "failed to load "@ + path@ + ": "@ + why,
                        ),
                },
            },
    {
        let out = match file {
            Ok(bytes) => {
                let given = bytes.as_slice();
                let value = read_json(given);
                assert(call_ensures(read_json, (given,), value));
                assert(scanned(bytes@, value));
                match value {
                    Ok(value) => {
                        let out = make(&value);
                        assert(out is Ok ==> loaded(bytes@, Ok(out->Ok_0)));
                        assert(out is Err ==> loaded(bytes@, Err(out->Err_0@)));
                        out
                    },
                    Err(why) => {
                        assert(loaded(bytes@, Err(why@)));
                        Err(why)
                    },
                }
            },
            Err(why) => Err(why),
        };
        match out {
            Ok(inner) => Ok(Gemma4Tokenizer { inner }),
            Err(why) => {
                let mut message = owned("failed to load ");
                message.append(path);
                message.append(": ");
                message.append(why.as_str());
                Err(Error::Execution(message))
            },
        }
    }

    /// Encodes text with the normalizer, the pre-tokenizer, the model and the
    /// post-processor of the checkpoint.
    pub fn encode(&self, text: &str, add_special_tokens: bool) -> (r: Result<Vec<u32>>)
        ensures
            self.encodes(text@, add_special_tokens, r),
    {
        proof {
            use_type_invariant(self);
        }
        let out = tokenize(&self.inner, text, add_special_tokens);
        assert(call_ensures(tokenize, (&self.inner, text, add_special_tokens), out));
        assert(tokenized(self.tokenizer(), text@, add_special_tokens, out));
        match out {
            Ok(ids) => Ok(ids),
            Err(why) => {
                let mut message = owned("Gemma 4 tokenization failed: ");
                message.append(why.as_str());
                Err(Error::Execution(message))
            },
        }
    }

    /// Formats and encodes the prompt of a single turn.
    pub fn encode_user_turn(&self, prompt: &str) -> (r: Result<Vec<u32>>)
        ensures
            exists|text: Seq<char>| #[trigger]
                trimmed(prompt@, text) && self.encodes(turn(text), true, r),
    {
        let text = trim(prompt);
        let mut message = owned("<|turn>user\n");
        message.append(text);
        message.append("<turn|>\n<|turn>model\n");
        assert(message@ == turn(text@));
        self.encode(message.as_str(), true)
    }

    /// Decodes identifiers, with the special tokens or without.
    pub fn decode(&self, ids: &Vec<u32>, skip_special_tokens: bool) -> (r: Result<String>)
        ensures
            exists|out: std::result::Result<String, String>| #[trigger]
                untokenized(self.tokenizer(), ids@, skip_special_tokens, out) && match out {
                    Ok(text) => r matches Ok(found) && found@ == text@,
                    Err(why) => r matches Err(error) && error@ == Failure::Execution(
                        "Gemma 4 decoding failed: "@ + why@,
                    ),
                },
    {
        proof {
            use_type_invariant(self);
        }
        let given = ids.as_slice();
        let out = untokenize(&self.inner, given, skip_special_tokens);
        assert(call_ensures(untokenize, (&self.inner, given, skip_special_tokens), out));
        assert(untokenized(self.tokenizer(), ids@, skip_special_tokens, out));
        match out {
            Ok(text) => Ok(text),
            Err(why) => {
                let mut message = owned("Gemma 4 decoding failed: ");
                message.append(why.as_str());
                Err(Error::Execution(message))
            },
        }
    }

    /// The number of tokens, with those that were added to the model.
    #[must_use]
    pub fn vocabulary_size(&self) -> (r: usize)
        ensures
            sized(self.tokenizer(), r),
    {
        vocabulary(&self.inner, true)
    }
}

} // verus!
