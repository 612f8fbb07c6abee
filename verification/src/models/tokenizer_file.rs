//! Which `tokenizer.json` files are read: those made of parts whose use cannot go wrong.

use crate::text::{has_prefix, owned, starts};
use vstd::prelude::*;
use vstd::utf8::encode_utf8;

verus! {

/// A JSON value.  Of a number only a count is kept.
pub enum Json {
    Null,
    Bool(bool),
    Number(Option<u64>),
    Text(String),
    List(Vec<Json>),
    Object(Vec<(String, Json)>),
}

/// The bytes of a text.
pub open spec fn size(text: Seq<char>) -> usize {
    encode_utf8(text).len() as usize
}

/// The value under a key; the last where there are more.
pub open spec fn member(members: Seq<(String, Json)>, key: Seq<char>) -> Option<Json>
    decreases members.len(),
{
    if members.len() == 0 {
        None
    } else if members.last().0@ == key {
        Some(members.last().1)
    } else {
        member(members.drop_last(), key)
    }
}

/// The value under a key; the last where there are more.
fn find<'a>(members: &'a Vec<(String, Json)>, key: &str) -> (r: Option<&'a Json>)
    ensures
        match r {
            Some(json) => member(members@, key@) == Some(*json),
            None => member(members@, key@) is None,
        },
{
    let wanted = owned(key);
    let mut i: usize = members.len();
    assert(members@.take(i as int) =~= members@);
    while i > 0
        invariant
            i <= members.len(),
            wanted@ == key@,
            member(members@, key@) == member(members@.take(i as int), key@),
        decreases i,
    {
        i = i - 1;
        assert(members@.take(i + 1).drop_last() =~= members@.take(i as int));
        if members[i].0 == wanted {
            return Some(&members[i].1);
        }
    }
    assert(members@.take(0) =~= Seq::empty());
    None
}

/// The text under a key.
pub open spec fn text_member(members: Seq<(String, Json)>, key: Seq<char>) -> Option<Seq<char>> {
    match member(members, key) {
        Some(Json::Text(text)) => Some(text@),
        _ => None,
    }
}

/// The text under a key.
fn find_text<'a>(members: &'a Vec<(String, Json)>, key: &str) -> (r: Option<&'a String>)
    ensures
        match r {
            Some(text) => text_member(members@, key@) == Some(text@),
            None => text_member(members@, key@) is None,
        },
{
    match find(members, key) {
        Some(Json::Text(text)) => Some(text),
        _ => None,
    }
}

/// Nothing stands under the key.
pub open spec fn open_at(members: Seq<(String, Json)>, key: Seq<char>) -> bool {
    match member(members, key) {
        None => true,
        Some(json) => json is Null,
    }
}

/// Nothing stands under the key.
fn is_open_at(members: &Vec<(String, Json)>, key: &str) -> (r: bool)
    ensures
        r == open_at(members@, key@),
{
    match find(members, key) {
        None => true,
        Some(Json::Null) => true,
        _ => false,
    }
}

/// The part is of the named kind.
pub open spec fn of_kind(members: Seq<(String, Json)>, kind: Seq<char>) -> bool {
    text_member(members, "type"@) == Some(kind)
}

/// The part is of the named kind.
fn is_of_kind(members: &Vec<(String, Json)>, kind: &str) -> (r: bool)
    ensures
        r == of_kind(members@, kind@),
{
    let wanted = owned(kind);
    match find_text(members, "type") {
        Some(text) => *text == wanted,
        None => false,
    }
}

/// The part looks for a text that is written out and not empty.
pub open spec fn literal(members: Seq<(String, Json)>) -> bool {
    match member(members, "pattern"@) {
        Some(Json::Object(pattern)) => pattern@.len() == 1 && (text_member(
            pattern@,
            "String"@,
        ) matches Some(text) && size(text) > 0),
        _ => false,
    }
}

/// The part looks for a text that is written out and not empty.
fn is_literal(members: &Vec<(String, Json)>) -> (r: bool)
    ensures
        r == literal(members@),
{
    match find(members, "pattern") {
        Some(Json::Object(pattern)) => {
            if pattern.len() != 1 {
                return false;
            }
            match find_text(pattern, "String") {
                Some(text) => text.as_str().len() > 0,
                None => false,
            }
        },
        _ => false,
    }
}

/// A normalizer that replaces a text by another, puts one in front, or lowers letters.
pub open spec fn replaces(json: Json) -> bool {
    json matches Json::Object(members) && (of_kind(members@, "Lowercase"@) || (of_kind(
        members@,
        "Prepend"@,
    ) && (text_member(members@, "prepend"@) matches Some(text) && size(text) > 0)) || (of_kind(
        members@,
        "Replace"@,
    ) && literal(members@) && (text_member(members@, "content"@) matches Some(text) && size(text)
        > 0)))
}

/// A normalizer that replaces a text by another, puts one in front, or lowers letters.
fn is_replacing(json: &Json) -> (r: bool)
    ensures
        r == replaces(*json),
{
    match json {
        Json::Object(members) => {
            if is_of_kind(members, "Lowercase") {
                return true;
            }
            if is_of_kind(members, "Prepend") {
                if let Some(text) = find_text(members, "prepend") {
                    if text.as_str().len() > 0 {
                        return true;
                    }
                }
            }
            if !is_of_kind(members, "Replace") || !is_literal(members) {
                return false;
            }
            match find_text(members, "content") {
                Some(text) => text.as_str().len() > 0,
                None => false,
            }
        },
        _ => false,
    }
}

/// Such normalizers, one after the other.
pub open spec fn normalizes(json: Json) -> bool {
    ||| replaces(json)
    ||| json matches Json::Object(members) && of_kind(members@, "Sequence"@) && (member(
        members@,
        "normalizers"@,
    ) matches Some(Json::List(parts)) && forall|i: int|
        0 <= i < parts@.len() ==> replaces(#[trigger] parts@[i]))
}

/// Every part is such a normalizer.
fn all_replacing(parts: &Vec<Json>) -> (r: bool)
    ensures
        r == (forall|i: int| 0 <= i < parts@.len() ==> replaces(#[trigger] parts@[i])),
{
    let mut i: usize = 0;
    while i < parts.len()
        invariant
            i <= parts.len(),
            forall|j: int| 0 <= j < i ==> replaces(#[trigger] parts@[j]),
        decreases parts.len() - i,
    {
        if !is_replacing(&parts[i]) {
            return false;
        }
        i = i + 1;
    }
    true
}

/// Such normalizers, one after the other.
fn is_normalizing(json: &Json) -> (r: bool)
    ensures
        r == normalizes(*json),
{
    if is_replacing(json) {
        return true;
    }
    match json {
        Json::Object(members) => {
            if !is_of_kind(members, "Sequence") {
                return false;
            }
            match find(members, "normalizers") {
                Some(Json::List(parts)) => all_replacing(parts),
                _ => false,
            }
        },
        _ => false,
    }
}

/// A split at white space, at a text, at digits or punctuation, or into bytes.
pub open spec fn splits_alone(json: Json) -> bool {
    json matches Json::Object(members) && (of_kind(members@, "Whitespace"@) || of_kind(
        members@,
        "WhitespaceSplit"@,
    ) || of_kind(members@, "ByteLevel"@) || of_kind(members@, "Digits"@) || of_kind(
        members@,
        "Metaspace"@,
    ) || of_kind(members@, "Punctuation"@) || of_kind(members@, "BertPreTokenizer"@) || (of_kind(
        members@,
        "Split"@,
    ) && literal(members@)))
}

/// A split at white space, at a text, at digits or punctuation, or into bytes.
fn is_splitting_alone(json: &Json) -> (r: bool)
    ensures
        r == splits_alone(*json),
{
    match json {
        Json::Object(members) => is_of_kind(members, "Whitespace") || is_of_kind(
            members,
            "WhitespaceSplit",
        ) || is_of_kind(members, "ByteLevel") || is_of_kind(members, "Digits") || is_of_kind(
            members,
            "Metaspace",
        ) || is_of_kind(members, "Punctuation") || is_of_kind(members, "BertPreTokenizer") || (
        is_of_kind(members, "Split") && is_literal(members)),
        _ => false,
    }
}

/// Such splits, one after the other.
pub open spec fn splits(json: Json) -> bool {
    ||| splits_alone(json)
    ||| json matches Json::Object(members) && of_kind(members@, "Sequence"@) && (member(
        members@,
        "pretokenizers"@,
    ) matches Some(Json::List(parts)) && forall|i: int|
        0 <= i < parts@.len() ==> splits_alone(#[trigger] parts@[i]))
}

/// Every part is such a split.
fn all_splitting_alone(parts: &Vec<Json>) -> (r: bool)
    ensures
        r == (forall|i: int| 0 <= i < parts@.len() ==> splits_alone(#[trigger] parts@[i])),
{
    let mut i: usize = 0;
    while i < parts.len()
        invariant
            i <= parts.len(),
            forall|j: int| 0 <= j < i ==> splits_alone(#[trigger] parts@[j]),
        decreases parts.len() - i,
    {
        if !is_splitting_alone(&parts[i]) {
            return false;
        }
        i = i + 1;
    }
    true
}

/// Such splits, one after the other.
fn is_splitting(json: &Json) -> (r: bool)
    ensures
        r == splits(*json),
{
    if is_splitting_alone(json) {
        return true;
    }
    match json {
        Json::Object(members) => {
            if !is_of_kind(members, "Sequence") {
                return false;
            }
            match find(members, "pretokenizers") {
                Some(Json::List(parts)) => all_splitting_alone(parts),
                _ => false,
            }
        },
        _ => false,
    }
}

/// A decoder that replaces a text, reads bytes or white space, or joins.
pub open spec fn decodes_alone(json: Json) -> bool {
    json matches Json::Object(members) && (of_kind(members@, "ByteFallback"@) || of_kind(
        members@,
        "Fuse"@,
    ) || of_kind(members@, "ByteLevel"@) || of_kind(members@, "Metaspace"@) || of_kind(
        members@,
        "WordPiece"@,
    ) || (of_kind(members@, "Replace"@) && literal(members@)))
}

/// A decoder that replaces a text, reads bytes or white space, or joins.
fn is_decoding_alone(json: &Json) -> (r: bool)
    ensures
        r == decodes_alone(*json),
{
    match json {
        Json::Object(members) => is_of_kind(members, "ByteFallback") || is_of_kind(members, "Fuse")
            || is_of_kind(members, "ByteLevel") || is_of_kind(members, "Metaspace") || is_of_kind(
            members,
            "WordPiece",
        ) || (is_of_kind(members, "Replace") && is_literal(members)),
        _ => false,
    }
}

/// Such decoders, one after the other.
pub open spec fn decodes(json: Json) -> bool {
    ||| decodes_alone(json)
    ||| json matches Json::Object(members) && of_kind(members@, "Sequence"@) && (member(
        members@,
        "decoders"@,
    ) matches Some(Json::List(parts)) && forall|i: int|
        0 <= i < parts@.len() ==> decodes_alone(#[trigger] parts@[i]))
}

/// Every part is such a decoder.
fn all_decoding_alone(parts: &Vec<Json>) -> (r: bool)
    ensures
        r == (forall|i: int| 0 <= i < parts@.len() ==> decodes_alone(#[trigger] parts@[i])),
{
    let mut i: usize = 0;
    while i < parts.len()
        invariant
            i <= parts.len(),
            forall|j: int| 0 <= j < i ==> decodes_alone(#[trigger] parts@[j]),
        decreases parts.len() - i,
    {
        if !is_decoding_alone(&parts[i]) {
            return false;
        }
        i = i + 1;
    }
    true
}

/// Such decoders, one after the other.
fn is_decoding(json: &Json) -> (r: bool)
    ensures
        r == decodes(*json),
{
    if is_decoding_alone(json) {
        return true;
    }
    match json {
        Json::Object(members) => {
            if !is_of_kind(members, "Sequence") {
                return false;
            }
            match find(members, "decoders") {
                Some(Json::List(parts)) => all_decoding_alone(parts),
                _ => false,
            }
        },
        _ => false,
    }
}

/// The tokens that stand for a special one.
pub open spec fn identified(special: Option<Json>) -> Option<nat> {
    match special {
        Some(Json::Object(parts)) => match member(parts@, "ids"@) {
            Some(Json::List(ids)) => Some(ids@.len()),
            _ => None,
        },
        _ => None,
    }
}

/// The tokens that stand for a special one.
fn count_ids(special: Option<&Json>) -> (r: Option<usize>)
    ensures
        match special {
            Some(json) => match r {
                Some(count) => identified(Some(*json)) == Some(count as nat),
                None => identified(Some(*json)) is None,
            },
            None => r is None,
        },
{
    match special {
        Some(Json::Object(parts)) => match find(parts, "ids") {
            Some(Json::List(ids)) => Some(ids.len()),
            _ => None,
        },
        _ => None,
    }
}

/// A piece of a template: the text, or a special token that there is.
pub open spec fn fits_in(specials: Seq<(String, Json)>, piece: Json) -> bool {
    piece matches Json::Object(members) && members@.len() == 1 && match (
        member(members@, "Sequence"@),
        member(members@, "SpecialToken"@),
    ) {
        (Some(Json::Object(place)), None) => text_member(place@, "id"@) == Some("A"@),
        (None, Some(Json::Object(place))) => text_member(place@, "id"@) matches Some(id)
            && identified(member(specials, id)) is Some,
        _ => false,
    }
}

/// A piece of a template: the text, or a special token that there is.
fn is_fitting_in(specials: &Vec<(String, Json)>, piece: &Json) -> (r: bool)
    ensures
        r == fits_in(specials@, *piece),
{
    match piece {
        Json::Object(members) => {
            if members.len() != 1 {
                return false;
            }
            let first = owned("A");
            match (find(members, "Sequence"), find(members, "SpecialToken")) {
                (Some(Json::Object(place)), None) => match find_text(place, "id") {
                    Some(id) => *id == first,
                    None => false,
                },
                (None, Some(Json::Object(place))) => match find_text(place, "id") {
                    Some(id) => count_ids(find(specials, id.as_str())).is_some(),
                    None => false,
                },
                _ => false,
            }
        },
        _ => false,
    }
}

/// A template whose pieces there are, or what leaves tokens as they are.
pub open spec fn templates(json: Json) -> bool {
    json matches Json::Object(members) && (of_kind(members@, "ByteLevel"@) || (of_kind(
        members@,
        "TemplateProcessing"@,
    ) && match (member(members@, "special_tokens"@), member(members@, "single"@)) {
        (Some(Json::Object(specials)), Some(Json::List(pieces))) => forall|i: int|
            0 <= i < pieces@.len() ==> fits_in(specials@, #[trigger] pieces@[i]),
        _ => false,
    }))
}

/// Every piece is there.
fn all_fitting_in(specials: &Vec<(String, Json)>, pieces: &Vec<Json>) -> (r: bool)
    ensures
        r == (forall|i: int| 0 <= i < pieces@.len() ==> fits_in(specials@, #[trigger] pieces@[i])),
{
    let mut i: usize = 0;
    while i < pieces.len()
        invariant
            i <= pieces.len(),
            forall|j: int| 0 <= j < i ==> fits_in(specials@, #[trigger] pieces@[j]),
        decreases pieces.len() - i,
    {
        if !is_fitting_in(specials, &pieces[i]) {
            return false;
        }
        i = i + 1;
    }
    true
}

/// A template whose pieces there are, or what leaves tokens as they are.
fn is_template(json: &Json) -> (r: bool)
    ensures
        r == templates(*json),
{
    match json {
        Json::Object(members) => {
            if is_of_kind(members, "ByteLevel") {
                return true;
            }
            if !is_of_kind(members, "TemplateProcessing") {
                return false;
            }
            match (find(members, "special_tokens"), find(members, "single")) {
                (Some(Json::Object(specials)), Some(Json::List(pieces))) => all_fitting_in(specials, pieces),
                _ => false,
            }
        },
        _ => false,
    }
}

/// The tokens that a piece of a template adds.
pub open spec fn adds_tokens(specials: Seq<(String, Json)>, piece: Json) -> nat {
    match piece {
        Json::Object(members) => match member(members@, "SpecialToken"@) {
            Some(Json::Object(place)) => match text_member(place@, "id"@) {
                Some(id) => match identified(member(specials, id)) {
                    Some(count) => count,
                    None => 0,
                },
                None => 0,
            },
            _ => 0,
        },
        _ => 0,
    }
}

/// The tokens that a piece of a template adds.
fn count_added(specials: &Vec<(String, Json)>, piece: &Json) -> (r: usize)
    ensures
        r == adds_tokens(specials@, *piece),
{
    match piece {
        Json::Object(members) => match find(members, "SpecialToken") {
            Some(Json::Object(place)) => match find_text(place, "id") {
                Some(id) => match count_ids(find(specials, id.as_str())) {
                    Some(count) => count,
                    None => 0,
                },
                None => 0,
            },
            _ => 0,
        },
        _ => 0,
    }
}

/// The tokens that the pieces of a template add.
pub open spec fn all_added(specials: Seq<(String, Json)>, pieces: Seq<Json>) -> nat
    decreases pieces.len(),
{
    if pieces.len() == 0 {
        0
    } else {
        all_added(specials, pieces.drop_last()) + adds_tokens(specials, pieces.last())
    }
}

proof fn lemma_all_added(specials: Seq<(String, Json)>, pieces: Seq<Json>, n: int)
    requires
        0 <= n <= pieces.len(),
    ensures
        all_added(specials, pieces.take(n)) <= all_added(specials, pieces),
    decreases pieces.len(),
{
    if n < pieces.len() {
        lemma_all_added(specials, pieces.drop_last(), n);
        assert(pieces.drop_last().take(n) =~= pieces.take(n));
    } else {
        assert(pieces.take(n) =~= pieces);
    }
}

/// The tokens that the pieces of a template add, where they can be counted.
fn sum_added(specials: &Vec<(String, Json)>, pieces: &Vec<Json>) -> (r: Option<usize>)
    ensures
        match r {
            Some(count) => count == all_added(specials@, pieces@),
            None => all_added(specials@, pieces@) > usize::MAX,
        },
{
    let mut total: usize = 0;
    let mut i: usize = 0;
    assert(pieces@.take(0) =~= Seq::empty());
    while i < pieces.len()
        invariant
            i <= pieces.len(),
            total == all_added(specials@, pieces@.take(i as int)),
        decreases pieces.len() - i,
    {
        proof {
            assert(pieces@.take(i + 1).drop_last() =~= pieces@.take(i as int));
            lemma_all_added(specials@, pieces@, i + 1);
        }
        match total.checked_add(count_added(specials, &pieces[i])) {
            Some(next) => {
                total = next;
            },
            None => {
                return None;
            },
        }
        i = i + 1;
    }
    assert(pieces@.take(i as int) =~= pieces@);
    Some(total)
}

/// The tokens that are added to those of a text.
pub open spec fn added_by(members: Seq<(String, Json)>) -> nat {
    match member(members, "post_processor"@) {
        Some(Json::Object(parts)) => match (
            member(parts@, "special_tokens"@),
            member(parts@, "single"@),
        ) {
            (Some(Json::Object(specials)), Some(Json::List(pieces))) => all_added(
                specials@,
                pieces@,
            ),
            _ => 0,
        },
        _ => 0,
    }
}

/// The tokens that are added to those of a text, where they can be counted.
fn sum_added_by(members: &Vec<(String, Json)>) -> (r: Option<usize>)
    ensures
        match r {
            Some(count) => count == added_by(members@),
            None => added_by(members@) > usize::MAX,
        },
{
    match find(members, "post_processor") {
        Some(Json::Object(parts)) => match (find(parts, "special_tokens"), find(parts, "single")) {
            (Some(Json::Object(specials)), Some(Json::List(pieces))) => sum_added(specials, pieces),
            _ => Some(0),
        },
        _ => Some(0),
    }
}

/// A number under a key.
pub open spec fn number_member(members: Seq<(String, Json)>, key: Seq<char>) -> Option<u64> {
    match member(members, key) {
        Some(Json::Number(number)) => number,
        _ => None,
    }
}

/// A number under a key.
fn find_number(members: &Vec<(String, Json)>, key: &str) -> (r: Option<u64>)
    ensures
        r == number_member(members@, key@),
{
    match find(members, key) {
        Some(Json::Number(number)) => *number,
        _ => None,
    }
}

/// A cut that leaves more tokens than are added and shared with the next part.
pub open spec fn cuts(json: Json, added: nat) -> bool {
    json matches Json::Object(members) && match (
        number_member(members@, "max_length"@),
        number_member(members@, "stride"@),
    ) {
        (Some(most), Some(stride)) => stride + added < most,
        _ => false,
    }
}

/// A cut that leaves more tokens than are added and shared with the next part.
fn is_cutting(json: &Json, added: usize) -> (r: bool)
    ensures
        r == cuts(*json, added as nat),
{
    let found: u64 = added as u64;
    match json {
        Json::Object(members) => match (
            find_number(members, "max_length"),
            find_number(members, "stride"),
        ) {
            (Some(most), Some(stride)) => stride < most && found < most - stride,
            _ => false,
        },
        _ => false,
    }
}

/// Numbers of tokens leave room for as many again.
pub const MOST_TOKENS: u64 = 0x7fff_ffff;

/// A vocabulary whose numbers leave room.
pub open spec fn numbers(vocabulary: Seq<(String, Json)>) -> bool {
    forall|i: int|
        0 <= i < vocabulary.len() ==> ((#[trigger] vocabulary[i]).1 matches Json::Number(Some(n))
            && n <= MOST_TOKENS)
}

/// A vocabulary whose numbers leave room.
fn is_numbering(vocabulary: &Vec<(String, Json)>) -> (r: bool)
    ensures
        r == numbers(vocabulary@),
{
    let mut i: usize = 0;
    while i < vocabulary.len()
        invariant
            i <= vocabulary.len(),
            forall|j: int|
                0 <= j < i ==> ((#[trigger] vocabulary@[j]).1 matches Json::Number(Some(n)) && n
                    <= MOST_TOKENS),
        decreases vocabulary.len() - i,
    {
        match &vocabulary[i].1 {
            Json::Number(Some(n)) => {
                if *n > MOST_TOKENS {
                    return false;
                }
            },
            _ => {
                return false;
            },
        }
        i = i + 1;
    }
    true
}

/// Some token has so many bytes.
pub open spec fn reaches_to(vocabulary: Seq<(String, Json)>, len: int) -> bool {
    exists|i: int| 0 <= i < vocabulary.len() && len <= size((#[trigger] vocabulary[i]).0@)
}

/// The bytes of the longest token.
fn longest(vocabulary: &Vec<(String, Json)>) -> (r: Option<usize>)
    ensures
        match r {
            Some(most) => forall|len: int| #[trigger] reaches_to(vocabulary@, len) == (len <= most),
            None => vocabulary@.len() == 0,
        },
{
    if vocabulary.len() == 0 {
        return None;
    }
    let mut most: usize = vocabulary[0].0.as_str().len();
    let mut i: usize = 1;
    let ghost mut at: int = 0;
    while i < vocabulary.len()
        invariant
            1 <= i <= vocabulary.len(),
            0 <= at < i,
            most == size(vocabulary@[at].0@),
            forall|j: int| 0 <= j < i ==> size((#[trigger] vocabulary@[j]).0@) <= most,
        decreases vocabulary.len() - i,
    {
        let len: usize = vocabulary[i].0.as_str().len();
        if len > most {
            most = len;
            proof {
                at = i as int;
            }
        }
        i = i + 1;
    }
    assert forall|len: int| #[trigger] reaches_to(vocabulary@, len) == (len <= most) by {
        if len <= most {
            assert(len <= size(vocabulary@[at].0@));
        }
    }
    Some(most)
}

/// What a merge of a byte-pair encoding joins is no longer than the longest token; its
/// second part begins with what marks the rest of a word.
pub open spec fn merges(vocabulary: Seq<(String, Json)>, prefix: Seq<char>, merge: Json) -> bool {
    match merge {
        Json::List(pair) => pair@.len() == 2 && match (pair@[0], pair@[1]) {
            (Json::Text(a), Json::Text(b)) => starts(b@, prefix) && size(prefix) <= size(b@)
                && reaches_to(vocabulary, size(a@) + size(b@) - size(prefix)),
            _ => false,
        },
        Json::Text(both) => size(prefix) == 0 && reaches_to(vocabulary, size(both@) - 1),
        _ => false,
    }
}

/// What a merge of a byte-pair encoding joins is no longer than the longest token; its
/// second part begins with what marks the rest of a word.
fn is_merging(vocabulary: &Vec<(String, Json)>, most: usize, prefix: &str, merge: &Json) -> (r:
    bool)
    requires
        forall|len: int| #[trigger] reaches_to(vocabulary@, len) == (len <= most),
    ensures
        r == merges(vocabulary@, prefix@, *merge),
{
    let marked: usize = prefix.len();
    assert(marked == size(prefix@));
    match merge {
        Json::List(pair) => {
            if pair.len() != 2 {
                return false;
            }
            match (&pair[0], &pair[1]) {
                (Json::Text(a), Json::Text(b)) => {
                    let first: usize = a.as_str().len();
                    let second: usize = b.as_str().len();
                    assert(first == size(a@) && second == size(b@));
                    assert(reaches_to(vocabulary@, first + second - marked) == (first + second
                        - marked <= most));
                    has_prefix(b.as_str(), prefix) && marked <= second && first <= most && second
                        - marked <= most - first
                },
                _ => false,
            }
        },
        Json::Text(both) => {
            let len: usize = both.as_str().len();
            assert(len == size(both@));
            assert(reaches_to(vocabulary@, len - 1) == (len - 1 <= most));
            marked == 0 && (len == 0 || len - 1 <= most)
        },
        _ => false,
    }
}

/// What marks the rest of a word, nothing where none is given.
pub open spec fn marks(members: Seq<(String, Json)>) -> Option<Seq<char>> {
    if open_at(members, "continuing_subword_prefix"@) {
        Some(""@)
    } else {
        text_member(members, "continuing_subword_prefix"@)
    }
}

/// A vocabulary of words, or a byte-pair encoding whose merges join tokens.
pub open spec fn models(json: Json) -> bool {
    json matches Json::Object(members) && (member(members@, "vocab"@) matches Some(
        Json::Object(vocabulary),
    ) && numbers(vocabulary@) && (of_kind(members@, "WordLevel"@) || (of_kind(members@, "BPE"@)
        && match (marks(members@), member(members@, "merges"@)) {
        (Some(prefix), Some(Json::List(list))) => forall|i: int|
            0 <= i < list@.len() ==> merges(vocabulary@, prefix, #[trigger] list@[i]),
        _ => false,
    })))
}

/// Every merge of a list joins tokens.
fn all_merging(vocabulary: &Vec<(String, Json)>, prefix: &str, list: &Vec<Json>) -> (r: bool)
    ensures
        r == (forall|i: int|
            0 <= i < list@.len() ==> merges(vocabulary@, prefix@, #[trigger] list@[i])),
{
    let most: usize = match longest(vocabulary) {
        Some(most) => most,
        None => {
            assert(forall|len: int| !#[trigger] reaches_to(vocabulary@, len));
            if list.len() > 0 {
                assert(!merges(vocabulary@, prefix@, list@[0]));
            }
            return list.len() == 0;
        },
    };
    let mut i: usize = 0;
    while i < list.len()
        invariant
            i <= list.len(),
            forall|len: int| #[trigger] reaches_to(vocabulary@, len) == (len <= most),
            forall|j: int|
                0 <= j < i ==> merges(vocabulary@, prefix@, #[trigger] list@[j]),
        decreases list.len() - i,
    {
        if !is_merging(vocabulary, most, prefix, &list[i]) {
            return false;
        }
        i = i + 1;
    }
    true
}

/// A vocabulary of words, or a byte-pair encoding whose merges join tokens.
fn is_model(json: &Json) -> (r: bool)
    ensures
        r == models(*json),
{
    let members = match json {
        Json::Object(members) => members,
        _ => {
            return false;
        },
    };
    let vocabulary = match find(members, "vocab") {
        Some(Json::Object(vocabulary)) => vocabulary,
        _ => {
            return false;
        },
    };
    if !is_numbering(vocabulary) {
        return false;
    }
    if is_of_kind(members, "WordLevel") {
        return true;
    }
    if !is_of_kind(members, "BPE") {
        return false;
    }
    let prefix: &str = if is_open_at(members, "continuing_subword_prefix") {
        ""
    } else {
        match find_text(members, "continuing_subword_prefix") {
            Some(text) => text.as_str(),
            None => {
                return false;
            },
        }
    };
    match find(members, "merges") {
        Some(Json::List(list)) => all_merging(vocabulary, prefix, list),
        _ => false,
    }
}

/// A token that is looked for as it stands.
pub open spec fn stands_alone(json: Json) -> bool {
    json matches Json::Object(members) && text_member(members@, "content"@) is Some && member(
        members@,
        "single_word"@,
    ) == Some(Json::Bool(false)) && member(members@, "lstrip"@) == Some(Json::Bool(false))
        && member(members@, "rstrip"@) == Some(Json::Bool(false))
}

/// The value under a key is no.
fn is_no(members: &Vec<(String, Json)>, key: &str) -> (r: bool)
    ensures
        r == (member(members@, key@) == Some(Json::Bool(false))),
{
    match find(members, key) {
        Some(Json::Bool(answer)) => !*answer,
        _ => false,
    }
}

/// A token that is looked for as it stands.
fn is_standing_alone(json: &Json) -> (r: bool)
    ensures
        r == stands_alone(*json),
{
    match json {
        Json::Object(members) => find_text(members, "content").is_some() && is_no(
            members,
            "single_word",
        ) && is_no(members, "lstrip") && is_no(members, "rstrip"),
        _ => false,
    }
}

/// Tokens that are looked for as they stand.
pub open spec fn adds(members: Seq<(String, Json)>) -> bool {
    match member(members, "added_tokens"@) {
        None => true,
        Some(Json::List(tokens)) => forall|i: int|
            0 <= i < tokens@.len() ==> stands_alone(#[trigger] tokens@[i]),
        _ => false,
    }
}

/// Every token is looked for as it stands.
fn all_standing_alone(tokens: &Vec<Json>) -> (r: bool)
    ensures
        r == (forall|i: int| 0 <= i < tokens@.len() ==> stands_alone(#[trigger] tokens@[i])),
{
    let mut i: usize = 0;
    while i < tokens.len()
        invariant
            i <= tokens.len(),
            forall|j: int| 0 <= j < i ==> stands_alone(#[trigger] tokens@[j]),
        decreases tokens.len() - i,
    {
        if !is_standing_alone(&tokens[i]) {
            return false;
        }
        i = i + 1;
    }
    true
}

/// Tokens that are looked for as they stand.
fn is_adding(members: &Vec<(String, Json)>) -> (r: bool)
    ensures
        r == adds(members@),
{
    match find(members, "added_tokens") {
        None => true,
        Some(Json::List(tokens)) => all_standing_alone(tokens),
        _ => false,
    }
}

/// A tokenizer of such parts, which does not pad, and cuts where that leaves something.
pub open spec fn plain(json: Json) -> bool {
    json matches Json::Object(members) && {
        &&& open_at(members@, "truncation"@) || (added_by(members@) <= usize::MAX && (member(
            members@,
            "truncation"@,
        ) matches Some(part) && cuts(part, added_by(members@))))
        &&& open_at(members@, "padding"@)
        &&& open_at(members@, "normalizer"@) || (member(members@, "normalizer"@) matches Some(
            part,
        ) && normalizes(part))
        &&& open_at(members@, "pre_tokenizer"@) || (member(members@, "pre_tokenizer"@) matches Some(
            part,
        ) && splits(part))
        &&& open_at(members@, "post_processor"@) || (member(
            members@,
            "post_processor"@,
        ) matches Some(part) && templates(part))
        &&& open_at(members@, "decoder"@) || (member(members@, "decoder"@) matches Some(part)
            && decodes(part))
        &&& (member(members@, "model"@) matches Some(part) && models(part))
        &&& adds(members@)
    }
}

/// A tokenizer of such parts, which does not pad, and cuts where that leaves something.
pub fn is_plain(json: &Json) -> (r: bool)
    ensures
        r == plain(*json),
{
    let members = match json {
        Json::Object(members) => members,
        _ => {
            return false;
        },
    };
    if !is_open_at(members, "padding") {
        return false;
    }
    let truncation = match find(members, "truncation") {
        None => true,
        Some(Json::Null) => true,
        Some(part) => match sum_added_by(members) {
            Some(added) => is_cutting(part, added),
            None => false,
        },
    };
    let normalizer = match find(members, "normalizer") {
        None => true,
        Some(Json::Null) => true,
        Some(part) => is_normalizing(part),
    };
    let pre_tokenizer = match find(members, "pre_tokenizer") {
        None => true,
        Some(Json::Null) => true,
        Some(part) => is_splitting(part),
    };
    let post_processor = match find(members, "post_processor") {
        None => true,
        Some(Json::Null) => true,
        Some(part) => is_template(part),
    };
    let decoder = match find(members, "decoder") {
        None => true,
        Some(Json::Null) => true,
        Some(part) => is_decoding(part),
    };
    let model = match find(members, "model") {
        Some(part) => is_model(part),
        None => false,
    };
    truncation && normalizer && pre_tokenizer && post_processor && decoder && model && is_adding(members)
}

} // verus!
