//! Checkpoints in the SafeTensors format, with elements of several widths.

use crate::copy::{copies, lemma_data_memoryless};
use crate::error::{Error, Failure, Result};
use crate::graph::{Device, Graph, Op};
use crate::scalar::{decoded, Scalar};
use crate::shape::{lemma_numel_take, numel, overflows, validate_numel, validated_numel};
use crate::tensor::{lemma_extends, Tensor};
use crate::text::{decimal, owned, push_decimal};
use vstd::arithmetic::power2::{lemma2_to64, lemma_pow2_unfold, pow2};
use vstd::prelude::*;

verus! {

/// An opened archive of the `safetensors` crate.
#[verifier::external_type_specification]
#[verifier::external_body]
pub struct ExSafeTensors<'data>(::safetensors::SafeTensors<'data>);

/// What the `safetensors` crate reports of a file that it cannot read.
#[verifier::external_type_specification]
#[verifier::external_body]
pub struct ExSafeTensorError(::safetensors::SafeTensorError);

/// The type of stored elements.
#[derive(Debug, Clone, PartialEq, Eq)]
pub enum Dtype {
    F32,
    F16,
    BF16,
    /// A type that weights cannot have, by its name.
    Other(String),
}

/// The type of stored elements, with its name as a sequence of characters.
pub enum Kind {
    F32,
    F16,
    BF16,
    Other(Seq<char>),
}

impl View for Dtype {
    type V = Kind;

    open spec fn view(&self) -> Kind {
        match self {
            Dtype::F32 => Kind::F32,
            Dtype::F16 => Kind::F16,
            Dtype::BF16 => Kind::BF16,
            Dtype::Other(name) => Kind::Other(name@),
        }
    }
}

/// A stored tensor.
pub struct Entry {
    pub kind: Kind,
    pub shape: Seq<usize>,
    pub bytes: Seq<u8>,
}

/// What `SafeTensors::deserialize` makes of a file on a machine with the given largest
/// count: the tensors by name, or nothing where it refuses the file.
pub uninterp spec fn unpacked(file: Seq<u8>, largest: nat) -> Option<Map<Seq<char>, Entry>>;

/// The tensors that an archive holds.
pub uninterp spec fn archived(archive: ::safetensors::SafeTensors<'_>) -> Map<Seq<char>, Entry>;

/// The bytes that a header may have at most.
pub const LONGEST_HEADER: u64 = 100_000_000;

/// The bytes before the header, which say how many it has.
pub const PREFIX: usize = 8;

/// The number of bytes that a file says its header has.
pub open spec fn header_len(file: Seq<u8>) -> int {
    file[0] + file[1] * 0x100 + file[2] * 0x1_0000 + file[3] * 0x100_0000 + file[4] * 0x1_0000_0000
        + file[5] * 0x100_0000_0000 + file[6] * 0x1_0000_0000_0000 + file[7] * 0x100_0000_0000_0000
}

/// The header of a file: nothing where it says that it has more bytes than it may or
/// than there are.
pub open spec fn header(file: Seq<u8>) -> Seq<u8> {
    if file.len() < PREFIX || header_len(file) > LONGEST_HEADER || header_len(file) + PREFIX
        > file.len() {
        seq![]
    } else {
        file.subrange(PREFIX as int, header_len(file) + PREFIX)
    }
}

/// Where reading JSON stands: inside a text or after a backslash in one, the whole number
/// that ends here, and the largest so far.
pub struct Reading {
    pub quoted: bool,
    pub escaped: bool,
    pub number: nat,
    pub largest: nat,
}

/// Reading one more byte.
pub open spec fn reads(before: Reading, byte: u8) -> Reading {
    if before.quoted {
        Reading {
            quoted: before.escaped || byte != 0x22,
            escaped: !before.escaped && byte == 0x5C,
            number: 0,
            ..before
        }
    } else if 0x30 <= byte <= 0x39 {
        let number = before.number * 10 + (byte - 0x30) as nat;
        Reading {
            number,
            largest: if number > before.largest {
                number
            } else {
                before.largest
            },
            ..before
        }
    } else {
        Reading { quoted: byte == 0x22, number: 0, ..before }
    }
}

/// Reading bytes from the start.
pub open spec fn reading(bytes: Seq<u8>) -> Reading
    decreases bytes.len(),
{
    if bytes.len() == 0 {
        Reading { quoted: false, escaped: false, number: 0, largest: 0 }
    } else {
        reads(reading(bytes.drop_last()), bytes.last())
    }
}

/// No number outside the texts of the header is so large that the header cannot be
/// added to it.
pub open spec fn moderate(file: Seq<u8>) -> bool {
    reading(header(file)).largest <= usize::MAX - LONGEST_HEADER - PREFIX
}

/// The largest number so far only grows.
proof fn lemma_reading_grows(bytes: Seq<u8>, n: int)
    requires
        0 <= n <= bytes.len(),
    ensures
        reading(bytes.take(n)).largest <= reading(bytes).largest,
    decreases bytes.len() - n,
{
    if n == bytes.len() {
        assert(bytes.take(n) =~= bytes);
    } else {
        assert(bytes.take(n + 1).drop_last() =~= bytes.take(n));
        lemma_reading_grows(bytes, n + 1);
    }
}

/// Whether no number outside the texts of the header is so large that the header cannot
/// be added to it.
fn is_moderate(file: &Vec<u8>) -> (r: bool)
    ensures
        r == moderate(file@),
{
    if file.len() < PREFIX {
        return true;
    }
    let len: u64 = file[0] as u64 + file[1] as u64 * 0x100 + file[2] as u64 * 0x1_0000 + file[3] as u64
        * 0x100_0000 + file[4] as u64 * 0x1_0000_0000 + file[5] as u64 * 0x100_0000_0000 + file[6] as u64
        * 0x1_0000_0000_0000 + file[7] as u64 * 0x100_0000_0000_0000;
    assert(len == header_len(file@));
    if len > LONGEST_HEADER {
        return true;
    }
    let len: usize = len as usize;
    if len > file.len() - PREFIX {
        return true;
    }
    let ghost bytes = header(file@);
    let limit: usize = usize::MAX - LONGEST_HEADER as usize - PREFIX;
    let mut quoted = false;
    let mut escaped = false;
    let mut number: usize = 0;
    let mut i: usize = 0;
    assert(bytes.take(0) =~= Seq::<u8>::empty());
    while i < len
        invariant
            i <= len,
            len + PREFIX <= file.len(),
            bytes == file@.subrange(PREFIX as int, len + PREFIX),
            bytes == header(file@),
            limit == usize::MAX - LONGEST_HEADER - PREFIX,
            number <= limit,
            reading(bytes.take(i as int)).quoted == quoted,
            reading(bytes.take(i as int)).escaped == escaped,
            reading(bytes.take(i as int)).number == number,
            reading(bytes.take(i as int)).largest <= limit,
        decreases len - i,
    {
        let byte: u8 = file[PREFIX + i];
        proof {
            assert(bytes.take(i + 1).drop_last() =~= bytes.take(i as int));
            assert(bytes.take(i + 1).last() == byte);
            lemma_reading_grows(bytes, i + 1);
        }
        if quoted {
            quoted = escaped || byte != 0x22;
            escaped = !escaped && byte == 0x5C;
            number = 0;
        } else if 0x30 <= byte && byte <= 0x39 {
            let digit: usize = (byte - 0x30) as usize;
            if number > (limit - digit) / 10 {
                return false;
            }
            number = number * 10 + digit;
        } else {
            quoted = byte == 0x22;
            number = 0;
        }
        i = i + 1;
    }
    assert(bytes.take(i as int) =~= bytes);
    true
}

/// The failure for a header with a number that is too large.
pub open spec fn immoderate() -> Failure {
    Failure::Execution("invalid SafeTensors data: number too large"@)
}

/// `SafeTensors::deserialize`: whether the file is refused, and the tensors of the
/// archive, depend on the bytes of the file and the width of counts alone.  What a
/// refusal says is left open.  The crate adds the end of the last tensor, the length of
/// the header and the bytes before it without a check.
#[verifier::external_body]
fn deserialize<'data>(file: &'data [u8]) -> (r: std::result::Result<
    ::safetensors::SafeTensors<'data>,
    ::safetensors::SafeTensorError,
>)
    requires
        moderate(file@),
    ensures
        match r {
            Ok(archive) => unpacked(file@, usize::MAX as nat) == Some(archived(archive)),
            Err(_) => unpacked(file@, usize::MAX as nat) is None,
        },
{
    ::safetensors::SafeTensors::deserialize(file)
}

/// Opens the archive that a file holds.
fn open_archive<'data>(file: &'data Vec<u8>) -> (r: Result<::safetensors::SafeTensors<'data>>)
    ensures
        match r {
            Ok(archive) => moderate(file@) && unpacked(file@, usize::MAX as nat) == Some(
                archived(archive),
            ),
            Err(error) => if moderate(file@) {
                unpacked(file@, usize::MAX as nat) is None && refused(error@)
            } else {
                error@ == immoderate()
            },
        },
{
    if !is_moderate(file) {
        return Err(Error::execution("invalid SafeTensors data: number too large"));
    }
    match deserialize(file.as_slice()) {
        Ok(archive) => Ok(archive),
        Err(error) => Err(safetensor_error(&error)),
    }
}

/// `SafeTensors::names`: the name of each tensor once, in no particular order.
#[verifier::external_body]
fn archive_names(archive: &::safetensors::SafeTensors<'_>) -> (r: Vec<String>)
    ensures
        forall|i: int, j: int| 0 <= i < j < r@.len() ==> (#[trigger] r@[i])@ != (#[trigger] r@[j])@,
        forall|i: int| 0 <= i < r@.len() ==> archived(*archive).dom().contains((#[trigger] r@[i])@),
        forall|name: Seq<char>| #[trigger]
            archived(*archive).dom().contains(name) ==> exists|i: int|
                0 <= i < r@.len() && (#[trigger] r@[i])@ == name,
{
    archive.names().into_iter().map(str::to_owned).collect()
}

/// `SafeTensors::tensor`: the element type, the dimensions and the bytes of the tensor
/// with the given name, if the archive holds one.
#[verifier::external_body]
fn archive_tensor(archive: &::safetensors::SafeTensors<'_>, name: &str) -> (r: std::result::Result<
    (Dtype, Vec<usize>, Vec<u8>),
    ::safetensors::SafeTensorError,
>)
    ensures
        match r {
            Ok((dtype, shape, bytes)) => archived(*archive).dom().contains(name@) && archived(
                *archive,
            )[name@] == (Entry { kind: dtype@, shape: shape@, bytes: bytes@ }),
            Err(_) => !archived(*archive).dom().contains(name@),
        },
{
    let view = archive.tensor(name)?;
    let dtype = match view.dtype() {
        ::safetensors::Dtype::F32 => Dtype::F32,
        ::safetensors::Dtype::F16 => Dtype::F16,
        ::safetensors::Dtype::BF16 => Dtype::BF16,
        other => Dtype::Other(format!("{other:?}")),
    };
    Ok((dtype, view.shape().to_vec(), view.data().to_vec()))
}

/// The text that `SafeTensorError` displays, of which nothing is stated.
#[verifier::external_body]
fn refusal_text(error: &::safetensors::SafeTensorError) -> (r: String) {
    error.to_string()
}

/// `r` are the bits of the single-precision number that equals a half-precision number.
/// What is not a number becomes quiet.
pub open spec fn widened(half: u16, r: u32) -> bool {
    let sign = half as int / 0x8000 * 0x8000_0000;
    let exponent = half as int / 0x400 % 0x20;
    let fraction = half as int % 0x400;
    if exponent == 0x1F && fraction != 0 {
        r == sign + 0x7FC0_0000 + fraction % 0x200 * 0x2000
    } else if exponent == 0x1F {
        r == sign + 0x7F80_0000
    } else if exponent > 0 {
        r == sign + (exponent + 112) * 0x80_0000 + fraction * 0x2000
    } else if fraction == 0 {
        r == sign
    } else {
        exists|top: nat|
            {
                &&& top < 10
                &&& #[trigger] pow2(top) <= fraction < 2 * pow2(top)
                &&& r == sign + (top + 103) * 0x80_0000 + (fraction - pow2(top)) * pow2(
                    (23 - top) as nat,
                )
            }
    }
}

/// The bits of the single-precision number that equals a half-precision number.
pub fn widen_half(half: u16) -> (r: u32)
    ensures
        widened(half, r),
{
    let sign: u32 = (half / 0x8000) as u32 * 0x8000_0000;
    let exponent: u32 = (half / 0x400 % 0x20) as u32;
    let fraction: u32 = (half % 0x400) as u32;
    if exponent == 0x1F {
        if fraction != 0 {
            return sign + 0x7FC0_0000 + fraction % 0x200 * 0x2000;
        }
        return sign + 0x7F80_0000;
    }
    if exponent > 0 {
        return sign + (exponent + 112) * 0x80_0000 + fraction * 0x2000;
    }
    if fraction == 0 {
        return sign;
    }
    let mut top: u32 = 9;
    let mut power: u32 = 512;
    let mut scale: u32 = 0x4000;
    proof {
        lemma2_to64();
    }
    while fraction < power
        invariant
            0 < fraction < 0x400,
            top <= 9,
            power == pow2(top as nat),
            scale == pow2((23 - top) as nat),
            power * scale == 0x80_0000,
            fraction < 2 * power,
        decreases top,
    {
        proof {
            lemma2_to64();
            if top == 0 {
                assert(power == 1);
            }
            lemma_pow2_unfold(top as nat);
            lemma_pow2_unfold((24 - top) as nat);
        }
        assert((power / 2) * (scale * 2) == power * scale) by (nonlinear_arith)
            requires
                power % 2 == 0,
        ;
        assert(scale <= 0x80_0000) by (nonlinear_arith)
            requires
                power >= 1,
                power * scale == 0x80_0000,
        ;
        top = top - 1;
        power = power / 2;
        scale = scale * 2;
    }
    assert((fraction - power) * scale < 0x80_0000 && (fraction - power) * scale >= 0)
        by (nonlinear_arith)
        requires
            power <= fraction < 2 * power,
            power * scale == 0x80_0000,
    ;
    let ghost exponent = top as nat;
    assert(pow2(exponent) <= fraction);
    sign + (top + 103) * 0x80_0000 + (fraction - power) * scale
}

/// The bits of the single-precision number for a number cut off after its upper half;
/// what is not a number becomes quiet.
pub open spec fn extended(upper: u16) -> u32 {
    if upper as int % 0x8000 > 0x7F80 {
        (((upper | 0x40) as nat) * 0x1_0000) as u32
    } else {
        ((upper as nat) * 0x1_0000) as u32
    }
}

/// `half::bf16::from_bits` and `to_f32`: the sixteen bits with sixteen zero bits below,
/// and the quiet bit set where that is not a number.
#[verifier::external_body]
fn widen_bf16(upper: u16) -> (r: u32)
    ensures
        r == extended(upper),
{
    ::half::bf16::from_bits(upper).to_f32().to_bits()
}

/// The little-endian number in two bytes.
pub open spec fn little_16(bytes: Seq<u8>, at: int) -> u16 {
    (bytes[at] + bytes[at + 1] * 0x100) as u16
}

/// The little-endian number in four bytes.
pub open spec fn little_32(bytes: Seq<u8>, at: int) -> u32 {
    (bytes[at] + bytes[at + 1] * 0x100 + bytes[at + 2] * 0x1_0000 + bytes[at + 3]
        * 0x100_0000) as u32
}

/// The bytes that a stored element takes.
pub open spec fn width(kind: Kind) -> int {
    match kind {
        Kind::F32 => 4,
        _ => 2,
    }
}

/// `r` is the element stored at an offset.
pub open spec fn stored<T: Scalar>(kind: Kind, bytes: Seq<u8>, at: int, r: T) -> bool {
    match kind {
        Kind::F32 => decoded(little_32(bytes, at), r),
        Kind::F16 => exists|bits: u32|
            widened(little_16(bytes, at), bits) && #[trigger] decoded(bits, r),
        _ => decoded(extended(little_16(bytes, at)), r),
    }
}

/// Why stored elements cannot be decoded.
pub open spec fn undecodable(kind: Kind, bytes: Seq<u8>) -> Option<Failure> {
    if kind is Other {
        Some(
            Failure::Execution(
                "unsupported SafeTensors dtype "@ + kind->Other_0
                    + "; Gemma weights must be F32, F16, or BF16"@,
            ),
        )
    } else if bytes.len() as int % width(kind) != 0 {
        Some(Failure::Execution("misaligned SafeTensors payload"@))
    } else {
        None
    }
}

/// `values` are the stored elements in order.
pub open spec fn unfolds<T: Scalar>(kind: Kind, bytes: Seq<u8>, values: Seq<T>) -> bool {
    &&& values.len() == bytes.len() as int / width(kind)
    &&& forall|i: int|
        0 <= i < values.len() ==> stored(kind, bytes, i * width(kind), #[trigger] values[i])
}

/// Decodes stored elements.
pub fn decode_f32<T: Scalar>(dtype: &Dtype, bytes: &Vec<u8>) -> (r: Result<Vec<T>>)
    ensures
        match r {
            Ok(values) => undecodable(dtype@, bytes@) is None && unfolds(
                dtype@,
                bytes@,
                values@,
            ),
            Err(error) => undecodable(dtype@, bytes@) == Some(error@),
        },
{
    match dtype {
        Dtype::Other(name) => {
            let mut message = owned("unsupported SafeTensors dtype ");
            message.append(name.as_str());
            message.append("; Gemma weights must be F32, F16, or BF16");
            return Err(Error::Execution(message));
        },
        _ => {},
    }
    let step: usize = match dtype {
        Dtype::F32 => 4,
        _ => 2,
    };
    if bytes.len() % step != 0 {
        return Err(Error::execution("misaligned SafeTensors payload"));
    }
    let len: usize = bytes.len() / step;
    let mut values: Vec<T> = Vec::with_capacity(len);
    let mut i: usize = 0;
    while i < len
        invariant
            i <= len,
            step == width(dtype@),
            step == 2 || step == 4,
            !(dtype@ is Other),
            len == bytes@.len() as int / step as int,
            len * step == bytes@.len(),
            bytes@.len() == bytes.len(),
            values@.len() == i,
            forall|j: int|
                0 <= j < i ==> stored(dtype@, bytes@, j * width(dtype@), #[trigger] values@[j]),
        decreases len - i,
    {
        let ghost at = i * width(dtype@);
        assert(i * step + step <= len * step) by (nonlinear_arith)
            requires
                i < len,
                0 < step,
        ;
        let offset: usize = i * step;
        let value: T = match dtype {
            Dtype::F32 => {
                let bits: u32 = bytes[offset] as u32 + bytes[offset + 1] as u32 * 0x100 + bytes[
                offset + 2] as u32 * 0x1_0000 + bytes[offset + 3] as u32 * 0x100_0000;
                assert(bits == little_32(bytes@, at));
                T::of_bits(bits)
            },
            Dtype::F16 => {
                let half: u16 = bytes[offset] as u16 + bytes[offset + 1] as u16 * 0x100;
                assert(half == little_16(bytes@, at));
                let bits: u32 = widen_half(half);
                let value = T::of_bits(bits);
                assert(decoded(bits, value));
                value
            },
            _ => {
                let upper: u16 = bytes[offset] as u16 + bytes[offset + 1] as u16 * 0x100;
                assert(upper == little_16(bytes@, at));
                T::of_bits(widen_bf16(upper))
            },
        };
        assert(stored(dtype@, bytes@, at, value));
        values.push(value);
        i = i + 1;
    }
    Ok(values)
}

/// A decoded row-major tensor of a checkpoint.
#[derive(Clone, Debug, PartialEq)]
pub struct LoadedTensor<T> {
    pub shape: Vec<usize>,
    pub data: Vec<T>,
}

impl<T> LoadedTensor<T> {
    /// The outcome of making a tensor: the data has to fill the shape, and a device other
    /// than the host has to be available.
    pub open spec fn placeable(self, device: Device, available: bool) -> std::result::Result<
        (),
        Failure,
    > {
        match validated_numel(self.data@.len(), self.shape@) {
            Err(failure) => Err(failure),
            Ok(_) => if device is Cuda && !available {
                Err(Failure::CudaUnavailable)
            } else {
                Ok(())
            },
        }
    }
}

impl<T: Copy> LoadedTensor<T> {
    /// Makes a tensor on a device of the loaded data.  `available` says whether a device
    /// other than the host can be used.
    pub fn into_tensor(self, graph: &mut Graph<T>, device: Device, available: bool) -> (r: Result<
        Tensor,
    >)
        requires
            old(graph).wf(),
        ensures
            final(graph).wf(),
            match r {
                Ok(tensor) => {
                    &&& self.placeable(device, available) is Ok
                    &&& final(graph).extends(*old(graph))
                    &&& final(graph).next_parameter == old(graph).next_parameter
                    &&& final(graph).norms == old(graph).norms
                    &&& final(graph).has(tensor)
                    &&& tensor.id > old(graph).nodes@.len()
                    &&& tensor.shape@ == self.shape@
                    &&& tensor.device == device
                    &&& final(graph).nodes@[old(graph).nodes@.len() as int].op == Op::Data(
                        self.data,
                    )
                    &&& copies(
                        final(graph).nodes@,
                        None,
                        device,
                        old(graph).nodes@.len() as int,
                        tensor.id as int,
                    )
                },
                Err(error) => {
                    &&& self.placeable(device, available) == std::result::Result::<
                        (),
                        Failure,
                    >::Err(error@)
                    &&& *final(graph) == *old(graph)
                },
            },
    {
        let ghost before = *graph;
        validate_numel(self.data.len(), &self.shape)?;
        if device != Device::Cpu && !available {
            return Err(Error::CudaUnavailable);
        }
        let host = Tensor::from_vec(graph, self.data, self.shape)?;
        let ghost middle = *graph;
        proof {
            lemma_data_memoryless(middle.nodes@, host.id as int);
        }
        let tensor = host.to(graph, device);
        proof {
            lemma_extends(before, middle, *graph);
            assert(graph.nodes@[host.id as int] == middle.nodes@[host.id as int]);
        }
        Ok(tensor)
    }
}

/// What a checkpoint says of a tensor besides its elements.
#[derive(Clone, Debug, PartialEq, Eq)]
pub struct TensorMetadata {
    pub dtype: Dtype,
    pub shape: Vec<usize>,
}

/// What the file system shows of the path of a checkpoint.
pub struct Place {
    /// The path as it is shown.
    pub path: String,
    /// It is a directory.
    pub directory: bool,
    /// The directory holds `model.safetensors.index.json`.
    pub indexed: bool,
    /// The directory holds `model.safetensors`.
    pub single: bool,
    /// The path has the extension `json`.
    pub json: bool,
}

/// The file that a checkpoint is opened by.
#[derive(Debug, Clone, Copy, PartialEq, Eq, Structural)]
pub enum Source {
    /// `model.safetensors.index.json` in the directory.
    DirectoryIndex,
    /// `model.safetensors` in the directory.
    DirectoryFile,
    /// The path itself, an index of shards.
    Index,
    /// The path itself, a file of tensors.
    File,
}

/// The file that a checkpoint is opened by: an index before a single file in a
/// directory, otherwise the path itself.
pub open spec fn source_of(place: Place) -> std::result::Result<Source, Failure> {
    if place.directory {
        if place.indexed {
            Ok(Source::DirectoryIndex)
        } else if place.single {
            Ok(Source::DirectoryFile)
        } else {
            Err(
                Failure::Execution(
                    "no model.safetensors or model.safetensors.index.json in "@ + place.path@,
                ),
            )
        }
    } else if place.json {
        Ok(Source::Index)
    } else {
        Ok(Source::File)
    }
}

/// No two entries have the same name.
pub open spec fn unambiguous(entries: Seq<(String, String)>) -> bool {
    forall|i: int, j: int|
        0 <= i < j < entries.len() ==> (#[trigger] entries[i]).0@ != (#[trigger] entries[j]).0@
}

/// The entry at a position has the name.
pub open spec fn named(entries: Seq<(String, String)>, name: Seq<char>, i: int) -> bool {
    0 <= i < entries.len() && entries[i].0@ == name
}

/// The entries as a map from names to shards.
pub open spec fn placed(entries: Seq<(String, String)>) -> Map<Seq<char>, Seq<char>> {
    Map::new(
        |name: Seq<char>| exists|i: int| named(entries, name, i),
        |name: Seq<char>| entries[choose|i: int| named(entries, name, i)].1@,
    )
}

/// The texts in order, each where it stands first.
pub open spec fn first_seen(texts: Seq<Seq<char>>) -> Seq<Seq<char>>
    decreases texts.len(),
{
    if texts.len() == 0 {
        seq![]
    } else {
        let before = first_seen(texts.drop_last());
        if before.contains(texts.last()) {
            before
        } else {
            before.push(texts.last())
        }
    }
}

/// The shards of the entries.
pub open spec fn shards(entries: Seq<(String, String)>) -> Seq<Seq<char>> {
    Seq::new(entries.len(), |i: int| entries[i].1@)
}

/// Owned texts as sequences.
pub open spec fn texts(list: Seq<String>) -> Seq<Seq<char>> {
    Seq::new(list.len(), |i: int| list[i]@)
}

/// Whether a text is in a list.
fn listed(list: &Vec<String>, text: &String) -> (r: bool)
    ensures
        r == texts(list@).contains(text@),
{
    let mut i: usize = 0;
    while i < list.len()
        invariant
            i <= list.len(),
            forall|j: int| 0 <= j < i ==> (#[trigger] list@[j])@ != text@,
        decreases list.len() - i,
    {
        if list[i] == *text {
            assert(texts(list@)[i as int] == text@);
            return true;
        }
        i = i + 1;
    }
    proof {
        if texts(list@).contains(text@) {
            let j = choose|j: int| 0 <= j < texts(list@).len() && texts(list@)[j] == text@;
            assert(list@[j]@ == text@);
        }
    }
    false
}

/// The distinct shards of an index, each where it stands first.
pub fn distinct_shards(entries: &Vec<(String, String)>) -> (r: Vec<String>)
    ensures
        texts(r@) == first_seen(shards(entries@)),
{
    let mut r: Vec<String> = Vec::new();
    let mut i: usize = 0;
    assert(texts(r@) =~= first_seen(shards(entries@).take(0)));
    while i < entries.len()
        invariant
            i <= entries.len(),
            texts(r@) == first_seen(shards(entries@).take(i as int)),
        decreases entries.len() - i,
    {
        let ghost before = r@;
        proof {
            let some = shards(entries@).take(i + 1);
            assert(some.drop_last() =~= shards(entries@).take(i as int));
            assert(some.last() == entries@[i as int].1@);
        }
        if !listed(&r, &entries[i].1) {
            r.push(entries[i].1.clone());
            assert(texts(r@) =~= texts(before).push(entries@[i as int].1@));
        }
        i = i + 1;
    }
    assert(shards(entries@).take(i as int) =~= shards(entries@));
    r
}

/// The outcome of opening an index: a failure at the first shard that is no file.
pub open spec fn index_failure(shards: Seq<Seq<char>>, present: Seq<bool>) -> Option<Failure>
    decreases shards.len(),
{
    if shards.len() == 0 {
        None
    } else if !present[0] {
        Some(Failure::Execution("missing SafeTensors shard "@ + shards[0]))
    } else {
        index_failure(shards.drop_first(), present.drop_first())
    }
}

/// A refusal of the `safetensors` crate as a failure.
pub open spec fn refused(failure: Failure) -> bool {
    exists|text: Seq<char>|
        failure == Failure::Execution(#[trigger] ("invalid SafeTensors data: "@ + text))
}

/// The failure for a refusal of the `safetensors` crate.
fn safetensor_error(error: &::safetensors::SafeTensorError) -> (r: Error)
    ensures
        refused(r@),
{
    let text = refusal_text(error);
    let mut message = owned("invalid SafeTensors data: ");
    message.append(text.as_str());
    assert(message@ == "invalid SafeTensors data: "@ + text@);
    Error::Execution(message)
}

/// A checkpoint: a directory, and the shard that each tensor is stored in.  Files are
/// read only when a tensor is asked for.
#[derive(Clone, Debug)]
pub struct SafeTensorLoader {
    pub root: String,
    pub weight_map: Vec<(String, String)>,
}

/// A checkpoint as it is shown: the directory, and the shard of each tensor.
pub struct Checkpoint {
    pub root: Seq<char>,
    pub shards: Map<Seq<char>, Seq<char>>,
}

impl View for SafeTensorLoader {
    type V = Checkpoint;

    open spec fn view(&self) -> Checkpoint {
        Checkpoint { root: self.root@, shards: placed(self.weight_map@) }
    }
}

/// Every tensor of a file, in one shard.
pub open spec fn all_in(entries: Map<Seq<char>, Entry>, shard: Seq<char>) -> Map<
    Seq<char>,
    Seq<char>,
> {
    Map::new(|name: Seq<char>| entries.dom().contains(name), |name: Seq<char>| shard)
}

/// The failure for a tensor that the checkpoint does not have.
pub open spec fn missing_tensor(name: Seq<char>) -> Failure {
    Failure::Execution("tensor `"@ + name + "` is missing"@)
}

/// The outcome of taking a stored tensor.
pub open spec fn takes<T: Scalar>(name: Seq<char>, entry: Entry, r: Result<LoadedTensor<T>>) -> bool {
    if undecodable(entry.kind, entry.bytes) is Some {
        r matches Err(error) && undecodable(entry.kind, entry.bytes) == Some(error@)
    } else {
        let count = (entry.bytes.len() as int / width(entry.kind)) as nat;
        if overflows(entry.shape) {
            r matches Err(error) && error@ == Failure::Execution(
                "tensor `"@ + name + "` shape overflows usize"@,
            )
        } else if count != numel(entry.shape) {
            r matches Err(error) && error@ == Failure::Execution(
                "tensor `"@ + name + "` contains "@ + decimal(count) + " values, shape requires "@
                    + decimal(numel(entry.shape)),
            )
        } else {
            r matches Ok(loaded) && loaded.shape@ == entry.shape && unfolds(
                entry.kind,
                entry.bytes,
                loaded.data@,
            )
        }
    }
}

/// Checks and decodes a stored tensor.
pub fn take_tensor<T: Scalar>(
    name: &str,
    dtype: &Dtype,
    shape: Vec<usize>,
    bytes: &Vec<u8>,
) -> (r: Result<LoadedTensor<T>>)
    ensures
        takes(name@, (Entry { kind: dtype@, shape: shape@, bytes: bytes@ }), r),
{
    let data: Vec<T> = decode_f32(dtype, bytes)?;
    let mut expected: usize = 1;
    let mut i: usize = 0;
    assert(shape@.take(0) =~= Seq::<usize>::empty());
    while i < shape.len()
        invariant
            i <= shape.len(),
            expected == numel(shape@.take(i as int)),
            forall|k: int| 0 <= k <= i ==> #[trigger] numel(shape@.take(k)) <= usize::MAX,
            undecodable(dtype@, bytes@) is None,
        decreases shape.len() - i,
    {
        proof {
            lemma_numel_take(shape@, i as int);
        }
        expected = match expected.checked_mul(shape[i]) {
            Some(expected) => expected,
            None => {
                let mut message = owned("tensor `");
                message.append(name);
                message.append("` shape overflows usize");
                assert(numel(shape@.take(i + 1)) > usize::MAX);
                return Err(Error::Execution(message));
            },
        };
        i = i + 1;
    }
    assert(shape@.take(i as int) =~= shape@);
    if data.len() != expected {
        let mut message = owned("tensor `");
        message.append(name);
        message.append("` contains ");
        push_decimal(&mut message, data.len());
        message.append(" values, shape requires ");
        push_decimal(&mut message, expected);
        return Err(Error::Execution(message));
    }
    Ok(LoadedTensor { shape, data })
}

impl SafeTensorLoader {
    /// No tensor has two shards.
    pub open spec fn wf(self) -> bool {
        unambiguous(self.weight_map@)
    }

    /// Decides which file a checkpoint is opened by.
    pub fn open(place: &Place) -> (r: Result<Source>)
        ensures
            match r {
                Ok(source) => source_of(*place) == std::result::Result::<Source, Failure>::Ok(
                    source,
                ),
                Err(error) => source_of(*place) == std::result::Result::<Source, Failure>::Err(
                    error@,
                ),
            },
    {
        if place.directory {
            if place.indexed {
                return Ok(Source::DirectoryIndex);
            }
            if place.single {
                return Ok(Source::DirectoryFile);
            }
            let mut message = owned("no model.safetensors or model.safetensors.index.json in ");
            message.append(place.path.as_str());
            return Err(Error::Execution(message));
        }
        if place.json {
            Ok(Source::Index)
        } else {
            Ok(Source::File)
        }
    }

    /// Opens a single file, whose bytes were read, as a checkpoint.
    pub fn from_file(root: String, file_name: Option<String>, file: Result<Vec<u8>>) -> (r: Result<
        SafeTensorLoader,
    >)
        ensures
            match file {
                Err(error) => r matches Err(failure) && failure@ == error@,
                Ok(bytes) => if !moderate(bytes@) {
                    r matches Err(failure) && failure@ == immoderate()
                } else {
                    match unpacked(bytes@, usize::MAX as nat) {
                        None => r matches Err(failure) && refused(failure@),
                        Some(entries) => match file_name {
                            None => r matches Err(failure) && failure@ == Failure::Execution(
                                "SafeTensors path has no file name"@,
                            ),
                            Some(shard) => r matches Ok(loader) && loader.wf() && loader@.root
                                == root@ && loader@.shards == all_in(entries, shard@),
                        },
                    }
                },
            },
    {
        let bytes = file?;
        let archive = open_archive(&bytes)?;
        let shard = match file_name {
            Some(shard) => shard,
            None => {
                return Err(Error::execution("SafeTensors path has no file name"));
            },
        };
        let names = archive_names(&archive);
        let mut weight_map: Vec<(String, String)> = Vec::with_capacity(names.len());
        let mut i: usize = 0;
        while i < names.len()
            invariant
                i <= names.len(),
                weight_map@.len() == i,
                forall|j: int|
                    0 <= j < i ==> (#[trigger] weight_map@[j]).0@ == names@[j]@ && weight_map@[j].1@
                        == shard@,
            decreases names.len() - i,
        {
            weight_map.push((names[i].clone(), shard.clone()));
            i = i + 1;
        }
        let loader = SafeTensorLoader { root, weight_map };
        proof {
            let entries = archived(archive);
            assert forall|name: Seq<char>| #[trigger] loader@.shards.dom().contains(name) == entries.dom().contains(
                name,
            ) by {
                if entries.dom().contains(name) {
                    let j = choose|j: int| 0 <= j < names@.len() && (#[trigger] names@[j])@ == name;
                    assert(named(loader.weight_map@, name, j));
                }
                if loader@.shards.dom().contains(name) {
                    let j = choose|j: int| named(loader.weight_map@, name, j);
                    assert(entries.dom().contains(names@[j]@));
                }
            }
            assert forall|name: Seq<char>| #[trigger] loader@.shards.dom().contains(name) implies loader@.shards[name]
                == shard@ by {
                let j = choose|j: int| named(loader.weight_map@, name, j);
                assert(loader.weight_map@[j].1@ == shard@);
            }
            assert(loader@.shards =~= all_in(entries, shard@));
            assert(loader.wf());
        }
        Ok(loader)
    }

    /// Opens an index of shards.  For each of its distinct shards, `present` says
    /// whether it is a file.
    pub fn from_index(root: String, weight_map: Vec<(String, String)>, present: &Vec<bool>) -> (r:
        Result<SafeTensorLoader>)
        requires
            unambiguous(weight_map@),
            present@.len() == first_seen(shards(weight_map@)).len(),
        ensures
            match index_failure(first_seen(shards(weight_map@)), present@) {
                Some(failure) => r matches Err(error) && error@ == failure,
                None => r matches Ok(loader) && loader.wf() && loader@.root == root@ && loader@.shards
                    == placed(weight_map@),
            },
    {
        let distinct = distinct_shards(&weight_map);
        let ghost all = texts(distinct@);
        let mut i: usize = 0;
        assert(all.skip(0) =~= all);
        assert(present@.skip(0) =~= present@);
        while i < distinct.len()
            invariant
                i <= distinct.len(),
                all == texts(distinct@),
                present@.len() == all.len(),
                index_failure(all, present@) == index_failure(
                    all.skip(i as int),
                    present@.skip(i as int),
                ),
                all == first_seen(shards(weight_map@)),
            decreases distinct.len() - i,
        {
            assert(all.skip(i as int)[0] == distinct@[i as int]@);
            assert(present@.skip(i as int)[0] == present@[i as int]);
            assert(all.skip(i as int).drop_first() =~= all.skip(i + 1));
            assert(present@.skip(i as int).drop_first() =~= present@.skip(i + 1));
            if !present[i] {
                let mut message = owned("missing SafeTensors shard ");
                message.append(distinct[i].as_str());
                return Err(Error::Execution(message));
            }
            i = i + 1;
        }
        Ok(SafeTensorLoader { root, weight_map })
    }

    /// The position of a tensor among the entries.
    fn find(&self, name: &str) -> (r: Option<usize>)
        requires
            self.wf(),
        ensures
            match r {
                Some(i) => i < self.weight_map@.len() && self@.shards.dom().contains(name@) && self@.shards[name@]
                    == self.weight_map@[i as int].1@,
                None => !self@.shards.dom().contains(name@),
            },
    {
        let wanted = owned(name);
        let mut i: usize = 0;
        while i < self.weight_map.len()
            invariant
                i <= self.weight_map.len(),
                self.wf(),
                wanted@ == name@,
                forall|j: int| 0 <= j < i ==> (#[trigger] self.weight_map@[j]).0@ != name@,
            decreases self.weight_map.len() - i,
        {
            if self.weight_map[i].0 == wanted {
                proof {
                    assert(named(self.weight_map@, name@, i as int));
                    let j = choose|j: int| named(self.weight_map@, name@, j);
                    assert(j == i) by {
                        if j < i {
                            assert(self.weight_map@[j].0@ != self.weight_map@[i as int].0@);
                        } else if i < j {
                            assert(self.weight_map@[i as int].0@ != self.weight_map@[j].0@);
                        }
                    }
                }
                return Some(i);
            }
            i = i + 1;
        }
        None
    }

    /// Whether the checkpoint has a tensor.
    #[must_use]
    pub fn contains(&self, name: &str) -> (r: bool)
        requires
            self.wf(),
        ensures
            r == self@.shards.dom().contains(name@),
    {
        self.find(name).is_some()
    }

    /// Whether the checkpoint has one of the tensors.
    pub fn contains_any(&self, names: &Vec<&str>) -> (r: bool)
        requires
            self.wf(),
        ensures
            r == exists|i: int|
                0 <= i < names@.len() && self@.shards.dom().contains((#[trigger] names@[i])@),
    {
        let mut i: usize = 0;
        while i < names.len()
            invariant
                i <= names.len(),
                self.wf(),
                forall|j: int| 0 <= j < i ==> !self@.shards.dom().contains((#[trigger] names@[j])@),
            decreases names.len() - i,
        {
            if self.contains(names[i]) {
                return true;
            }
            i = i + 1;
        }
        false
    }

    /// The name of each tensor.
    pub fn names(&self) -> (r: Vec<&str>)
        requires
            self.wf(),
        ensures
            r@.len() == self.weight_map@.len(),
            forall|i: int, j: int|
                0 <= i < j < r@.len() ==> (#[trigger] r@[i])@ != (#[trigger] r@[j])@,
            forall|i: int| 0 <= i < r@.len() ==> self@.shards.dom().contains((#[trigger] r@[i])@),
            forall|name: Seq<char>| #[trigger]
                self@.shards.dom().contains(name) ==> exists|i: int|
                    0 <= i < r@.len() && (#[trigger] r@[i])@ == name,
    {
        let mut r: Vec<&str> = Vec::with_capacity(self.weight_map.len());
        let mut i: usize = 0;
        while i < self.weight_map.len()
            invariant
                i <= self.weight_map.len(),
                r@.len() == i,
                forall|j: int| 0 <= j < i ==> (#[trigger] r@[j])@ == self.weight_map@[j].0@,
            decreases self.weight_map.len() - i,
        {
            r.push(self.weight_map[i].0.as_str());
            i = i + 1;
        }
        proof {
            assert forall|j: int| 0 <= j < r@.len() implies self@.shards.dom().contains(
                (#[trigger] r@[j])@,
            ) by {
                assert(named(self.weight_map@, r@[j]@, j));
            }
            assert forall|name: Seq<char>| #[trigger] self@.shards.dom().contains(name) implies exists|
                j: int,
            |
                0 <= j < r@.len() && (#[trigger] r@[j])@ == name by {
                let j = choose|j: int| named(self.weight_map@, name, j);
                assert(r@[j]@ == name);
            }
        }
        r
    }

    /// The shard that a tensor is stored in.
    pub fn shard(&self, name: &str) -> (r: Result<&str>)
        requires
            self.wf(),
        ensures
            match r {
                Ok(shard) => self@.shards.dom().contains(name@) && self@.shards[name@] == shard@,
                Err(error) => !self@.shards.dom().contains(name@) && error@ == missing_tensor(name@),
            },
    {
        match self.find(name) {
            Some(i) => Ok(self.weight_map[i].1.as_str()),
            None => {
                let mut message = owned("tensor `");
                message.append(name);
                message.append("` is missing");
                Err(Error::Execution(message))
            },
        }
    }

    /// Loads a tensor from its shard, whose bytes were read, and widens its elements.
    pub fn load<T: Scalar>(&self, name: &str, file: Result<Vec<u8>>) -> (r: Result<LoadedTensor<T>>)
        requires
            self.wf(),
        ensures
            loads(self@.shards, name@, file, r),
    {
        let (dtype, shape, payload) = self.view_of(name, file)?;
        take_tensor(name, &dtype, shape, &payload)
    }

    /// The element type, the dimensions and the bytes of a tensor, from the bytes of its
    /// shard.
    pub fn view_of(&self, name: &str, file: Result<Vec<u8>>) -> (r: Result<
        (Dtype, Vec<usize>, Vec<u8>),
    >)
        requires
            self.wf(),
        ensures
            shows(self@.shards, name@, file, r),
    {
        let _ = self.shard(name)?;
        let bytes = file?;
        let archive = open_archive(&bytes)?;
        match archive_tensor(&archive, name) {
            Ok(found) => Ok(found),
            Err(error) => Err(safetensor_error(&error)),
        }
    }

    /// The element type and the dimensions of a tensor, from the bytes of its shard.
    pub fn metadata(&self, name: &str, file: Result<Vec<u8>>) -> (r: Result<TensorMetadata>)
        requires
            self.wf(),
        ensures
            describes(self@.shards, name@, file, r),
    {
        let (dtype, shape, bytes) = self.view_of(name, file)?;
        assert(shows(
            self@.shards,
            name@,
            file,
            std::result::Result::<(Dtype, Vec<usize>, Vec<u8>), Error>::Ok((dtype, shape, bytes)),
        ));
        Ok(TensorMetadata { dtype, shape })
    }

    /// Which of the aliases names the tensor to load: the first that exists.
    pub fn select(&self, names: &Vec<&str>) -> (r: Result<usize>)
        requires
            self.wf(),
        ensures
            selects(self@.shards, spelled(names@), r),
    {
        let ghost all = spelled(names@);
        let mut i: usize = 0;
        while i < names.len()
            invariant
                i <= names.len(),
                self.wf(),
                all == spelled(names@),
                forall|j: int| 0 <= j < i ==> !self@.shards.dom().contains(#[trigger] all[j]),
            decreases names.len() - i,
        {
            assert(all[i as int] == names@[i as int]@);
            if self.contains(names[i]) {
                return Ok(i);
            }
            i = i + 1;
        }
        let mut message = owned("none of the tensor aliases exist: ");
        let mut i: usize = 0;
        assert(message@ =~= "none of the tensor aliases exist: "@ + joined(all.take(0)));
        while i < names.len()
            invariant
                i <= names.len(),
                all == spelled(names@),
                message@ == "none of the tensor aliases exist: "@ + joined(all.take(i as int)),
            decreases names.len() - i,
        {
            let ghost some = all.take(i + 1);
            assert(some.drop_last() =~= all.take(i as int));
            assert(some.last() == names@[i as int]@);
            let ghost before = message@;
            if i > 0 {
                message.append(", ");
            }
            message.append(names[i]);
            assert(message@ =~= "none of the tensor aliases exist: "@ + joined(some));
            i = i + 1;
        }
        assert(all.take(i as int) =~= all);
        Err(Error::Execution(message))
    }

    /// Loads a tensor under the first of its aliases that exists, from the shard of
    /// that alias.
    pub fn load_any<T: Scalar>(&self, names: &Vec<&str>, file: Result<Vec<u8>>) -> (r: Result<
        LoadedTensor<T>,
    >)
        requires
            self.wf(),
        ensures
            loads_any(self@.shards, spelled(names@), file, r),
    {
        match self.select(names) {
            Ok(i) => {
                assert(first_alias(self@.shards, spelled(names@), i as int));
                self.load(names[i], file)
            },
            Err(error) => Err(error),
        }
    }
}

/// The outcome of loading a tensor from the bytes of its shard.
pub open spec fn loads<T: Scalar>(
    shards: Map<Seq<char>, Seq<char>>,
    name: Seq<char>,
    file: Result<Vec<u8>>,
    r: Result<LoadedTensor<T>>,
) -> bool {
    if !shards.dom().contains(name) {
        r matches Err(error) && error@ == missing_tensor(name)
    } else {
        match file {
            Err(failure) => r matches Err(error) && error@ == failure@,
            Ok(bytes) => if !moderate(bytes@) {
                r matches Err(error) && error@ == immoderate()
            } else {
                match unpacked(bytes@, usize::MAX as nat) {
                    None => r matches Err(error) && refused(error@),
                    Some(entries) => if entries.dom().contains(name) {
                        takes(name, entries[name], r)
                    } else {
                        r matches Err(error) && refused(error@)
                    },
                }
            },
        }
    }
}

/// The outcome of looking at a tensor in the bytes of its shard.
pub open spec fn shows(
    shards: Map<Seq<char>, Seq<char>>,
    name: Seq<char>,
    file: Result<Vec<u8>>,
    r: Result<(Dtype, Vec<usize>, Vec<u8>)>,
) -> bool {
    if !shards.dom().contains(name) {
        r matches Err(error) && error@ == missing_tensor(name)
    } else {
        match file {
            Err(failure) => r matches Err(error) && error@ == failure@,
            Ok(bytes) => if !moderate(bytes@) {
                r matches Err(error) && error@ == immoderate()
            } else {
                match unpacked(bytes@, usize::MAX as nat) {
                    None => r matches Err(error) && refused(error@),
                    Some(entries) => if entries.dom().contains(name) {
                        r matches Ok((dtype, shape, payload)) && entries[name] == (Entry {
                            kind: dtype@,
                            shape: shape@,
                            bytes: payload@,
                        })
                    } else {
                        r matches Err(error) && refused(error@)
                    },
                }
            },
        }
    }
}

/// The outcome of describing a tensor.
pub open spec fn describes(
    shards: Map<Seq<char>, Seq<char>>,
    name: Seq<char>,
    file: Result<Vec<u8>>,
    r: Result<TensorMetadata>,
) -> bool {
    match r {
        Ok(metadata) => exists|bytes: Vec<u8>| #[trigger]
            shows(shards, name, file, Ok((metadata.dtype, metadata.shape, bytes))),
        Err(error) => shows(shards, name, file, Err(error)),
    }
}

/// Names as sequences.
pub open spec fn spelled(names: Seq<&str>) -> Seq<Seq<char>> {
    Seq::new(names.len(), |i: int| names[i]@)
}

/// The names separated by a comma and a space.
pub open spec fn joined(names: Seq<Seq<char>>) -> Seq<char>
    decreases names.len(),
{
    if names.len() == 0 {
        Seq::empty()
    } else if names.len() == 1 {
        names[0]
    } else {
        joined(names.drop_last()) + ", "@ + names.last()
    }
}

/// The failure for aliases of which none exists.
pub open spec fn no_alias(names: Seq<Seq<char>>) -> Failure {
    Failure::Execution("none of the tensor aliases exist: "@ + joined(names))
}

/// The alias is the first that exists.
pub open spec fn first_alias(
    shards: Map<Seq<char>, Seq<char>>,
    names: Seq<Seq<char>>,
    i: int,
) -> bool {
    &&& 0 <= i < names.len()
    &&& shards.dom().contains(names[i])
    &&& forall|j: int| 0 <= j < i ==> !shards.dom().contains(#[trigger] names[j])
}

/// None of the aliases exists.
pub open spec fn unknown(shards: Map<Seq<char>, Seq<char>>, names: Seq<Seq<char>>) -> bool {
    forall|j: int| 0 <= j < names.len() ==> !shards.dom().contains(#[trigger] names[j])
}

/// The outcome of looking for the first alias that exists.
pub open spec fn selects(
    shards: Map<Seq<char>, Seq<char>>,
    names: Seq<Seq<char>>,
    r: Result<usize>,
) -> bool {
    match r {
        Ok(i) => first_alias(shards, names, i as int),
        Err(error) => unknown(shards, names) && error@ == no_alias(names),
    }
}

/// The outcome of loading a tensor under the first of its aliases that exists.
pub open spec fn loads_any<T: Scalar>(
    shards: Map<Seq<char>, Seq<char>>,
    names: Seq<Seq<char>>,
    file: Result<Vec<u8>>,
    r: Result<LoadedTensor<T>>,
) -> bool {
    ||| exists|i: int| #[trigger]
        first_alias(shards, names, i) && loads(shards, names[i], file, r)
    ||| {
        &&& unknown(shards, names)
        &&& r matches Err(error) && error@ == no_alias(names)
    }
}

} // verus!
