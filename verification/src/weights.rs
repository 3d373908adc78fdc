//! The tensors of a model file, decoded on demand.

use crate::arith::{self, Math, Scalar};
use crate::gguf::{self, parse, FileRecord, GGUFError, GGUFFile, TensorInfo, TensorRecord};
use crate::quant::{
    self, dequant_iq4_xs, dequant_q4_k, dequant_q5_k, dequant_q6_k, dequant_q8_0,
};
use crate::shape::{self, checked_product};
use crate::tensor::{self, Tensor};
use vstd::hash_map::StringHashMap;
use vstd::prelude::*;
use vstd::slice::slice_subrange;

verus! {

/// How a type of tensor is encoded: the number of elements of a block, and its size in bytes.
pub open spec fn layout(ggml_type: u32) -> Option<(nat, nat)> {
    match ggml_type {
        0 => Some((1, 4)),
        1 => Some((1, 2)),
        8 => Some((32, 34)),
        10 => Some((256, 84)),
        12 => Some((256, 144)),
        13 => Some((256, 176)),
        14 => Some((256, 210)),
        16 => Some((256, 66)),
        18 => Some((256, 98)),
        21 => Some((256, 110)),
        22 => Some((256, 82)),
        23 => Some((256, 136)),
        24 => Some((1, 1)),
        25 => Some((1, 2)),
        26 => Some((1, 4)),
        27 => Some((1, 8)),
        28 => Some((1, 8)),
        30 => Some((1, 2)),
        _ => None,
    }
}

/// Whether there is a decoder for a type of tensor.
pub open spec fn supported(ggml_type: u32) -> bool {
    ggml_type == 0 || ggml_type == 1 || ggml_type == 8 || ggml_type == 12 || ggml_type == 13
        || ggml_type == 14 || ggml_type == 23 || ggml_type == 30
}

/// The first tensor of the given name.
pub open spec fn tensor_named(tensors: Seq<TensorRecord>, name: Seq<char>) -> Option<
    TensorRecord,
> {
    if exists|i: int| gguf::first_named(tensors, name, i) {
        Some(tensors[choose|i: int| gguf::first_named(tensors, name, i)])
    } else {
        None
    }
}

/// Dimensions that the machine can hold.
pub open spec fn machine_dims(dims: Seq<u64>) -> bool {
    forall|i: int| 0 <= i < dims.len() ==> #[trigger] dims[i] <= usize::MAX
}

/// Dimensions as the machine holds them.
pub open spec fn dims_of(dims: Seq<u64>) -> Seq<usize> {
    dims.map_values(|d: u64| d as usize)
}

/// Where the encoding of a tensor lies in a file of `len` bytes.
pub open spec fn extent(t: TensorRecord, len: int) -> Result<(int, int), GGUFError> {
    if !machine_dims(t.shape) || !shape::fits(dims_of(t.shape)) {
        Err(GGUFError::InvalidShape)
    } else {
        match layout(t.ggml_type) {
            None => Err(GGUFError::UnknownMetadataType(t.ggml_type)),
            Some((count, size)) => {
                let blocks = (shape::numel_of(dims_of(t.shape)) + count - 1) / count as int;
                let end = t.file_offset + blocks * size;
                if end > len {
                    Err(GGUFError::OutOfBounds)
                } else {
                    Ok((t.file_offset as int, end))
                }
            },
        }
    }
}

/// Where the encoding of the tensor of the given name lies in a file of `len` bytes.
pub open spec fn extent_named(file: FileRecord, len: int, name: Seq<char>) -> Result<
    (int, int),
    GGUFError,
> {
    match tensor_named(file.tensors, name) {
        None => Err(GGUFError::TensorNotFound),
        Some(t) => extent(t, len),
    }
}

/// The tensor of the given name, where it can be decoded.
pub open spec fn decodable(file: FileRecord, len: int, name: Seq<char>) -> Result<
    TensorRecord,
    GGUFError,
> {
    match extent_named(file, len, name) {
        Err(e) => Err(e),
        Ok(_) => {
            let t = tensor_named(file.tensors, name)->0;
            if !supported(t.ggml_type) {
                Err(GGUFError::UnsupportedType(t.ggml_type))
            } else if shape::numel_of(dims_of(t.shape)) % (layout(t.ggml_type)->0).0 != 0 {
                Err(GGUFError::InvalidShape)
            } else {
                Ok(t)
            }
        },
    }
}

/// `r` is a value of element `i` of a tensor with the encoding `b`.
pub open spec fn element<T: Scalar, M: Math<T>>(
    m: M,
    ggml_type: u32,
    b: Seq<u8>,
    i: int,
    r: T,
) -> bool {
    match ggml_type {
        0 => tensor::single_at(m, b, i, r),
        1 => tensor::half_at(m, b, i, r),
        8 => quant::q8_0_at(m, quant::block(b, 34, i / 32), i % 32, r),
        12 => quant::q4_k_at(m, quant::block(b, 144, i / 256), i % 256, r),
        13 => quant::q5_k_at(m, quant::block(b, 176, i / 256), i % 256, r),
        14 => quant::q6_k_at(m, quant::block(b, 210, i / 256), i % 256, r),
        23 => quant::iq4_xs_at(m, quant::block(b, 136, i / 256), i % 256, r),
        30 => tensor::brain_at(m, b, i, r),
        _ => false,
    }
}

/// `r` is a value of the tensor of the given name in the file `b`.
pub open spec fn decoded<T: Scalar, M: Math<T>>(
    m: M,
    file: FileRecord,
    b: Seq<u8>,
    name: Seq<char>,
    r: Tensor<T>,
) -> bool {
    &&& decodable(file, b.len() as int, name) is Ok
    &&& r.wf()
    &&& r.dims() == dims_of((decodable(file, b.len() as int, name)->Ok_0).shape)
    &&& forall|i: int|
        0 <= i < r.elems().len() ==> {
            let (start, end) = extent_named(file, b.len() as int, name)->Ok_0;
            let t = decodable(file, b.len() as int, name)->Ok_0;
            element(m, t.ggml_type, b.subrange(start, end), i, #[trigger] r.elems()[i])
        }
}

/// The first tensor of a name is the one that [`tensor_named`] gives.
pub proof fn lemma_first_named(tensors: Seq<TensorRecord>, name: Seq<char>, i: int)
    requires
        gguf::first_named(tensors, name, i),
    ensures
        tensor_named(tensors, name) == Some(tensors[i]),
{
    let k = choose|k: int| gguf::first_named(tensors, name, k);
    if k < i {
        assert(tensors[k].name != name);
    } else if i < k {
        assert(tensors[i].name != name);
    }
}

/// The encoding of a tensor of `n` elements lies at its offset, and is as long as its type says:
/// single numbers of one, two, four or eight bytes, or blocks of 32 or 256 elements, the last of
/// which may have fewer.
pub proof fn law_extent(t: TensorRecord, len: int, start: int, end: int, n: int)
    requires
        extent(t, len) == Ok::<(int, int), GGUFError>((start, end)),
        n == shape::numel_of(dims_of(t.shape)),
    ensures
        start == t.file_offset,
        end <= len,
        t.ggml_type == 24 ==> end - start == n,
        t.ggml_type == 1 || t.ggml_type == 25 || t.ggml_type == 30 ==> end - start == 2 * n,
        t.ggml_type == 0 || t.ggml_type == 26 ==> end - start == 4 * n,
        t.ggml_type == 27 || t.ggml_type == 28 ==> end - start == 8 * n,
        t.ggml_type == 8 ==> end - start == (n + 31) / 32 * 34,
        t.ggml_type == 10 ==> end - start == (n + 255) / 256 * 84,
        t.ggml_type == 12 ==> end - start == (n + 255) / 256 * 144,
        t.ggml_type == 13 ==> end - start == (n + 255) / 256 * 176,
        t.ggml_type == 14 ==> end - start == (n + 255) / 256 * 210,
        t.ggml_type == 16 ==> end - start == (n + 255) / 256 * 66,
        t.ggml_type == 18 ==> end - start == (n + 255) / 256 * 98,
        t.ggml_type == 21 ==> end - start == (n + 255) / 256 * 110,
        t.ggml_type == 22 ==> end - start == (n + 255) / 256 * 82,
        t.ggml_type == 23 ==> end - start == (n + 255) / 256 * 136,
{
    let (count, size) = layout(t.ggml_type)->0;
    let blocks = (n + count - 1) / count as int;
    assert(end - start == blocks * size);
    if count == 1 {
        assert(blocks == n) by {
            vstd::arithmetic::div_mod::lemma_div_basics(n);
        }
        assert(n * 1 == n) by (nonlinear_arith);
    }
}

/// The first tensor of a name can be decoded where its dimensions fit the machine, its type is one
/// of the eight that have a decoder, it has whole blocks only, and its encoding lies inside the
/// file. `count` and `size` are the elements and the bytes of a block.
pub proof fn law_decodable(
    file: FileRecord,
    len: int,
    name: Seq<char>,
    i: int,
    n: int,
    count: int,
    size: int,
)
    requires
        0 <= i < file.tensors.len(),
        file.tensors[i].name == name,
        forall|j: int| 0 <= j < i ==> (#[trigger] file.tensors[j]).name != name,
        machine_dims(file.tensors[i].shape),
        shape::fits(dims_of(file.tensors[i].shape)),
        n == shape::numel_of(dims_of(file.tensors[i].shape)),
        ({
            let t = file.tensors[i].ggml_type;
            ||| t == 0 && count == 1 && size == 4
            ||| t == 1 && count == 1 && size == 2
            ||| t == 30 && count == 1 && size == 2
            ||| t == 8 && count == 32 && size == 34
            ||| t == 12 && count == 256 && size == 144
            ||| t == 13 && count == 256 && size == 176
            ||| t == 14 && count == 256 && size == 210
            ||| t == 23 && count == 256 && size == 136
        }),
        n % count == 0,
        file.tensors[i].file_offset + n / count * size <= len,
    ensures
        decodable(file, len, name) == Ok::<TensorRecord, GGUFError>(file.tensors[i]),
        extent_named(file, len, name) == Ok::<(int, int), GGUFError>(
            (
                file.tensors[i].file_offset as int,
                file.tensors[i].file_offset + n / count * size,
            ),
        ),
{
    assert(gguf::first_named(file.tensors, name, i));
    lemma_first_named(file.tensors, name, i);
    lemma_blocks(n, count);
}

/// The tensors of a model file. A tensor that has been decoded once is kept.
#[verifier::reject_recursive_types(T)]
pub struct WeightStore<'a, T, M> {
    bytes: &'a [u8],
    gguf: GGUFFile,
    math: M,
    cache: StringHashMap<Tensor<T>>,
}

fn layout_of(ggml_type: u32) -> (r: Option<(usize, usize)>)
    ensures
        match r {
            Some((count, size)) => layout(ggml_type) == Some((count as nat, size as nat)) && count
                > 0 && size > 0,
            None => layout(ggml_type) is None,
        },
{
    match ggml_type {
        0 => Some((1, 4)),
        1 => Some((1, 2)),
        8 => Some((32, 34)),
        10 => Some((256, 84)),
        12 => Some((256, 144)),
        13 => Some((256, 176)),
        14 => Some((256, 210)),
        16 => Some((256, 66)),
        18 => Some((256, 98)),
        21 => Some((256, 110)),
        22 => Some((256, 82)),
        23 => Some((256, 136)),
        24 => Some((1, 1)),
        25 => Some((1, 2)),
        26 => Some((1, 4)),
        27 => Some((1, 8)),
        28 => Some((1, 8)),
        30 => Some((1, 2)),
        _ => None,
    }
}

/// The dimensions of a tensor and the number of its elements.
fn shape_of(dims: &Vec<u64>) -> (r: Option<(Vec<usize>, usize)>)
    ensures
        match r {
            Some((shape, n)) => machine_dims(dims@) && shape@ == dims_of(dims@) && shape::fits(
                shape@,
            ) && n == shape::numel_of(shape@),
            None => !machine_dims(dims@) || !shape::fits(dims_of(dims@)),
        },
{
    let mut shape: Vec<usize> = Vec::with_capacity(dims.len());
    let mut i: usize = 0;
    while i < dims.len()
        invariant
            i <= dims@.len(),
            machine_dims(dims@.take(i as int)),
            shape@ == dims_of(dims@.take(i as int)),
        decreases dims@.len() - i,
    {
        if dims[i] > usize::MAX as u64 {
            assert(!machine_dims(dims@));
            return None;
        }
        shape.push(dims[i] as usize);
        proof {
            let (before, after) = (dims@.take(i as int), dims@.take(i + 1));
            assert(after =~= before.push(dims@[i as int]));
            assert(machine_dims(after));
            assert(dims_of(after) =~= dims_of(before).push(dims@[i as int] as usize));
        }
        i += 1;
    }
    assert(dims@.take(i as int) =~= dims@);
    match checked_product(&shape) {
        Some(n) => Some((shape, n)),
        None => None,
    }
}

impl<'a, T: Scalar, M: Math<T>> WeightStore<'a, T, M> {
    /// The bytes of the file.
    pub closed spec fn source(&self) -> Seq<u8> {
        self.bytes@
    }

    /// The parsed file.
    pub closed spec fn file(&self) -> FileRecord {
        self.gguf@
    }

    /// The arithmetic that tensors are decoded with.
    pub closed spec fn arithmetic(&self) -> M {
        self.math
    }

    /// The tensors that have been decoded.
    pub closed spec fn kept(&self) -> Map<Seq<char>, Tensor<T>> {
        self.cache@
    }

    /// Every tensor that is kept is a value of the tensor of its name.
    pub open spec fn wf(&self) -> bool {
        forall|name: Seq<char>| #[trigger]
            self.kept().contains_key(name) ==> decoded(
                self.arithmetic(),
                self.file(),
                self.source(),
                name,
                self.kept()[name],
            )
    }

    /// The same file and arithmetic, with nothing lost of what is kept.
    pub open spec fn extends(&self, before: &Self) -> bool {
        &&& self.wf()
        &&& self.source() == before.source()
        &&& self.file() == before.file()
        &&& self.arithmetic() == before.arithmetic()
        &&& forall|name: Seq<char>| #[trigger]
            before.kept().contains_key(name) ==> self.kept().contains_key(name)
                && self.kept()[name] == before.kept()[name]
    }

    /// Asked for the tensor of the given name in state `before`, the store answers `r` and goes
    /// to state `after`.
    pub open spec fn loads(
        before: &Self,
        name: Seq<char>,
        r: Result<Tensor<T>, GGUFError>,
        after: &Self,
    ) -> bool {
        &&& after.extends(before)
        &&& match r {
            Ok(t) => {
                &&& decoded(before.arithmetic(), before.file(), before.source(), name, t)
                &&& after.kept().dom() == before.kept().dom().insert(name)
                &&& t.elems() == after.kept()[name].elems()
                &&& t.dims() == after.kept()[name].dims()
            },
            Err(e) => {
                &&& after.kept() == before.kept()
                &&& decodable(before.file(), before.source().len() as int, name) == Err::<
                    TensorRecord,
                    GGUFError,
                >(e)
            },
        }
    }

    /// A tensor that has been loaded can be loaded again, with the same elements, whatever has
    /// been loaded in between.
    pub proof fn law_load_again(
        before: &Self,
        name: Seq<char>,
        t: Tensor<T>,
        after: &Self,
        later: &Self,
        again: Result<Tensor<T>, GGUFError>,
        last: &Self,
    )
        requires
            Self::loads(before, name, Ok(t), after),
            later.extends(after),
            Self::loads(later, name, again, last),
        ensures
            again matches Ok(u) && u.elems() == t.elems() && u.dims() == t.dims(),
    {
        assert(after.kept().dom().contains(name));
        assert(after.kept().contains_key(name));
        assert(later.kept().contains_key(name));
    }

    /// The tensors of a file, given as its bytes.
    pub fn open(bytes: &'a [u8], math: M) -> (r: Result<Self, GGUFError>)
        ensures
            match r {
                Ok(store) => {
                    &&& store.wf()
                    &&& store.source() == bytes@
                    &&& gguf::file_in(bytes@) == Ok::<FileRecord, GGUFError>(store.file())
                    &&& store.arithmetic() == math
                    &&& store.kept() == Map::<Seq<char>, Tensor<T>>::empty()
                },
                Err(e) => gguf::file_in(bytes@) == Err::<FileRecord, GGUFError>(e),
            },
    {
        match parse(bytes) {
            Ok(gguf) => Ok(WeightStore { bytes, gguf, math, cache: StringHashMap::new() }),
            Err(e) => Err(e),
        }
    }

    /// The parsed file.
    pub fn gguf(&self) -> (r: &GGUFFile)
        ensures
            r@ == self.file(),
    {
        &self.gguf
    }

    /// The arithmetic that tensors are decoded with.
    pub fn math(&self) -> (r: &M)
        ensures
            *r == self.arithmetic(),
    {
        &self.math
    }

    /// The first tensor of the given name.
    fn info(&self, name: &str) -> (r: Option<&TensorInfo>)
        ensures
            match r {
                Some(t) => tensor_named(self.file().tensors, name@) == Some(t@),
                None => tensor_named(self.file().tensors, name@) is None,
            },
    {
        let r = self.gguf.get_tensor(name);
        proof {
            let tensors = self.gguf@.tensors;
            if r is Some {
                let i = choose|i: int| #[trigger]
                    gguf::first_named(tensors, name@, i) && *(r->0) == self.gguf.tensors@[i];
                lemma_first_named(tensors, name@, i);
            } else if exists|i: int| gguf::first_named(tensors, name@, i) {
                let i = choose|i: int| gguf::first_named(tensors, name@, i);
                assert(tensors[i].name != name@);
            }
        }
        r
    }

    /// Where the encoding of a tensor lies.
    fn locate(&self, info: &TensorInfo) -> (r: Result<(usize, usize), GGUFError>)
        ensures
            match r {
                Ok((start, end)) => start <= end && extent(info@, self.source().len() as int) == Ok::<
                    (int, int),
                    GGUFError,
                >((start as int, end as int)),
                Err(e) => extent(info@, self.source().len() as int) == Err::<
                    (int, int),
                    GGUFError,
                >(e),
            },
    {
        assert(self.bytes.len() == self.bytes@.len());
        let (_, n) = match shape_of(&info.shape) {
            Some(s) => s,
            None => return Err(GGUFError::InvalidShape),
        };
        let (count, size) = match layout_of(info.ggml_type) {
            Some(l) => l,
            None => return Err(GGUFError::UnknownMetadataType(info.ggml_type)),
        };
        proof {
            lemma_blocks(n as int, count as int);
        }
        let blocks = if n % count == 0 {
            n / count
        } else {
            n / count + 1
        };
        if info.file_offset > self.bytes.len() as u64 {
            assert(blocks * size >= 0) by (nonlinear_arith)
                requires
                    blocks >= 0,
                    size >= 0,
            ;
            return Err(GGUFError::OutOfBounds);
        }
        let start = info.file_offset as usize;
        match blocks.checked_mul(size) {
            None => Err(GGUFError::OutOfBounds),
            Some(len) => if len > self.bytes.len() - start {
                Err(GGUFError::OutOfBounds)
            } else {
                Ok((start, start + len))
            },
        }
    }

    /// The encoding of the tensor of the given name.
    pub fn get_bytes(&self, name: &str) -> (r: Result<&[u8], GGUFError>)
        ensures
            match (r, extent_named(self.file(), self.source().len() as int, name@)) {
                (Ok(b), Ok((start, end))) => b@ == self.source().subrange(start, end),
                (Err(e), Err(f)) => e == f,
                _ => false,
            },
    {
        let info = match self.info(name) {
            Some(info) => info,
            None => return Err(GGUFError::TensorNotFound),
        };
        match self.locate(info) {
            Ok((start, end)) => Ok(slice_subrange(self.bytes, start, end)),
            Err(e) => Err(e),
        }
    }

    /// The dimensions of the tensor of the given name, where it can be decoded.
    pub fn dims(&self, name: &str) -> (r: Result<Vec<usize>, GGUFError>)
        ensures
            match r {
                Ok(shape) => {
                    &&& decodable(self.file(), self.source().len() as int, name@) is Ok
                    &&& shape@ == dims_of(
                        (decodable(self.file(), self.source().len() as int, name@)->Ok_0).shape,
                    )
                },
                Err(e) => decodable(self.file(), self.source().len() as int, name@) == Err::<
                    TensorRecord,
                    GGUFError,
                >(e),
            },
    {
        let info = match self.info(name) {
            Some(info) => info,
            None => return Err(GGUFError::TensorNotFound),
        };
        match self.locate(info) {
            Ok(_) => {},
            Err(e) => return Err(e),
        }
        let (shape, n) = match shape_of(&info.shape) {
            Some(s) => s,
            None => return Err(GGUFError::InvalidShape),
        };
        let (count, _) = match layout_of(info.ggml_type) {
            Some(l) => l,
            None => return Err(GGUFError::UnknownMetadataType(info.ggml_type)),
        };
        let t = info.ggml_type;
        if !(t == 0 || t == 1 || t == 8 || t == 12 || t == 13 || t == 14 || t == 23 || t == 30) {
            return Err(GGUFError::UnsupportedType(t));
        }
        if n % count != 0 {
            return Err(GGUFError::InvalidShape);
        }
        Ok(shape)
    }

    /// Decodes the tensor of the given name.
    fn decode(&self, name: &str) -> (r: Result<Tensor<T>, GGUFError>)
        requires
            arith::total::<T>(),
        ensures
            match r {
                Ok(t) => decoded(self.arithmetic(), self.file(), self.source(), name@, t),
                Err(e) => decodable(self.file(), self.source().len() as int, name@) == Err::<
                    TensorRecord,
                    GGUFError,
                >(e),
            },
    {
        let shape = match self.dims(name) {
            Ok(shape) => shape,
            Err(e) => return Err(e),
        };
        let bytes = match self.get_bytes(name) {
            Ok(bytes) => bytes,
            Err(e) => return Err(e),
        };
        let info = match self.info(name) {
            Some(info) => info,
            None => return Err(GGUFError::TensorNotFound),
        };
        proof {
            let (count, size) = layout(info.ggml_type)->0;
            let n = shape::numel_of(shape@) as int;
            lemma_blocks(n, count as int);
            lemma_whole(n, count as int, size as int);
        }
        let m = &self.math;
        let r = match info.ggml_type {
            0 => Tensor::load_f32(bytes, shape, m),
            1 => Tensor::load_f16(bytes, shape, m),
            8 => dequant_q8_0(bytes, shape, m),
            12 => dequant_q4_k(bytes, shape, m),
            13 => dequant_q5_k(bytes, shape, m),
            14 => dequant_q6_k(bytes, shape, m),
            23 => dequant_iq4_xs(bytes, shape, m),
            _ => Tensor::load_bf16(bytes, shape, m),
        };
        Ok(r)
    }

    /// The tensor of the given name, decoded unless it has been before.
    pub fn load(&mut self, name: &str) -> (r: Result<Tensor<T>, GGUFError>)
        requires
            arith::total::<T>(),
            old(self).wf(),
        ensures
            Self::loads(old(self), name@, r, final(self)),
    {
        match self.cache.get(name) {
            Some(t) => {
                let t = t.clone();
                assert(self.kept().dom() =~= self.kept().dom().insert(name@));
                return Ok(t);
            },
            None => {},
        }
        match self.decode(name) {
            Ok(t) => {
                let copy = t.clone();
                assert(decoded(self.arithmetic(), self.file(), self.source(), name@, copy));
                self.cache.insert(name.to_owned(), copy);
                assert forall|k: Seq<char>| #[trigger] self.kept().contains_key(k) implies decoded(
                    self.arithmetic(),
                    self.file(),
                    self.source(),
                    k,
                    self.kept()[k],
                ) by {
                    if k != name@ {
                        assert(old(self).kept().contains_key(k));
                    }
                }
                Ok(t)
            },
            Err(e) => Err(e),
        }
    }
}

/// Whole blocks are as long as their number says.
proof fn lemma_whole(n: int, count: int, size: int)
    requires
        n >= 0,
        count > 0,
        size > 0,
        n % count == 0,
    ensures
        (n / count * size) % size == 0,
        (n / count * size) / size == n / count,
        n / count * count == n,
{
    vstd::arithmetic::div_mod::lemma_fundamental_div_mod(n, count);
    let q = n / count;
    assert(q * count == count * q && q * size == size * q) by (nonlinear_arith);
    vstd::arithmetic::div_mod::lemma_fundamental_div_mod_converse(q * size, size, q, 0);
}

/// The number of blocks of `count` that hold `n`.
proof fn lemma_blocks(n: int, count: int)
    requires
        n >= 0,
        count > 0,
    ensures
        (n + count - 1) / count == n / count + if n % count == 0 {
            0int
        } else {
            1int
        },
        n / count <= n,
        n % count != 0 ==> n / count + 1 <= n,
        n / count >= 0,
{
    vstd::arithmetic::div_mod::lemma_fundamental_div_mod(n, count);
    let q = n / count;
    let r = n % count;
    assert(0 <= q && q <= n && (r > 0 ==> q + 1 <= n)) by (nonlinear_arith)
        requires
            n == count * q + r,
            0 <= r < count,
            n >= 0,
            count > 0,
    ;
    assert(q * count == count * q && (q + 1) * count == count * q + count) by (nonlinear_arith);
    let last = n + count - 1;
    if r == 0 {
        vstd::arithmetic::div_mod::lemma_fundamental_div_mod_converse(last, count, q, count - 1);
    } else {
        vstd::arithmetic::div_mod::lemma_fundamental_div_mod_converse(last, count, q + 1, r - 1);
    }
}

} // verus!
