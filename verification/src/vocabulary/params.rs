//! Vocabulary parameters and their 78-byte encoding
use vstd::prelude::*;
use vstd::utf8::*;
use vstd::string::*;
use vstd::bytes::*;
use arrayvec::ArrayString;
use crate::dtype::{lemma_type_code_roundtrip, DescriptorType, spec_type_code, spec_from_type_code};
use crate::serde::{u32_at, Serialize, Deserialize, lemma_u32_roundtrip, lemma_u64_roundtrip, FormatError, spec_window, write_bytes, write_u32, write_u32ish, write_u64, read_bytes, read_u32, read_u32ish, read_u64};
use crate::text::{lemma_first_nul_unique, lemma_encode_utf8_nonzero, chars49, utf8_len, first_nul, lemma_first_nul, find_nul, str_from_utf8, name49_new, name49_clear, name49_capacity, name49_push_str, name49_as_str, name49_from};

verus! {

broadcast use vstd::utf8::encode_utf8_valid_utf8, vstd::utf8::encode_utf8_decode_utf8,
    vstd::utf8::decode_utf8_encode_utf8;

/// Number of bytes of the name field
pub const NAME_FIELD_LEN: usize = 50;

/// Number of bytes of an encoded [`VocabularyParams`]
pub const PARAMS_ENCODED_LEN: usize = 78;

/// Vocabulary parameters
#[derive(Debug, PartialEq, Eq)]
pub struct VocabularyParams {
    /// Descriptor name. May be empty
    pub desc_name: ArrayString<49>,
    /// Memory alignment of each feature
    pub alignment: usize,
    /// Total number of blocks
    pub nblocks: u32,
    pub total_size: u64,
    /// Descriptor type
    pub desc_type: DescriptorType,
    /// Descriptor size
    pub desc_size: usize,
    /// Number of children per node
    pub m_k: u32,
}

/// Mathematical model of [`VocabularyParams`]
pub struct ParamsView {
    pub name: Seq<char>,
    pub alignment: nat,
    pub nblocks: u32,
    pub total_size: u64,
    pub desc_type: DescriptorType,
    pub desc_size: nat,
    pub m_k: u32,
}

impl View for VocabularyParams {
    type V = ParamsView;

    open spec fn view(&self) -> ParamsView {
        ParamsView {
            name: chars49(self.desc_name),
            alignment: self.alignment as nat,
            nblocks: self.nblocks,
            total_size: self.total_size,
            desc_type: self.desc_type,
            desc_size: self.desc_size as nat,
            m_k: self.m_k,
        }
    }
}

/// Number of leading characters of `chars` whose UTF-8 encoding fits in `cap` bytes
pub open spec fn fit_prefix_len(chars: Seq<char>, cap: int) -> nat
    decreases chars.len(),
{
    if chars.len() == 0 {
        0
    } else if encode_scalar(chars[0] as u32).len() <= cap {
        1 + fit_prefix_len(chars.drop_first(), cap - encode_scalar(chars[0] as u32).len())
    } else {
        0
    }
}

/// The name that a name of `chars` is truncated to: its longest prefix that fits in 49 bytes
pub open spec fn truncated_name(chars: Seq<char>) -> Seq<char> {
    chars.take(fit_prefix_len(chars, 49) as int)
}

/// The encoding of the name field: the UTF-8 bytes of the name, zero-padded to 50 bytes
pub open spec fn spec_name_field(name: Seq<char>) -> Seq<u8> {
    encode_utf8(name) + Seq::new((50 - utf8_len(name)) as nat, |i: int| 0u8)
}

/// Whether parameters with model `p` can be encoded (their sizes fit in 32 bits)
pub open spec fn spec_encodable(p: ParamsView) -> bool {
    p.alignment <= u32::MAX && p.desc_size <= u32::MAX
}

/// The 78-byte encoding of parameters with model `p`
pub open spec fn spec_encode_params(p: ParamsView) -> Seq<u8> {
    spec_name_field(p.name)
        + spec_u32_to_le_bytes(p.alignment as u32)
        + spec_u32_to_le_bytes(p.nblocks)
        + spec_u64_to_le_bytes(p.total_size)
        + spec_u32_to_le_bytes(spec_type_code(p.desc_type))
        + spec_u32_to_le_bytes(p.desc_size as u32)
        + spec_u32_to_le_bytes(p.m_k)
}

/// The name bytes of a 50-byte name field: the bytes before the first zero
pub open spec fn spec_name_bytes(field: Seq<u8>) -> Seq<u8> {
    field.take(first_nul(field))
}

/// Reading parameters at `pos` panics: the name field holds no zero byte and is
/// valid UTF-8, so it is 50 bytes long and does not fit the 49-byte name
pub open spec fn spec_read_params_panics(src: Seq<u8>, pos: int) -> bool {
    &&& pos + 50 <= src.len()
    &&& first_nul(spec_window(src, pos, 50)) == 50
    &&& valid_utf8(spec_window(src, pos, 50))
}

/// Result of reading parameters from `src` at `pos`: the parameters and the
/// position after them, or the error
pub open spec fn spec_read_params(src: Seq<u8>, pos: int) -> Result<(ParamsView, int), FormatError> {
    if pos + 50 > src.len() {
        Err(FormatError::UnexpectedEof)
    } else if !valid_utf8(spec_name_bytes(spec_window(src, pos, 50))) {
        Err(FormatError::InvalidUtf8)
    } else if pos + 70 > src.len() {
        Err(FormatError::UnexpectedEof)
    } else if spec_from_type_code(u32_at(src, pos + 66)) is None {
        Err(FormatError::InvalidDescriptorType(u32_at(src, pos + 66)))
    } else if pos + 78 > src.len() {
        Err(FormatError::UnexpectedEof)
    } else {
        Ok((
            ParamsView {
                name: decode_utf8(spec_name_bytes(spec_window(src, pos, 50))),
                alignment: u32_at(src, pos + 50) as nat,
                nblocks: u32_at(src, pos + 54),
                total_size: spec_u64_from_le_bytes(spec_window(src, pos + 58, 8)),
                desc_type: spec_from_type_code(u32_at(src, pos + 66))->Some_0,
                desc_size: u32_at(src, pos + 70) as nat,
                m_k: u32_at(src, pos + 74),
            },
            pos + 78,
        ))
    }
}

/// Number of UTF-8 bytes of the character `c`
fn char_utf8_width(c: char) -> (w: usize)
    ensures
        w == encode_scalar(c as u32).len(),
{
    proof {
        char_is_scalar(c);
    }
    let v = c as u32;
    if v <= 0x7f {
        1
    } else if v <= 0x7ff {
        2
    } else if v <= 0xffff {
        3
    } else {
        4
    }
}

/// UTF-8 encoding distributes over appending one character
pub proof fn lemma_encode_utf8_push(s: Seq<char>, c: char)
    ensures
        encode_utf8(s.push(c)) == encode_utf8(s) + encode_scalar(c as u32),
    decreases s.len(),
{
    if s.len() == 0 {
        assert(s.push(c).drop_first() =~= Seq::<char>::empty());
        assert(encode_utf8(Seq::<char>::empty()) =~= Seq::<u8>::empty());
        assert(s.push(c)[0] == c);
        assert(encode_utf8(s.push(c)) =~= encode_scalar(c as u32) + encode_utf8(Seq::<char>::empty()));
        assert(encode_utf8(s) =~= Seq::<u8>::empty());
    } else {
        assert(s.push(c).drop_first() =~= s.drop_first().push(c));
        lemma_encode_utf8_push(s.drop_first(), c);
        assert(encode_utf8(s.push(c)) =~= encode_utf8(s) + encode_scalar(c as u32));
    }
}

proof fn lemma_fit_prefix_len_bound(chars: Seq<char>, cap: int)
    ensures
        fit_prefix_len(chars, cap) <= chars.len(),
        cap >= 0 ==> utf8_len(chars.take(fit_prefix_len(chars, cap) as int)) <= cap,
    decreases chars.len(),
{
    if chars.len() > 0 && encode_scalar(chars[0] as u32).len() <= cap {
        let rest = chars.drop_first();
        let w = encode_scalar(chars[0] as u32).len();
        lemma_fit_prefix_len_bound(rest, cap - w);
        let k = fit_prefix_len(rest, cap - w);
        assert(chars.take((k + 1) as int).drop_first() =~= rest.take(k as int));
        assert(chars.take((k + 1) as int)[0] == chars[0]);
    } else if chars.len() > 0 {
        assert(chars.take(0) =~= Seq::<char>::empty());
    } else {
        assert(chars.take(0) =~= Seq::<char>::empty());
    }
}

impl VocabularyParams {
    /// The parameters' invariant: the name fits in its 49 bytes
    pub open spec fn wf(&self) -> bool {
        utf8_len(chars49(self.desc_name)) <= 49
    }

    /// Create empty params
    pub fn empty() -> (p: Self)
        ensures
            p.wf(),
            p@ == (ParamsView {
                name: Seq::<char>::empty(),
                alignment: 0,
                nblocks: 0,
                total_size: 0,
                desc_type: DescriptorType::Uint8,
                desc_size: 0,
                m_k: 0,
            }),
    {
        let p = Self {
            desc_name: name49_new(),
            alignment: 0,
            nblocks: 0,
            total_size: 0,
            desc_type: DescriptorType::Uint8,
            desc_size: 0,
            m_k: 0,
        };
        assert(encode_utf8(Seq::<char>::empty()) =~= Seq::<u8>::empty());
        p
    }

    /// Set vocabulary parameters
    pub fn set(
        &mut self,
        alignment: usize,
        k: u32,
        desc_type: DescriptorType,
        desc_size: usize,
        nblocks: u32,
        desc_name: &str,
    )
        ensures
            final(self).wf(),
            final(self)@ == (ParamsView {
                name: truncated_name(desc_name@),
                alignment: alignment as nat,
                nblocks: nblocks,
                total_size: old(self)@.total_size,
                desc_type: desc_type,
                desc_size: desc_size as nat,
                m_k: k,
            }),
    {
        self.set_name(desc_name);
        self.alignment = alignment;
        self.m_k = k;
        self.desc_type = desc_type;
        self.nblocks = nblocks;
        self.desc_size = desc_size;
    }

    /// Set descriptor name
    ///
    /// Because it's statically allocated, the name is truncated to its longest
    /// prefix of whole characters that fits in 49 bytes
    pub fn set_name(&mut self, name: &str)
        ensures
            final(self).wf(),
            final(self)@ == (ParamsView { name: truncated_name(name@), ..old(self)@ }),
    {
        name49_clear(&mut self.desc_name);
        let capacity = name49_capacity(&self.desc_name);
        let n = name.unicode_len();
        let mut i: usize = 0;
        let mut used: usize = 0;
        let ghost chars = name@;
        proof {
            assert(chars.skip(0) =~= chars);
        }
        while i < n
            invariant_except_break
                i <= n,
                n == chars.len(),
                capacity == 49,
                chars == name@,
                used <= 49,
                used == utf8_len(chars.take(i as int)),
                fit_prefix_len(chars, 49) == i + fit_prefix_len(chars.skip(i as int), 49 - used),
            ensures
                i <= n,
                used <= 49,
                used == utf8_len(chars.take(i as int)),
                fit_prefix_len(chars, 49) == i,
            decreases n - i,
        {
            let c = name.get_char(i);
            let w = char_utf8_width(c);
            let ghost rest = chars.skip(i as int);
            assert(rest[0] == c);
            if w > capacity - used {
                assert(fit_prefix_len(rest, 49 - used) == 0);
                break;
            }
            proof {
                assert(rest.drop_first() =~= chars.skip(i + 1));
                assert(chars.take(i + 1) =~= chars.take(i as int).push(c));
                lemma_encode_utf8_push(chars.take(i as int), c);
            }
            used = used + w;
            i = i + 1;
        }
        proof {
            if i == n {
                assert(chars.skip(i as int) =~= Seq::<char>::empty());
            }
        }
        let prefix = name.substring_char(0, i);
        assert(prefix@ =~= truncated_name(name@));
        proof {
            assert(chars49(self.desc_name) =~= Seq::<char>::empty());
            assert(encode_utf8(Seq::<char>::empty()) =~= Seq::<u8>::empty());
        }
        name49_push_str(&mut self.desc_name, prefix);
        assert(chars49(self.desc_name) =~= truncated_name(name@));
    }
}

/// Write the name field: the UTF-8 bytes of the name padded with zeros to 50 bytes
fn write_name_field(name: &ArrayString<49>, dst: &mut Vec<u8>)
    ensures
        final(dst)@ == old(dst)@ + spec_name_field(chars49(*name)),
{
    let s = name49_as_str(name);
    let bytes = s.as_bytes_vec();
    let ghost start = dst@;
    write_bytes(bytes.as_slice(), dst);
    let mut i: usize = bytes.len();
    while i < NAME_FIELD_LEN
        invariant
            bytes@.len() <= i <= 50,
            bytes@ == encode_utf8(chars49(*name)),
            dst@ == start + bytes@ + Seq::new((i - bytes@.len()) as nat, |j: int| 0u8),
        decreases 50 - i,
    {
        dst.push(0u8);
        i = i + 1;
        assert(dst@ =~= start + bytes@ + Seq::new((i - bytes@.len()) as nat, |j: int| 0u8));
    }
    assert(dst@ =~= start + spec_name_field(chars49(*name)));
}

impl VocabularyParams {
    /// Append the 78-byte encoding of the parameters to `dst`
    ///
    /// Fails with [`FormatError::ValueOverflow`] if the alignment or the descriptor size does not fit in 32 bits
    pub fn write_to(&self, dst: &mut Vec<u8>) -> (res: Result<(), FormatError>)
        ensures
            spec_encodable(self@) ==> res is Ok && final(dst)@ == old(dst)@ + spec_encode_params(self@),
            !spec_encodable(self@) ==> res == Err::<(), FormatError>(FormatError::ValueOverflow),
    {
        let ghost start = dst@;
        write_name_field(&self.desc_name, dst);
        write_u32ish(self.alignment, dst)?;
        write_u32(self.nblocks, dst);
        write_u64(self.total_size, dst);
        write_u32(self.desc_type.type_code(), dst);
        write_u32ish(self.desc_size, dst)?;
        write_u32(self.m_k, dst);
        assert(dst@ =~= start + spec_encode_params(self@));
        Ok(())
    }

    /// Read parameters from `src` at `*pos`
    pub fn read_from(src: &[u8], pos: &mut usize) -> (res: Result<Self, FormatError>)
        requires
            !spec_read_params_panics(src@, *old(pos) as int),
        ensures
            match spec_read_params(src@, *old(pos) as int) {
                Ok((p, next)) => res is Ok && res->Ok_0@ == p && res->Ok_0.wf() && *final(pos) == next,
                Err(e) => res == Err::<Self, FormatError>(e),
            },
    {
        let ghost src_v = src@;
        let ghost p0 = *pos as int;
        let field = read_bytes(src, pos, NAME_FIELD_LEN)?;
        let k = find_nul(field.as_slice());
        proof {
            lemma_first_nul(field@);
        }
        let mut name_bytes: Vec<u8> = Vec::with_capacity(k);
        let mut i: usize = 0;
        while i < k
            invariant
                i <= k,
                k <= field@.len(),
                name_bytes@ == field@.take(i as int),
            decreases k - i,
        {
            name_bytes.push(field[i]);
            i = i + 1;
            assert(name_bytes@ =~= field@.take(i as int));
        }
        let text = match str_from_utf8(name_bytes.as_slice()) {
            Some(t) => t,
            None => {
                return Err(FormatError::InvalidUtf8);
            }
        };
        proof {
            assert(field@ == spec_window(src_v, p0, 50));
            if k == 50 {
                assert(field@.take(50) =~= field@);
            }
            assert(k < 50);
            assert(encode_utf8(text@) == name_bytes@);
        }
        let desc_name = match name49_from(text) {
            Some(n) => n,
            None => {
                return Err(FormatError::InvalidUtf8);
            }
        };
        let alignment = read_u32ish(src, pos)?;
        let nblocks = read_u32(src, pos)?;
        let total_size = read_u64(src, pos)?;
        let code = read_u32(src, pos)?;
        let desc_type = match DescriptorType::try_from_code(code) {
            Ok(dt) => dt,
            Err(e) => {
                return Err(FormatError::InvalidDescriptorType(e.0));
            }
        };
        let desc_size = read_u32ish(src, pos)?;
        let m_k = read_u32(src, pos)?;
        Ok(Self { desc_name, alignment, nblocks, total_size, desc_type, desc_size, m_k })
    }
}

/// Parameters that can be written and whose name holds no NUL character
pub open spec fn spec_roundtrips(p: ParamsView) -> bool {
    &&& utf8_len(p.name) <= 49
    &&& forall|i: int| 0 <= i < p.name.len() ==> p.name[i] != '\0'
    &&& spec_encodable(p)
}

/// Reading parameters back from their encoding, wherever it stands in a byte
/// stream, gives the parameters that were written and the position right after
/// them (the name must hold no NUL character: the name field ends at the first zero byte)
pub proof fn lemma_params_roundtrip(p: ParamsView, pre: Seq<u8>, post: Seq<u8>)
    requires
        spec_roundtrips(p),
    ensures
        spec_encode_params(p).len() == 78,
        !spec_read_params_panics(pre + spec_encode_params(p) + post, pre.len() as int),
        spec_read_params(pre + spec_encode_params(p) + post, pre.len() as int)
            == Ok::<(ParamsView, int), FormatError>((p, pre.len() + 78int)),
{
    let enc = spec_encode_params(p);
    let src = pre + enc + post;
    let b = pre.len() as int;
    let name_b = encode_utf8(p.name);
    let field = spec_name_field(p.name);
    lemma_u32_roundtrip(p.alignment as u32);
    lemma_u32_roundtrip(p.nblocks);
    lemma_u64_roundtrip(p.total_size);
    lemma_u32_roundtrip(spec_type_code(p.desc_type));
    lemma_u32_roundtrip(p.desc_size as u32);
    lemma_u32_roundtrip(p.m_k);
    assert(field.len() == 50);
    assert(enc.len() == 78);
    assert(spec_window(src, b, 50) =~= field);
    assert(spec_window(src, b + 50, 4) =~= spec_u32_to_le_bytes(p.alignment as u32));
    assert(spec_window(src, b + 54, 4) =~= spec_u32_to_le_bytes(p.nblocks));
    assert(spec_window(src, b + 58, 8) =~= spec_u64_to_le_bytes(p.total_size));
    assert(spec_window(src, b + 66, 4) =~= spec_u32_to_le_bytes(spec_type_code(p.desc_type)));
    assert(spec_window(src, b + 70, 4) =~= spec_u32_to_le_bytes(p.desc_size as u32));
    assert(spec_window(src, b + 74, 4) =~= spec_u32_to_le_bytes(p.m_k));
    lemma_encode_utf8_nonzero(p.name);
    assert forall|i: int| 0 <= i < name_b.len() implies field[i] != 0 by {
        assert(field[i] == name_b[i]);
    }
    if name_b.len() < 50 {
        assert(field[name_b.len() as int] == 0);
    }
    lemma_first_nul_unique(field, name_b.len() as int);
    assert(spec_name_bytes(field) =~= name_b);
    assert(decode_utf8(name_b) == p.name);
    lemma_type_code_roundtrip(p.desc_type, spec_type_code(p.desc_type));
}

impl Serialize for VocabularyParams {
    fn write_to(&self, dst: &mut Vec<u8>) -> (res: Result<(), FormatError>)
        ensures
            spec_encodable(self@) ==> res is Ok && final(dst)@ == old(dst)@ + spec_encode_params(self@),
            !spec_encodable(self@) ==> res == Err::<(), FormatError>(FormatError::ValueOverflow),
    {
        VocabularyParams::write_to(self, dst)
    }
}

impl Deserialize for VocabularyParams {
    open spec fn spec_readable(src: Seq<u8>, pos: int) -> bool {
        !spec_read_params_panics(src, pos)
    }

    fn read_from(src: &[u8], pos: &mut usize) -> (res: Result<Self, FormatError>)
        ensures
            match spec_read_params(src@, *old(pos) as int) {
                Ok((p, next)) => res is Ok && res->Ok_0@ == p && res->Ok_0.wf() && *final(pos) == next,
                Err(e) => res == Err::<Self, FormatError>(e),
            },
    {
        VocabularyParams::read_from(src, pos)
    }
}

} // verus!
