//! The training feature files that vocabularies are created from
//!
//! A file holds a descriptor name (its byte length as a `u32`, then its
//! UTF-8 bytes), the number of arrays (`u64`), then each array: its columns,
//! rows and type code (`u32` each: 0 for `u8`, 5 for `f32`) and its elements
//! row by row, little-endian. All arrays have the same type.
use vstd::prelude::*;
use vstd::utf8::*;
use crate::serde::{u32_at, spec_window, read_u32, read_u64, read_bytes};
use crate::convert::{convert_le, spec_convert_le};
use crate::matrix::Matrix;
use crate::text::str_from_utf8;
use crate::vocabulary::fbow::u64_at;

verus! {

/// Type code of arrays of `u8` elements (OpenCV's `CV_8UC1`)
pub const CV_8UC1: u32 = 0;

/// Type code of arrays of `f32` elements (OpenCV's `CV_32FC1`)
pub const CV_32FC1: u32 = 5;

/// Why a feature file could not be read
#[derive(Clone, Copy, Debug, PartialEq, Eq, Structural)]
pub enum FeatureFileError {
    /// The file ended before a value was complete
    UnexpectedEof,
    /// The descriptor name is not valid UTF-8
    InvalidName,
    /// An array has another element type than the first
    InconsistentTypes,
    /// An array has an unknown type code
    UnexpectedType(u32),
    /// The file holds no array
    NoFeatures,
}

/// The arrays of a feature file, all of one element type
pub enum FeatureArrays {
    /// Arrays of `u8` elements
    U8(Vec<Matrix<u8>>),
    /// Arrays of `f32` elements, by bit pattern
    F32(Vec<Matrix<u32>>),
}

/// An array as the file describes it: its shape and type code, and where
/// its elements start
pub struct ArrayHeader {
    pub cols: nat,
    pub rows: nat,
    pub dty: u32,
    pub data: int,
}

/// Number of bytes of an element of type `dty`
pub open spec fn elem_size(dty: u32) -> nat {
    if dty == CV_32FC1 { 4 } else { 1 }
}

/// Reading the headers of `n` arrays at `pos`, skipping their elements:
/// the headers and the position after the last array
pub open spec fn spec_read_arrays(src: Seq<u8>, pos: int, n: nat) -> Result<(Seq<ArrayHeader>, int), FeatureFileError>
    decreases n,
{
    if n == 0 {
        Ok((Seq::empty(), pos))
    } else {
        match spec_read_arrays(src, pos, (n - 1) as nat) {
            Err(e) => Err(e),
            Ok((hs, p)) => if p + 12 > src.len() {
                Err(FeatureFileError::UnexpectedEof)
            } else {
                let dty = u32_at(src, p + 8);
                if dty != CV_8UC1 && dty != CV_32FC1 {
                    Err(FeatureFileError::UnexpectedType(dty))
                } else if hs.len() > 0 && hs[0].dty != dty {
                    Err(FeatureFileError::InconsistentTypes)
                } else {
                    let cols = u32_at(src, p) as nat;
                    let rows = u32_at(src, p + 4) as nat;
                    let size = rows * cols * elem_size(dty);
                    if p + 12 + size > src.len() {
                        Err(FeatureFileError::UnexpectedEof)
                    } else {
                        Ok((hs.push(ArrayHeader { cols, rows, dty, data: p + 12 }), p + 12 + size))
                    }
                }
            },
        }
    }
}

/// The `u8` array that `h` describes
pub open spec fn spec_u8_rows(src: Seq<u8>, h: ArrayHeader) -> Seq<Seq<u8>> {
    Seq::new(h.rows, |r: int| spec_window(src, h.data + r * h.cols, h.cols as int))
}

/// The `f32` array that `h` describes, by bit pattern
pub open spec fn spec_f32_rows(src: Seq<u8>, h: ArrayHeader) -> Seq<Seq<u32>> {
    Seq::new(h.rows, |r: int| spec_convert_le::<u32>(spec_window(src, h.data + r * (4 * h.cols), (4 * h.cols) as int)))
}

/// Reading a feature file: the descriptor name and the headers of its arrays
pub open spec fn spec_read_feature_file(src: Seq<u8>) -> Result<(Seq<char>, Seq<ArrayHeader>), FeatureFileError> {
    if 4 > src.len() {
        Err(FeatureFileError::UnexpectedEof)
    } else {
        let name_len = u32_at(src, 0) as int;
        if 4 + name_len > src.len() {
            Err(FeatureFileError::UnexpectedEof)
        } else if !valid_utf8(spec_window(src, 4, name_len)) {
            Err(FeatureFileError::InvalidName)
        } else if 4 + name_len + 8 > src.len() {
            Err(FeatureFileError::UnexpectedEof)
        } else {
            let n = u64_at(src, 4 + name_len) as nat;
            match spec_read_arrays(src, 4 + name_len + 8, n) {
                Err(e) => Err(e),
                Ok((hs, _)) => if n == 0 {
                    Err(FeatureFileError::NoFeatures)
                } else {
                    Ok((decode_utf8(spec_window(src, 4, name_len)), hs))
                },
            }
        }
    }
}

/// `a` holds the arrays that the headers `hs` describe in `src`
pub open spec fn arrays_match(src: Seq<u8>, a: FeatureArrays, hs: Seq<ArrayHeader>) -> bool {
    match a {
        FeatureArrays::U8(ms) => {
            &&& hs.len() > 0 && hs[0].dty == CV_8UC1
            &&& ms@.len() == hs.len()
            &&& forall|i: int| 0 <= i < hs.len() ==> (#[trigger] ms@[i]).wf() && ms@[i].ncols == hs[i].cols
                && ms@[i].spec_rows() == spec_u8_rows(src, hs[i])
        },
        FeatureArrays::F32(ms) => {
            &&& hs.len() > 0 && hs[0].dty == CV_32FC1
            &&& ms@.len() == hs.len()
            &&& forall|i: int| 0 <= i < hs.len() ==> (#[trigger] ms@[i]).wf() && ms@[i].ncols == hs[i].cols
                && ms@[i].spec_rows() == spec_f32_rows(src, hs[i])
        },
    }
}

/// Once reading arrays fails, it stays failed
proof fn lemma_arrays_stopped(src: Seq<u8>, pos: int, k: nat, m: nat)
    requires
        k <= m,
        spec_read_arrays(src, pos, k) is Err,
    ensures
        spec_read_arrays(src, pos, m) == spec_read_arrays(src, pos, k),
    decreases m - k,
{
    if k < m {
        lemma_arrays_stopped(src, pos, k, (m - 1) as nat);
    }
}

/// Every array read has the type of the first
proof fn lemma_arrays_same_type(src: Seq<u8>, pos: int, n: nat)
    requires
        spec_read_arrays(src, pos, n) is Ok,
    ensures
        spec_read_arrays(src, pos, n) matches Ok((hs, p)) && hs.len() == n && p >= pos
            && forall|i: int| 0 <= i < n ==> (#[trigger] hs[i]).dty == hs[0].dty && hs[i].data >= pos
                && (hs[i].dty == CV_8UC1 || hs[i].dty == CV_32FC1),
    decreases n,
{
    if n > 0 {
        lemma_arrays_same_type(src, pos, (n - 1) as nat);
    }
}

proof fn lemma_mul_step(i: int, fl: int)
    requires
        0 <= i,
        0 <= fl,
    ensures
        (i + 1) * fl == i * fl + fl,
        0 <= i * fl,
{
    assert((i + 1) * fl == i * fl + fl) by (nonlinear_arith);
    assert(0 <= i * fl) by (nonlinear_arith)
        requires
            0 <= i,
            0 <= fl,
    ;
}

proof fn lemma_mul_mono(i: int, n: int, fl: int)
    requires
        0 <= i <= n,
        0 <= fl,
    ensures
        i * fl <= n * fl,
{
    assert(i * fl <= n * fl) by (nonlinear_arith)
        requires
            0 <= i <= n,
            0 <= fl,
    ;
}

/// Read a `u8` array of `rows` rows of `cols` elements at `*pos`, which the
/// input holds whole
fn read_u8_array(src: &[u8], pos: &mut usize, rows: usize, cols: usize) -> (m: Matrix<u8>)
    requires
        *old(pos) + rows * cols <= src@.len(),
    ensures
        m.wf(),
        m.ncols == cols,
        m.spec_rows() == Seq::new(rows as nat, |r: int| spec_window(src@, *old(pos) + r * cols, cols as int)),
        *final(pos) == *old(pos) + rows * cols,
{
    let ghost start = *pos as int;
    let mut out: Vec<Vec<u8>> = Vec::with_capacity(rows);
    let mut r: usize = 0;
    proof {
        lemma_mul_step(0, cols as int);
    }
    while r < rows
        invariant
            r <= rows,
            start == *old(pos) as int,
            start + rows * cols <= src@.len(),
            *pos == start + r * cols,
            out@.len() == r,
            forall|k: int| 0 <= k < r ==> (#[trigger] out@[k])@ == spec_window(src@, start + k * cols, cols as int),
            forall|k: int| 0 <= k < r ==> (#[trigger] out@[k])@.len() == cols,
        decreases rows - r,
    {
        proof {
            lemma_mul_step(r as int, cols as int);
            lemma_mul_mono(r + 1, rows as int, cols as int);
        }
        let row = match read_bytes(src, pos, cols) {
            Ok(row) => row,
            Err(_) => {
                return vstd::pervasive::unreached();
            },
        };
        out.push(row);
        r = r + 1;
    }
    let m = Matrix { ncols: cols, rows: out };
    assert(m.spec_rows() =~= Seq::new(rows as nat, |k: int| spec_window(src@, start + k * cols, cols as int)));
    m
}

/// Read an `f32` array (by bit pattern) of `rows` rows of `cols` elements at
/// `*pos`, which the input holds whole
fn read_f32_array(src: &[u8], pos: &mut usize, rows: usize, cols: usize) -> (m: Matrix<u32>)
    requires
        *old(pos) + rows * (4 * cols) <= src@.len(),
    ensures
        m.wf(),
        m.ncols == cols,
        m.spec_rows() == Seq::new(rows as nat, |r: int| spec_convert_le::<u32>(spec_window(src@, *old(pos) + r * (4 * cols), (4 * cols) as int))),
        *final(pos) == *old(pos) + rows * (4 * cols),
{
    let ghost start = *pos as int;
    let ghost w = 4 * cols as int;
    let mut out: Vec<Vec<u32>> = Vec::with_capacity(rows);
    let mut r: usize = 0;
    proof {
        lemma_mul_step(0, w);
        if rows > 0 {
            lemma_mul_mono(1, rows as int, w);
            assert(1 * w == w);
            assert(4 * cols <= src@.len());
            assert(src@.len() == src.len());
        }
    }
    let row_bytes: usize = if rows > 0 { 4 * cols } else { 0 };
    while r < rows
        invariant
            r <= rows,
            start == *old(pos) as int,
            w == 4 * cols,
            rows > 0 ==> row_bytes == w,
            start + rows * w <= src@.len(),
            *pos == start + r * w,
            out@.len() == r,
            forall|k: int| 0 <= k < r ==> (#[trigger] out@[k])@ == spec_convert_le::<u32>(spec_window(src@, start + k * w, w)),
            forall|k: int| 0 <= k < r ==> (#[trigger] out@[k])@.len() == cols,
        decreases rows - r,
    {
        proof {
            lemma_mul_step(r as int, w);
            lemma_mul_mono(r + 1, rows as int, w);
        }
        let bytes = match read_bytes(src, pos, row_bytes) {
            Ok(b) => b,
            Err(_) => {
                return vstd::pervasive::unreached();
            },
        };
        let words = match convert_le::<u32>(bytes.as_slice()) {
            Ok(v) => v,
            Err(_) => {
                return vstd::pervasive::unreached();
            },
        };
        assert(spec_convert_le::<u32>(bytes@).len() == cols);
        out.push(words);
        r = r + 1;
    }
    let m = Matrix { ncols: cols, rows: out };
    assert(m.spec_rows() =~= Seq::new(rows as nat, |k: int| spec_convert_le::<u32>(spec_window(src@, start + k * w, w))));
    m
}

/// The arrays read so far, `hs` the headers of the `n` first: none yet, or
/// all of the first array's type
pub open spec fn arrays_so_far(src: Seq<u8>, u8s: Seq<Matrix<u8>>, f32s: Seq<Matrix<u32>>, hs: Seq<ArrayHeader>) -> bool {
    &&& hs.len() == 0 ==> u8s.len() == 0 && f32s.len() == 0
    &&& hs.len() > 0 && hs[0].dty == CV_8UC1 ==> f32s.len() == 0 && u8s.len() == hs.len()
        && forall|i: int| 0 <= i < hs.len() ==> (#[trigger] u8s[i]).wf() && u8s[i].ncols == hs[i].cols
            && u8s[i].spec_rows() == spec_u8_rows(src, hs[i])
    &&& hs.len() > 0 && hs[0].dty == CV_32FC1 ==> u8s.len() == 0 && f32s.len() == hs.len()
        && forall|i: int| 0 <= i < hs.len() ==> (#[trigger] f32s[i]).wf() && f32s[i].ncols == hs[i].cols
            && f32s[i].spec_rows() == spec_f32_rows(src, hs[i])
}

/// Read a feature file from its bytes: the descriptor name and the arrays
pub fn parse_feature_file(src: &[u8]) -> (r: Result<(String, FeatureArrays), FeatureFileError>)
    ensures
        match spec_read_feature_file(src@) {
            Ok((name, hs)) => r is Ok && r->Ok_0.0@ == name && arrays_match(src@, r->Ok_0.1, hs),
            Err(e) => r == Err::<(String, FeatureArrays), FeatureFileError>(e),
        },
{
    let ghost s = src@;
    let mut pos: usize = 0;
    let name_len = match read_u32(src, &mut pos) {
        Ok(v) => v,
        Err(_) => {
            return Err(FeatureFileError::UnexpectedEof);
        },
    };
    assert(name_len == u32_at(s, 0));
    let name_bytes = match read_bytes(src, &mut pos, name_len as usize) {
        Ok(b) => b,
        Err(_) => {
            return Err(FeatureFileError::UnexpectedEof);
        },
    };
    let name = match str_from_utf8(name_bytes.as_slice()) {
        Some(t) => t.to_owned(),
        None => {
            return Err(FeatureFileError::InvalidName);
        },
    };
    let size = match read_u64(src, &mut pos) {
        Ok(v) => v,
        Err(_) => {
            return Err(FeatureFileError::UnexpectedEof);
        },
    };
    let ghost body = pos as int;
    assert(body == 4 + name_len + 8);
    assert(name_bytes@ == spec_window(s, 4, name_len as int));
    assert(size == u64_at(s, 4 + name_len as int));
    let mut u8s: Vec<Matrix<u8>> = Vec::new();
    let mut f32s: Vec<Matrix<u32>> = Vec::new();
    let ghost mut hs: Seq<ArrayHeader> = Seq::empty();
    let mut i: u64 = 0;
    while i < size
        invariant
            i <= size,
            s == src@,
            4 <= s.len(),
            name_len == u32_at(s, 0),
            body == 4 + name_len + 8,
            body <= s.len(),
            valid_utf8(spec_window(s, 4, name_len as int)),
            name@ == decode_utf8(spec_window(s, 4, name_len as int)),
            size == u64_at(s, 4 + name_len as int),
            body <= pos <= s.len(),
            spec_read_arrays(s, body, i as nat) == Ok::<(Seq<ArrayHeader>, int), FeatureFileError>((hs, pos as int)),
            hs.len() == i,
            arrays_so_far(s, u8s@, f32s@, hs),
        decreases size - i,
    {
        proof {
            lemma_arrays_same_type(s, body, i as nat);
        }
        let cols = match read_u32(src, &mut pos) {
            Ok(v) => v,
            Err(_) => {
                proof {
                    assert(spec_read_arrays(s, body, (i + 1) as nat) is Err);
                    lemma_arrays_stopped(s, body, (i + 1) as nat, size as nat);
                }
                return Err(FeatureFileError::UnexpectedEof);
            },
        };
        let rows = match read_u32(src, &mut pos) {
            Ok(v) => v,
            Err(_) => {
                proof {
                    assert(spec_read_arrays(s, body, (i + 1) as nat) is Err);
                    lemma_arrays_stopped(s, body, (i + 1) as nat, size as nat);
                }
                return Err(FeatureFileError::UnexpectedEof);
            },
        };
        let dty = match read_u32(src, &mut pos) {
            Ok(v) => v,
            Err(_) => {
                proof {
                    assert(spec_read_arrays(s, body, (i + 1) as nat) is Err);
                    lemma_arrays_stopped(s, body, (i + 1) as nat, size as nat);
                }
                return Err(FeatureFileError::UnexpectedEof);
            },
        };
        let ghost p = pos - 12;
        if dty != CV_8UC1 && dty != CV_32FC1 {
            proof {
                assert(spec_read_arrays(s, body, (i + 1) as nat) is Err);
                lemma_arrays_stopped(s, body, (i + 1) as nat, size as nat);
            }
            return Err(FeatureFileError::UnexpectedType(dty));
        }
        let consistent = if i == 0 {
            true
        } else if dty == CV_8UC1 {
            f32s.len() == 0
        } else {
            u8s.len() == 0
        };
        if !consistent {
            proof {
                assert(spec_read_arrays(s, body, (i + 1) as nat) is Err);
                lemma_arrays_stopped(s, body, (i + 1) as nat, size as nat);
            }
            return Err(FeatureFileError::InconsistentTypes);
        }
        let esize: u64 = if dty == CV_32FC1 { 4 } else { 1 };
        let remaining = (src.len() - pos) as u64;
        proof {
            lemma_mul_mono(rows as int, 0xffff_ffff, cols as int);
            lemma_mul_mono(cols as int, 0xffff_ffff, 0xffff_ffff);
            assert(cols * 0xffff_ffff == 0xffff_ffff * cols) by (nonlinear_arith);
        }
        let cells = (rows as u64) * (cols as u64);
        let fits = match cells.checked_mul(esize) {
            Some(n) => n <= remaining,
            None => false,
        };
        proof {
            assert((rows as nat) * (cols as nat) * elem_size(dty) == cells * esize);
        }
        if !fits {
            proof {
                assert(spec_read_arrays(s, body, (i + 1) as nat) is Err);
                lemma_arrays_stopped(s, body, (i + 1) as nat, size as nat);
            }
            return Err(FeatureFileError::UnexpectedEof);
        }
        let ghost h = ArrayHeader { cols: cols as nat, rows: rows as nat, dty, data: pos as int };
        if dty == CV_8UC1 {
            proof {
                assert((rows as usize) * (cols as usize) == cells);
            }
            let m = read_u8_array(src, &mut pos, rows as usize, cols as usize);
            assert(m.spec_rows() =~= spec_u8_rows(s, h));
            u8s.push(m);
        } else {
            proof {
                assert((rows as usize) * (4 * (cols as usize)) == cells * esize) by (nonlinear_arith)
                    requires
                        cells == (rows as int) * (cols as int),
                        esize == 4,
                ;
            }
            let m = read_f32_array(src, &mut pos, rows as usize, cols as usize);
            assert(m.spec_rows() =~= spec_f32_rows(s, h));
            f32s.push(m);
        }
        proof {
            let hs2 = hs.push(h);
            assert(hs2[0].dty == (if i == 0 { dty } else { hs[0].dty }));
            assert forall|k: int| 0 <= k < hs2.len() - 1 implies #[trigger] hs2[k] == hs[k] by {}
            hs = hs2;
        }
        i = i + 1;
    }
    if size == 0 {
        return Err(FeatureFileError::NoFeatures);
    }
    let arrays = if u8s.len() > 0 {
        FeatureArrays::U8(u8s)
    } else {
        FeatureArrays::F32(f32s)
    };
    Ok((name, arrays))
}

} // verus!
